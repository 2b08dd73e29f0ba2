//! The fixed rows x cols grid of buckets, stored in an `ndarray::Array2`.
//!
//! The array is kept in a hidden field; what it holds is named by
//! `grid_cells`, one sequence of rows, each a sequence of buckets.
use vstd::prelude::*;

verus! {

/// A two-dimensional array of buckets of relations.
#[verifier::external_body]
#[derive(Debug)]
pub struct Grid {
    cells: ndarray::Array2<Vec<(u64, u64)>>,
}

/// The buckets of a grid, row by row.
pub uninterp spec fn grid_cells(g: Grid) -> Seq<Seq<Seq<(u64, u64)>>>;

/// A grid of `rows` rows and `cols` columns of empty buckets.
pub open spec fn empty_cells(rows: nat, cols: nat) -> Seq<Seq<Seq<(u64, u64)>>> {
    Seq::new(rows, |i: int| Seq::new(cols, |j: int| Seq::<(u64, u64)>::empty()))
}

impl Grid {
    /// Relies on `ndarray::Array2::default`: an array of the given shape
    /// whose elements are `Vec::default()`, that is empty. It panics when the
    /// product of the non-zero lengths overflows `isize`.
    #[verifier::external_body]
    pub fn new(rows: usize, cols: usize) -> (g: Grid)
        requires
            rows >= 1,
            cols >= 1,
            rows * cols <= isize::MAX,
        ensures
            grid_cells(g) == empty_cells(rows as nat, cols as nat),
    {
        Grid { cells: ndarray::Array2::default((rows, cols)) }
    }

    /// Relies on `ndarray`'s `Index<[usize; 2]>`: the element at row `i`,
    /// column `j`; it panics out of bounds.
    #[verifier::external_body]
    pub fn bucket(&self, i: usize, j: usize) -> (b: &Vec<(u64, u64)>)
        requires
            i < grid_cells(*self).len(),
            j < grid_cells(*self)[i as int].len(),
        ensures
            b@ == grid_cells(*self)[i as int][j as int],
    {
        &self.cells[[i, j]]
    }

    /// Relies on `ndarray`'s `IndexMut<[usize; 2]>` (which panics out of
    /// bounds), with `std::mem::replace`: puts `b` at row `i`, column `j` and
    /// hands back what stood there.
    #[verifier::external_body]
    pub fn replace_bucket(&mut self, i: usize, j: usize, b: Vec<(u64, u64)>) -> (prev: Vec<(u64, u64)>)
        requires
            i < grid_cells(*old(self)).len(),
            j < grid_cells(*old(self))[i as int].len(),
        ensures
            prev@ == grid_cells(*old(self))[i as int][j as int],
            grid_cells(*final(self)) == grid_cells(*old(self)).update(
                i as int,
                grid_cells(*old(self))[i as int].update(j as int, b@),
            ),
    {
        std::mem::replace(&mut self.cells[[i, j]], b)
    }
}

} // verus!
