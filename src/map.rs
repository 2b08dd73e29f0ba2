//! The relation store: insert, remove and the three scans.
use vstd::prelude::*;

use crate::grid::{grid_cells, Grid};
use crate::hasher::{HashProvider, StdHashProvider};

verus! {

broadcast use vstd::seq_lib::lemma_seq_contains_after_push;

/// `x` in one of the sequences of `s` is in their concatenation.
proof fn lemma_flatten_contains<A>(s: Seq<Seq<A>>, i: int, x: A)
    requires
        0 <= i < s.len(),
        s[i].contains(x),
    ensures
        s.flatten().contains(x),
    decreases s.len(),
{
    assert(s.flatten() == s[0] + s.drop_first().flatten());
    if i == 0 {
        let k = choose|k: int| 0 <= k < s[0].len() && s[0][k] == x;
        assert(s.flatten()[k] == x);
    } else {
        lemma_flatten_contains(s.drop_first(), i - 1, x);
        let t = s.drop_first().flatten();
        let k = choose|k: int| 0 <= k < t.len() && t[k] == x;
        assert(s.flatten()[s[0].len() + k] == x);
    }
}

/// Why a map could not be built.
#[derive(Clone, Copy, Debug, PartialEq, Eq, Structural)]
pub enum MapError {
    /// A grid with no rows or no columns.
    InvalidCapacity,
}

/// A bidirectional multimap, where each key can be associated with many
/// values and each value with many keys.
///
/// It is a hash map with separate chaining whose buckets form a 2D array:
/// the relation `(k, v)` lives in the bucket at row `hash(k) % rows`,
/// column `hash(v) % cols`. The values of a key are found by scanning one
/// row, the keys of a value by scanning one column; the row scan is the
/// more cache-friendly of the two.
#[derive(Debug)]
pub struct BiMultiMap<S = StdHashProvider> {
    buckets: Grid,
    rows: usize,
    cols: usize,
    builder: S,
}

impl<S: HashProvider> View for BiMultiMap<S> {
    type V = Set<(u64, u64)>;

    /// The relations in the map.
    closed spec fn view(&self) -> Set<(u64, u64)> {
        Set::new(|p: (u64, u64)| self.home(p).contains(p))
    }
}

impl<S: HashProvider> BiMultiMap<S> {
    /// The number of rows of the grid, the fan-out of keys.
    pub closed spec fn spec_rows(&self) -> nat {
        self.rows as nat
    }

    /// The number of columns of the grid, the fan-out of values.
    pub closed spec fn spec_cols(&self) -> nat {
        self.cols as nat
    }

    /// The hash provider of the map.
    pub closed spec fn spec_builder(&self) -> S {
        self.builder
    }

    /// The values related to key `k`.
    pub open spec fn values_of(&self, k: u64) -> Set<u64> {
        Set::new(|v: u64| self@.contains((k, v)))
    }

    /// The keys related to value `v`.
    pub open spec fn keys_of(&self, v: u64) -> Set<u64> {
        Set::new(|k: u64| self@.contains((k, v)))
    }

    closed spec fn cells(&self) -> Seq<Seq<Seq<(u64, u64)>>> {
        grid_cells(self.buckets)
    }

    /// The row in which the relations of key `k` are kept.
    pub closed spec fn key_row(&self, k: u64) -> int {
        (self.builder.spec_hash(k) % (self.rows as u64)) as int
    }

    /// The column in which the relations of value `v` are kept.
    pub closed spec fn val_col(&self, v: u64) -> int {
        (self.builder.spec_hash(v) % (self.cols as u64)) as int
    }

    /// The bucket in which relation `p` belongs.
    closed spec fn home(&self, p: (u64, u64)) -> Seq<(u64, u64)> {
        self.cells()[self.key_row(p.0)][self.val_col(p.1)]
    }

    /// The grid has the map's shape, no bucket holds a relation twice, and
    /// every relation lies in the bucket its key and value hash to.
    pub closed spec fn wf(&self) -> bool {
        &&& self.rows >= 1
        &&& self.cols >= 1
        &&& self.cells().len() == self.rows
        &&& forall|i: int| 0 <= i < self.rows ==> (#[trigger] self.cells()[i]).len() == self.cols
        &&& forall|i: int, j: int|
            0 <= i < self.rows && 0 <= j < self.cols ==> (#[trigger] self.cells()[i][j]).no_duplicates()
        &&& forall|i: int, j: int, n: int|
            0 <= i < self.rows && 0 <= j < self.cols && 0 <= n < self.cells()[i][j].len() ==> {
                &&& self.key_row((#[trigger] self.cells()[i][j][n]).0) == i
                &&& self.val_col(self.cells()[i][j][n].1) == j
            }
    }

    /// Creates a map with the given hash provider, whose grid has `keys`
    /// rows and `vals` columns. Fails when either is zero.
    pub fn with_hasher(keys: usize, vals: usize, builder: S) -> (r: Result<BiMultiMap<S>, MapError>)
        requires
            keys * vals <= isize::MAX,
        ensures
            r is Err <==> (keys == 0 || vals == 0),
            r matches Err(e) ==> e == MapError::InvalidCapacity,
            r matches Ok(m) ==> {
                &&& m.wf()
                &&& m@ == Set::<(u64, u64)>::empty()
                &&& m.spec_rows() == keys
                &&& m.spec_cols() == vals
                &&& m.spec_builder() == builder
            },
    {
        if keys == 0 || vals == 0 {
            return Err(MapError::InvalidCapacity);
        }
        let m = BiMultiMap { buckets: Grid::new(keys, vals), rows: keys, cols: vals, builder };
        assert(m@ =~= Set::<(u64, u64)>::empty());
        Ok(m)
    }

    /// Where relation `p` stands in `b`, if it does.
    fn position(b: &Vec<(u64, u64)>, p: (u64, u64)) -> (r: Option<usize>)
        ensures
            match r {
                Some(n) => n < b@.len() && b@[n as int] == p,
                None => !b@.contains(p),
            },
    {
        let mut n: usize = 0;
        while n < b.len()
            invariant
                n <= b@.len(),
                forall|m: int| 0 <= m < n ==> b@[m] != p,
            decreases b@.len() - n,
        {
            let q = b[n];
            if q.0 == p.0 && q.1 == p.1 {
                return Some(n);
            }
            n += 1;
        }
        None
    }

    /// Inserts the relation between `key` and `val`. Returns `true` if it
    /// was not there before, `false` if it was.
    pub fn insert(&mut self, key: u64, val: u64) -> (r: bool)
        requires
            old(self).wf(),
        ensures
            final(self).wf(),
            r == !old(self)@.contains((key, val)),
            final(self)@ == old(self)@.insert((key, val)),
            final(self).spec_rows() == old(self).spec_rows(),
            final(self).spec_cols() == old(self).spec_cols(),
            final(self).spec_builder() == old(self).spec_builder(),
    {
        let ghost pre = *self;
        let p = (key, val);
        let i = self.row_of(key);
        let j = self.col_of(val);
        let mut b = self.buckets.replace_bucket(i, j, Vec::new());
        let ghost ob = b@;
        assert(ob == pre.home(p));
        let added = match Self::position(&b, p) {
            Some(_) => false,
            None => {
                b.push(p);
                true
            },
        };
        let ghost nb = b@;
        let _ = self.buckets.replace_bucket(i, j, b);
        assert(self.cells() =~~= pre.cells().update(i as int, pre.cells()[i as int].update(j as int, nb)));
        assert forall|q: (u64, u64)| #[trigger] self@.contains(q) == pre@.insert(p).contains(q) by {
            if self.key_row(q.0) == i && self.val_col(q.1) == j {
                assert(self.home(q) == nb);
                if q != p {
                    if added {
                        assert(nb == ob.push(p));
                        if ob.contains(q) {
                            let k = choose|k: int| 0 <= k < ob.len() && ob[k] == q;
                            assert(nb[k] == q);
                        }
                        if nb.contains(q) {
                            let k = choose|k: int| 0 <= k < nb.len() && nb[k] == q;
                            assert(ob[k] == q);
                        }
                    }
                    assert(pre.home(q) == ob);
                } else {
                    if added {
                        assert(nb[nb.len() - 1] == p);
                    }
                }
            } else {
                assert(self.home(q) == pre.home(q));
            }
        }
        assert(self@ =~= pre@.insert(p));
        assert(self.wf()) by {
            assert forall|i2: int, j2: int|
                0 <= i2 < self.rows && 0 <= j2 < self.cols implies (#[trigger] self.cells()[i2][j2]).no_duplicates() by {
                if i2 == i && j2 == j && added {
                    assert(pre.cells()[i2][j2].no_duplicates());
                }
            }
            assert forall|i2: int, j2: int, n: int|
                0 <= i2 < self.rows && 0 <= j2 < self.cols && 0 <= n < self.cells()[i2][j2].len() implies {
                    &&& self.key_row((#[trigger] self.cells()[i2][j2][n]).0) == i2
                    &&& self.val_col(self.cells()[i2][j2][n].1) == j2
                } by {
                if i2 == i && j2 == j && added && n == nb.len() - 1 {
                    assert(self.cells()[i2][j2][n] == p);
                }
            }
        }
        added
    }

    /// Removes the relation `entry`. Returns `true` if it was there.
    pub fn remove(&mut self, entry: &(u64, u64)) -> (r: bool)
        requires
            old(self).wf(),
        ensures
            final(self).wf(),
            r == old(self)@.contains(*entry),
            final(self)@ == old(self)@.remove(*entry),
            final(self).spec_rows() == old(self).spec_rows(),
            final(self).spec_cols() == old(self).spec_cols(),
            final(self).spec_builder() == old(self).spec_builder(),
    {
        let ghost pre = *self;
        let p = *entry;
        let i = self.row_of(p.0);
        let j = self.col_of(p.1);
        let mut b = self.buckets.replace_bucket(i, j, Vec::new());
        let ghost ob = b@;
        assert(ob == pre.home(p));
        let removed = match Self::position(&b, p) {
            Some(n) => {
                b.remove(n);
                assert(!b@.contains(p)) by {
                    if b@.contains(p) {
                        let k = choose|k: int| 0 <= k < b@.len() && b@[k] == p;
                        if k < n {
                            assert(ob[k] == p);
                        } else {
                            assert(ob[k + 1] == p);
                        }
                    }
                }
                true
            },
            None => false,
        };
        let ghost nb = b@;
        let _ = self.buckets.replace_bucket(i, j, b);
        assert(self.cells() =~~= pre.cells().update(i as int, pre.cells()[i as int].update(j as int, nb)));
        assert(forall|q: (u64, u64)| nb.contains(q) ==> ob.contains(q));
        assert(forall|q: (u64, u64)| q != p && ob.contains(q) ==> nb.contains(q)) by {
            assert forall|q: (u64, u64)| q != p && ob.contains(q) implies nb.contains(q) by {
                let k = choose|k: int| 0 <= k < ob.len() && ob[k] == q;
                if removed {
                    let n = choose|n: int| 0 <= n < ob.len() && ob[n] == p && nb == ob.remove(n);
                    if k < n {
                        assert(nb[k] == q);
                    } else {
                        assert(nb[k - 1] == q);
                    }
                }
            }
        }
        assert forall|q: (u64, u64)| #[trigger] self@.contains(q) == pre@.remove(p).contains(q) by {
            if self.key_row(q.0) == i && self.val_col(q.1) == j {
                assert(self.home(q) == nb);
                assert(pre.home(q) == ob);
            } else {
                assert(self.home(q) == pre.home(q));
            }
        }
        assert(self@ =~= pre@.remove(p));
        assert(self.wf()) by {
            assert forall|i2: int, j2: int|
                0 <= i2 < self.rows && 0 <= j2 < self.cols implies (#[trigger] self.cells()[i2][j2]).no_duplicates() by {
                if i2 == i && j2 == j && removed {
                    assert forall|a: int, c: int| 0 <= a < nb.len() && 0 <= c < nb.len() && a != c implies nb[a] != nb[c] by {
                        let n = choose|n: int| 0 <= n < ob.len() && ob[n] == p && nb == ob.remove(n);
                        let a2 = if a < n { a } else { a + 1 };
                        let c2 = if c < n { c } else { c + 1 };
                        assert(nb[a] == ob[a2]);
                        assert(nb[c] == ob[c2]);
                    }
                }
            }
            assert forall|i2: int, j2: int, n2: int|
                0 <= i2 < self.rows && 0 <= j2 < self.cols && 0 <= n2 < self.cells()[i2][j2].len() implies {
                    &&& self.key_row((#[trigger] self.cells()[i2][j2][n2]).0) == i2
                    &&& self.val_col(self.cells()[i2][j2][n2].1) == j2
                } by {
                if i2 == i && j2 == j {
                    assert(ob.contains(nb[n2]));
                }
            }
        }
        removed
    }

    /// The values related to `key`, each once, in no particular order. The
    /// scan reads the buckets of one row.
    pub fn key_iter(&self, key: u64) -> (r: Vec<u64>)
        requires
            self.wf(),
        ensures
            r@.no_duplicates(),
            forall|v: u64| #[trigger] r@.contains(v) <==> self@.contains((key, v)),
            r@.to_set() == self.values_of(key),
            r@.len() == self.values_of(key).len(),
    {
        let i = self.row_of(key);
        let mut out: Vec<u64> = Vec::new();
        let mut j: usize = 0;
        while j < self.cols
            invariant
                self.wf(),
                i == self.key_row(key),
                j <= self.cols,
                out@.no_duplicates(),
                forall|v: u64| #[trigger] out@.contains(v) <==> (self@.contains((key, v)) && self.val_col(v) < j),
            decreases self.cols - j,
        {
            let b = self.buckets.bucket(i, j);
            let mut n: usize = 0;
            while n < b.len()
                invariant
                    self.wf(),
                    i == self.key_row(key),
                    j < self.cols,
                    b@ == self.cells()[i as int][j as int],
                    n <= b@.len(),
                    out@.no_duplicates(),
                    forall|v: u64| #[trigger] out@.contains(v) <==> (self@.contains((key, v)) && (
                        self.val_col(v) < j || (self.val_col(v) == j && b@.subrange(0, n as int).contains((key, v))))),
                decreases b@.len() - n,
            {
                let q = b[n];
                let ghost prev = out@;
                assert(self.key_row(q.0) == i && self.val_col(q.1) == j);
                assert(b@.subrange(0, n + 1) == b@.subrange(0, n as int).push(q));
                if q.0 == key {
                    assert(!out@.contains(q.1)) by {
                        if b@.subrange(0, n as int).contains((key, q.1)) {
                            let k = choose|k: int| 0 <= k < n && b@.subrange(0, n as int)[k] == (key, q.1);
                            assert(b@[k] == b@[n as int]);
                        }
                    }
                    assert(self.home(q) == b@);
                    out.push(q.1);
                }
                assert(out@ == prev || (q.0 == key && out@ == prev.push(q.1)));
                n += 1;
            }
            assert(b@.subrange(0, b@.len() as int) == b@);
            assert forall|v: u64| self.val_col(v) == j implies (#[trigger] self@.contains((key, v))) == b@.contains((key, v)) by {
                assert(self.home((key, v)) == b@);
            }
            j += 1;
        }
        proof {
            assert(out@.to_set() =~= self.values_of(key));
            out@.unique_seq_to_set();
        }
        out
    }

    /// The keys related to `val`, each once, in no particular order. The
    /// scan reads the buckets of one column, striding across the rows.
    pub fn val_iter(&self, val: u64) -> (r: Vec<u64>)
        requires
            self.wf(),
        ensures
            r@.no_duplicates(),
            forall|k: u64| #[trigger] r@.contains(k) <==> self@.contains((k, val)),
            r@.to_set() == self.keys_of(val),
            r@.len() == self.keys_of(val).len(),
    {
        let j = self.col_of(val);
        let mut out: Vec<u64> = Vec::new();
        let mut i: usize = 0;
        while i < self.rows
            invariant
                self.wf(),
                j == self.val_col(val),
                i <= self.rows,
                out@.no_duplicates(),
                forall|k: u64| #[trigger] out@.contains(k) <==> (self@.contains((k, val)) && self.key_row(k) < i),
            decreases self.rows - i,
        {
            let b = self.buckets.bucket(i, j);
            let mut n: usize = 0;
            while n < b.len()
                invariant
                    self.wf(),
                    j == self.val_col(val),
                    i < self.rows,
                    b@ == self.cells()[i as int][j as int],
                    n <= b@.len(),
                    out@.no_duplicates(),
                    forall|k: u64| #[trigger] out@.contains(k) <==> (self@.contains((k, val)) && (
                        self.key_row(k) < i || (self.key_row(k) == i && b@.subrange(0, n as int).contains((k, val))))),
                decreases b@.len() - n,
            {
                let q = b[n];
                let ghost prev = out@;
                assert(self.key_row(q.0) == i && self.val_col(q.1) == j);
                assert(b@.subrange(0, n + 1) == b@.subrange(0, n as int).push(q));
                if q.1 == val {
                    assert(!out@.contains(q.0)) by {
                        if b@.subrange(0, n as int).contains((q.0, val)) {
                            let k = choose|k: int| 0 <= k < n && b@.subrange(0, n as int)[k] == (q.0, val);
                            assert(b@[k] == b@[n as int]);
                        }
                    }
                    assert(self.home(q) == b@);
                    out.push(q.0);
                }
                assert(out@ == prev || (q.1 == val && out@ == prev.push(q.0)));
                n += 1;
            }
            assert(b@.subrange(0, b@.len() as int) == b@);
            assert forall|k: u64| self.key_row(k) == i implies (#[trigger] self@.contains((k, val))) == b@.contains((k, val)) by {
                assert(self.home((k, val)) == b@);
            }
            i += 1;
        }
        proof {
            assert(out@.to_set() =~= self.keys_of(val));
            out@.unique_seq_to_set();
        }
        out
    }

    /// Whether a row-major scan that stands at row `i`, column `j` has
    /// passed the bucket of `p`.
    closed spec fn scanned(&self, p: (u64, u64), i: int, j: int) -> bool {
        self.key_row(p.0) < i || (self.key_row(p.0) == i && self.val_col(p.1) < j)
    }

    /// Every relation in the map, each once, bucket by bucket in row-major
    /// order.
    pub fn iter(&self) -> (r: Vec<(u64, u64)>)
        requires
            self.wf(),
        ensures
            r@.no_duplicates(),
            forall|p: (u64, u64)| #[trigger] r@.contains(p) <==> self@.contains(p),
            r@.to_set() == self@,
            r@.len() == self@.len(),
    {
        let mut out: Vec<(u64, u64)> = Vec::new();
        let mut i: usize = 0;
        while i < self.rows
            invariant
                self.wf(),
                i <= self.rows,
                out@.no_duplicates(),
                forall|p: (u64, u64)| #[trigger] out@.contains(p) <==> (self@.contains(p) && self.key_row(p.0) < i),
            decreases self.rows - i,
        {
            let mut j: usize = 0;
            while j < self.cols
                invariant
                    self.wf(),
                    i < self.rows,
                    j <= self.cols,
                    out@.no_duplicates(),
                    forall|p: (u64, u64)| #[trigger] out@.contains(p) <==> (self@.contains(p) && self.scanned(p, i as int, j as int)),
                decreases self.cols - j,
            {
                let b = self.buckets.bucket(i, j);
                let mut n: usize = 0;
                while n < b.len()
                    invariant
                        self.wf(),
                        i < self.rows,
                        j < self.cols,
                        b@ == self.cells()[i as int][j as int],
                        n <= b@.len(),
                        out@.no_duplicates(),
                        forall|p: (u64, u64)| #[trigger] out@.contains(p) <==> (self@.contains(p) && (
                            self.scanned(p, i as int, j as int) || b@.subrange(0, n as int).contains(p))),
                    decreases b@.len() - n,
                {
                    let q = b[n];
                    assert(self.key_row(q.0) == i && self.val_col(q.1) == j);
                    assert(b@.subrange(0, n + 1) == b@.subrange(0, n as int).push(q));
                    assert(!out@.contains(q)) by {
                        if b@.subrange(0, n as int).contains(q) {
                            let k = choose|k: int| 0 <= k < n && b@.subrange(0, n as int)[k] == q;
                            assert(b@[k] == b@[n as int]);
                        }
                    }
                    assert(self.home(q) == b@);
                    assert forall|p: (u64, u64)| b@.subrange(0, n as int).contains(p) implies self.key_row(p.0) == i
                        && self.val_col(p.1) == j by {
                        let k = choose|k: int| 0 <= k < n && b@.subrange(0, n as int)[k] == p;
                        assert(b@[k] == p);
                    }
                    out.push(q);
                    n += 1;
                }
                assert(b@.subrange(0, b@.len() as int) == b@);
                assert forall|p: (u64, u64)| b@.contains(p) implies self.key_row(p.0) == i && self.val_col(p.1) == j by {
                    let k = choose|k: int| 0 <= k < b@.len() && b@[k] == p;
                }
                assert forall|p: (u64, u64)| self.key_row(p.0) == i && self.val_col(p.1) == j implies (#[trigger] self@.contains(p)) == b@.contains(p) by {
                    assert(self.home(p) == b@);
                }
                j += 1;
            }
            i += 1;
        }
        proof {
            assert(out@.to_set() =~= self@);
            out@.unique_seq_to_set();
        }
        out
    }

    /// Every relation lies in a bucket of the grid, so a map holds finitely
    /// many relations.
    pub proof fn lemma_finite(&self)
        requires
            self.wf(),
        ensures
            self@.finite(),
    {
        let rows = self.cells().map_values(|r: Seq<Seq<(u64, u64)>>| r.flatten());
        let all = rows.flatten();
        assert forall|p: (u64, u64)| self@.contains(p) implies all.to_set().contains(p) by {
            let i = self.key_row(p.0);
            let j = self.val_col(p.1);
            lemma_flatten_contains(self.cells()[i], j, p);
            lemma_flatten_contains(rows, i, p);
        }
        assert(self@.subset_of(all.to_set()));
        vstd::seq_lib::seq_to_set_is_finite(all);
        vstd::set_lib::lemma_set_subset_finite(all.to_set(), self@);
    }

    /// Inserting an absent relation twice: the first insert adds it, so the
    /// second finds it and changes nothing, and the map has grown by one.
    pub proof fn law_insert_twice(&self, k: u64, v: u64)
        requires
            self.wf(),
            !self@.contains((k, v)),
        ensures
            self@.insert((k, v)).contains((k, v)),
            self@.insert((k, v)).insert((k, v)) == self@.insert((k, v)),
            self@.insert((k, v)).len() == self@.len() + 1,
    {
        self.lemma_finite();
        assert(self@.insert((k, v)).insert((k, v)) =~= self@.insert((k, v)));
    }

    /// Inserting an absent relation and then removing it: both report a
    /// change, and the map holds what it held before.
    pub proof fn law_insert_remove(&self, k: u64, v: u64)
        requires
            self.wf(),
            !self@.contains((k, v)),
        ensures
            self@.insert((k, v)).contains((k, v)),
            self@.insert((k, v)).remove((k, v)) == self@,
    {
        assert(self@.insert((k, v)).remove((k, v)) =~= self@);
    }

    /// A relation is seen from both sides or from neither: `v` is among the
    /// values of `k` exactly when `k` is among the keys of `v`, exactly when
    /// the map holds `(k, v)`.
    pub proof fn law_bidirectional(&self, k: u64, v: u64)
        ensures
            self.values_of(k).contains(v) <==> self@.contains((k, v)),
            self.keys_of(v).contains(k) <==> self@.contains((k, v)),
    {
    }

    /// The row of key `key`.
    fn row_of(&self, key: u64) -> (r: usize)
        requires
            self.wf(),
        ensures
            r == self.key_row(key),
            r < self.rows,
    {
        let h = self.builder.hash(key);
        (h % (self.rows as u64)) as usize
    }

    /// The column of value `val`.
    fn col_of(&self, val: u64) -> (r: usize)
        requires
            self.wf(),
        ensures
            r == self.val_col(val),
            r < self.cols,
    {
        let h = self.builder.hash(val);
        (h % (self.cols as u64)) as usize
    }
}

impl BiMultiMap<StdHashProvider> {
    /// Creates a map with the default hash provider, whose grid has `keys`
    /// rows and `vals` columns. Fails when either is zero.
    pub fn new(keys: usize, vals: usize) -> (r: Result<BiMultiMap<StdHashProvider>, MapError>)
        requires
            keys * vals <= isize::MAX,
        ensures
            r is Err <==> (keys == 0 || vals == 0),
            r matches Err(e) ==> e == MapError::InvalidCapacity,
            r matches Ok(m) ==> {
                &&& m.wf()
                &&& m@ == Set::<(u64, u64)>::empty()
                &&& m.spec_rows() == keys
                &&& m.spec_cols() == vals
            },
    {
        BiMultiMap::with_hasher(keys, vals, StdHashProvider)
    }
}

} // verus!
