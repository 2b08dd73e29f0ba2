//! A bound over the first component of a pair.
use vstd::prelude::*;

verus! {

/// Holds a bound `B` over keys. It only holds the bound: nothing in the
/// library reads it or queries a map by it.
pub struct FstRange<B>(pub B);

} // verus!
