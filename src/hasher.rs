//! Hash providers: how keys and values are turned into 64-bit digests.
use vstd::prelude::*;

verus! {

/// A strategy for hashing keys and values. The digest of a value is fixed
/// for a given provider.
pub trait HashProvider {
    /// The digest that this provider gives `x`.
    spec fn spec_hash(&self, x: u64) -> u64;

    fn hash(&self, x: u64) -> (r: u64)
        ensures
            r == self.spec_hash(x),
    ;
}

/// The digest that std's `DefaultHasher` gives a `u64`.
pub uninterp spec fn default_hash_of(x: u64) -> u64;

/// Relies on `std::collections::hash_map::DefaultHasher`: every instance made
/// by `new` hashes alike, so the digest depends on `x` alone.
#[verifier::external_body]
fn default_hash(x: u64) -> (r: u64)
    ensures
        r == default_hash_of(x),
{
    let mut h = std::collections::hash_map::DefaultHasher::new();
    std::hash::Hash::hash(&x, &mut h);
    std::hash::Hasher::finish(&h)
}

/// The provider used by default: std's general-purpose hasher, built with
/// fixed keys. Its digests are not randomized: every instance, in every map,
/// gives a value the same digest.
#[derive(Clone, Copy, Debug, Default)]
pub struct StdHashProvider;

impl HashProvider for StdHashProvider {
    open spec fn spec_hash(&self, x: u64) -> u64 {
        default_hash_of(x)
    }

    fn hash(&self, x: u64) -> (r: u64) {
        default_hash(x)
    }
}

} // verus!
