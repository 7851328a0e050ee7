//! The cost that a cached value reports.

use vstd::prelude::*;

verus! {

/// A value that knows what it costs to keep.
///
/// The cost is a property of the value alone: `weight` returns the same
/// number, `spec_weight`, whenever it is asked.
pub trait CacheWeight {
    /// The cost of this value, as contracts speak of it.
    ///
    /// An implementation states the cost of its own values here. One that
    /// states nothing claims that they cost nothing, and its `weight` is
    /// held to that.
    open spec fn spec_weight(&self) -> u64 {
        0
    }

    /// Computes the cost of this value.
    fn weight(&self) -> (w: u64)
        ensures
            w == self.spec_weight(),
    ;
}

/// An absent value costs nothing; a present one costs what it holds.
impl<T: CacheWeight> CacheWeight for Option<T> {
    open spec fn spec_weight(&self) -> u64 {
        match self {
            Some(x) => x.spec_weight(),
            None => 0,
        }
    }

    fn weight(&self) -> (w: u64) {
        match self {
            Some(x) => x.weight(),
            None => 0,
        }
    }
}

} // verus!
