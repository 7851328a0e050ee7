//! A weight-aware cache that sheds its least valuable entries on demand.
//!
//! Every entry carries a weight and a frecency score. Reads and overwrites
//! raise the score, every eviction pass under pressure lowers it, and such a
//! pass removes entries by ascending score until the total weight is back
//! under four fifths of the budget it was given.
//!
//! Keys are `u64`. Scores are whole numbers of millionths, so that every
//! comparison and every step of ageing is exact and repeatable. The total
//! weight is kept in a `u128`, which no number of `u64` weights can overflow.
//!
//! * [`cache`] holds the cache and its operations.
//! * [`model`] describes a cache as a map of plain entries and defines its
//!   total weight.
//! * [`eviction`] defines what an eviction pass removes and proves what
//!   follows from that.
//! * [`frecency`] holds the arithmetic of scores and budgets.
//! * [`weight`] holds the trait by which a value reports its cost.

pub mod cache;
pub mod eviction;
pub mod frecency;
pub mod model;
mod order;
pub mod weight;

pub use cache::{CacheEntry, FrecencyCache};
pub use weight::CacheWeight;
