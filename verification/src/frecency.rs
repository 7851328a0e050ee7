//! Frecency scores in fixed point.
//!
//! A score is a count of millionths, so that one access is worth
//! [`FRECENCY_ONE`] units and ageing by four fifths stays exact for scores
//! that are whole multiples of five units.

use vstd::prelude::*;

verus! {

/// The score of an entry that has been used exactly once.
pub const FRECENCY_ONE: u64 = 1_000_000;

/// The score after one more use: one whole point more, held at the largest
/// representable score.
pub open spec fn bumped(score: nat) -> nat {
    if score + FRECENCY_ONE <= u64::MAX {
        (score + FRECENCY_ONE) as nat
    } else {
        u64::MAX as nat
    }
}

/// The score after one eviction pass: four fifths of it, rounded down.
pub open spec fn aged(score: nat) -> nat {
    (4 * score / 5) as nat
}

/// The weight an eviction pass aims for: four fifths of the budget, rounded
/// down.
pub open spec fn target_weight(max_weight: nat) -> nat {
    (4 * max_weight / 5) as nat
}

/// Raises a score by one use.
pub fn bump(score: u64) -> (r: u64)
    ensures
        r == bumped(score as nat),
{
    score.saturating_add(FRECENCY_ONE)
}

/// Ages a score by one eviction pass.
pub fn age(score: u64) -> (r: u64)
    ensures
        r == aged(score as nat),
{
    let whole: u64 = score / 5;
    let rest: u64 = score % 5;
    whole * 4 + rest * 4 / 5
}

/// Computes the weight an eviction pass with budget `max_weight` aims for.
pub fn target_for(max_weight: u64) -> (r: u64)
    ensures
        r == target_weight(max_weight as nat),
{
    let whole: u64 = max_weight / 5;
    let rest: u64 = max_weight % 5;
    whole * 4 + rest * 4 / 5
}

/// One use raises a score by exactly one point, unless that would pass the
/// largest score; it never lowers a score.
pub proof fn lemma_bumped(score: nat)
    ensures
        score + FRECENCY_ONE <= u64::MAX ==> bumped(score) == score + FRECENCY_ONE,
        score <= u64::MAX ==> score <= bumped(score) <= u64::MAX,
{
}

/// Ageing takes four fifths of a score, exactly where the score is a
/// multiple of five units and short by less than one unit elsewhere; it
/// never raises a score.
pub proof fn lemma_aged(score: nat)
    ensures
        5 * aged(score) <= 4 * score < 5 * aged(score) + 5,
        score % 5 == 0 ==> 5 * aged(score) == 4 * score,
        aged(score) <= score,
{
}

/// A score that was not lower before ageing is not lower after it.
pub proof fn lemma_aged_monotonic(a: nat, b: nat)
    requires
        a <= b,
    ensures
        aged(a) <= aged(b),
{
}

} // verus!
