//! What an eviction pass removes, stated over the cache as a map.
//!
//! Entries are ranked by frecency, then by weight, then by key, all
//! ascending. A pass under pressure ages every entry and then removes the
//! lowest ranked entry again and again until the total weight has reached
//! the target.

use vstd::prelude::*;
use crate::frecency::target_weight;
use crate::model::{decay_all, decayed, lemma_total_weight_empty, lemma_total_weight_positive,
    total_weight, EntryView};

verus! {

/// Whether entry `a` under key `ka` is removed before entry `b` under `kb`.
pub open spec fn sheds_before<V>(a: EntryView<V>, ka: u64, b: EntryView<V>, kb: u64) -> bool {
    a.frecency < b.frecency || (a.frecency == b.frecency && (a.weight < b.weight || (a.weight
        == b.weight && ka < kb)))
}

/// Whether `key` holds the entry of `m` that is removed before all others.
pub open spec fn is_lowest<V>(m: Map<u64, EntryView<V>>, key: u64) -> bool {
    &&& m.contains_key(key)
    &&& forall|j: u64| m.contains_key(j) && j != key ==> sheds_before(m[key], key, #[trigger] m[j], j)
}

/// The key of the entry of `m` that is removed first.
pub open spec fn lowest<V>(m: Map<u64, EntryView<V>>) -> u64 {
    choose|k: u64| is_lowest(m, k)
}

/// `m` after removing lowest ranked entries until it weighs at most `target`.
pub open spec fn shed<V>(m: Map<u64, EntryView<V>>, target: nat) -> Map<u64, EntryView<V>>
    decreases m.len(),
{
    let k = lowest(m);
    if m.dom().finite() && total_weight(m) > target && m.contains_key(k) {
        shed(m.remove(k), target)
    } else {
        m
    }
}

/// The cache after an eviction pass with budget `max_weight`.
pub open spec fn evicted<V>(m: Map<u64, EntryView<V>>, max_weight: nat) -> Map<u64, EntryView<V>> {
    if total_weight(m) <= max_weight {
        m
    } else {
        shed(decay_all(m), target_weight(max_weight))
    }
}

/// The entries of `m` that are not removed before the one under `key`.
pub open spec fn from_rank<V>(m: Map<u64, EntryView<V>>, key: u64) -> Map<u64, EntryView<V>> {
    Map::new(
        |j: u64| m.contains_key(j) && (j == key || sheds_before(m[key], key, m[j], j)),
        |j: u64| m[j],
    )
}

/// The target lies under the budget, and a weight is within it exactly when
/// five times the weight is within four times the budget.
pub proof fn lemma_target_weight(weight: nat, max_weight: nat)
    ensures
        target_weight(max_weight) <= max_weight,
        weight <= target_weight(max_weight) <==> 5 * weight <= 4 * max_weight,
{
}

/// No two keys are both the lowest.
pub proof fn lemma_lowest_unique<V>(m: Map<u64, EntryView<V>>, a: u64, b: u64)
    requires
        is_lowest(m, a),
        is_lowest(m, b),
    ensures
        a == b,
{
    if a != b {
        assert(sheds_before(m[a], a, m[b], b));
        assert(sheds_before(m[b], b, m[a], a));
    }
}

/// A finite cache that holds an entry has a lowest one.
pub proof fn lemma_lowest_exists<V>(m: Map<u64, EntryView<V>>)
    requires
        m.dom().finite(),
        m.len() > 0,
    ensures
        is_lowest(m, lowest(m)),
    decreases m.len(),
{
    let c = m.dom().choose();
    let rest = m.remove(c);
    if rest.len() == 0 {
        assert forall|j: u64| m.contains_key(j) && j != c implies sheds_before(
            m[c],
            c,
            #[trigger] m[j],
            j,
        ) by {
            assert(rest.contains_key(j));
        }
        assert(is_lowest(m, c));
    } else {
        lemma_lowest_exists(rest);
        let l = lowest(rest);
        assert(rest[l] == m[l]);
        if sheds_before(m[c], c, m[l], l) {
            assert forall|j: u64| m.contains_key(j) && j != c implies sheds_before(
                m[c],
                c,
                #[trigger] m[j],
                j,
            ) by {
                if j != l {
                    assert(sheds_before(rest[l], l, rest[j], j));
                }
            }
            assert(is_lowest(m, c));
        } else {
            assert forall|j: u64| m.contains_key(j) && j != l implies sheds_before(
                m[l],
                l,
                #[trigger] m[j],
                j,
            ) by {
                if j != c {
                    assert(sheds_before(rest[l], l, rest[j], j));
                }
            }
            assert(is_lowest(m, l));
        }
    }
}

/// A cache within the target loses nothing.
pub proof fn lemma_shed_within_target<V>(m: Map<u64, EntryView<V>>, target: nat)
    requires
        total_weight(m) <= target,
    ensures
        shed(m, target) == m,
{
}

/// Every entry that is left was there before, unchanged.
pub proof fn lemma_shed_keeps<V>(m: Map<u64, EntryView<V>>, target: nat)
    ensures
        shed(m, target).submap_of(m),
        m.dom().finite() ==> shed(m, target).dom().finite(),
    decreases m.len(),
{
    let k = lowest(m);
    if m.dom().finite() && total_weight(m) > target && m.contains_key(k) {
        lemma_shed_keeps(m.remove(k), target);
    }
}

/// What is left weighs at most the target.
pub proof fn lemma_shed_reaches_target<V>(m: Map<u64, EntryView<V>>, target: nat)
    requires
        m.dom().finite(),
    ensures
        total_weight(shed(m, target)) <= target,
    decreases m.len(),
{
    if total_weight(m) > target {
        lemma_total_weight_positive(m);
        lemma_lowest_exists(m);
        lemma_shed_reaches_target(m.remove(lowest(m)), target);
    }
}

/// Whatever is removed ranks before whatever is left.
pub proof fn lemma_shed_lowest_first<V>(m: Map<u64, EntryView<V>>, target: nat, gone: u64, left: u64)
    requires
        m.dom().finite(),
        m.contains_key(gone),
        !shed(m, target).contains_key(gone),
        shed(m, target).contains_key(left),
    ensures
        m.contains_key(left),
        sheds_before(m[gone], gone, m[left], left),
    decreases m.len(),
{
    let k = lowest(m);
    lemma_shed_keeps(m, target);
    if total_weight(m) > target {
        lemma_total_weight_positive(m);
        lemma_lowest_exists(m);
        lemma_shed_keeps(m.remove(k), target);
        assert(m.remove(k).contains_key(left));
        if gone != k {
            lemma_shed_lowest_first(m.remove(k), target, gone, left);
        }
    }
}

/// Nothing is removed without need: when an entry was removed, it and all
/// that rank after it together weighed more than the target.
pub proof fn lemma_shed_only_under_pressure<V>(m: Map<u64, EntryView<V>>, target: nat, gone: u64)
    requires
        m.dom().finite(),
        m.contains_key(gone),
        !shed(m, target).contains_key(gone),
    ensures
        total_weight(from_rank(m, gone)) > target,
    decreases m.len(),
{
    let k = lowest(m);
    if total_weight(m) > target {
        lemma_total_weight_positive(m);
        lemma_lowest_exists(m);
        if gone == k {
            assert(from_rank(m, gone) =~= m);
        } else {
            lemma_shed_only_under_pressure(m.remove(k), target, gone);
            assert(sheds_before(m[k], k, m[gone], gone));
            assert(from_rank(m.remove(k), gone) =~= from_rank(m, gone));
        }
    }
}

/// An eviction pass on a cache within its budget changes nothing.
pub proof fn lemma_evicted_within_budget<V>(m: Map<u64, EntryView<V>>, max_weight: nat)
    requires
        total_weight(m) <= max_weight,
    ensures
        evicted(m, max_weight) == m,
{
}

/// An eviction pass on an empty cache changes nothing, whatever the budget.
pub proof fn lemma_evicted_empty<V>(max_weight: nat)
    ensures
        evicted(Map::<u64, EntryView<V>>::empty(), max_weight) == Map::<u64, EntryView<V>>::empty(),
{
    lemma_total_weight_empty::<V>();
}

/// An eviction pass on a cache over its budget leaves at most four fifths of
/// the budget, and every entry that it leaves is the old one, aged once.
pub proof fn lemma_evicted_over_budget<V>(m: Map<u64, EntryView<V>>, max_weight: nat)
    requires
        m.dom().finite(),
        total_weight(m) > max_weight,
    ensures
        evicted(m, max_weight).dom().finite(),
        total_weight(evicted(m, max_weight)) <= target_weight(max_weight),
        5 * total_weight(evicted(m, max_weight)) <= 4 * max_weight,
        forall|k: u64| #[trigger]
            evicted(m, max_weight).contains_key(k) ==> m.contains_key(k) && evicted(
                m,
                max_weight,
            )[k] == decayed(m[k]),
{
    let d = decay_all(m);
    let t = target_weight(max_weight);
    assert(d.dom() =~= m.dom());
    lemma_shed_keeps(d, t);
    lemma_shed_reaches_target(d, t);
    lemma_target_weight(total_weight(shed(d, t)), max_weight);
    assert forall|k: u64| #[trigger] shed(d, t).contains_key(k) implies m.contains_key(k) && shed(
        d,
        t,
    )[k] == decayed(m[k]) by {
        assert(d.contains_key(k));
    }
}

/// An eviction pass never removes an entry while one that ranks before it
/// stays: whatever goes has, after ageing, at most the frecency of whatever
/// stays.
pub proof fn lemma_evicted_least_frecency_first<V>(
    m: Map<u64, EntryView<V>>,
    max_weight: nat,
    gone: u64,
    left: u64,
)
    requires
        m.dom().finite(),
        m.contains_key(gone),
        !evicted(m, max_weight).contains_key(gone),
        evicted(m, max_weight).contains_key(left),
    ensures
        m.contains_key(left),
        sheds_before(decayed(m[gone]), gone, decayed(m[left]), left),
        decayed(m[gone]).frecency <= decayed(m[left]).frecency,
        m[gone].frecency < m[left].frecency + 2,
{
    let d = decay_all(m);
    let t = target_weight(max_weight);
    assert(d.dom() =~= m.dom());
    assert(total_weight(m) > max_weight);
    assert(d.contains_key(gone));
    lemma_shed_lowest_first(d, t, gone, left);
}

} // verus!
