//! The cache as a mathematical map, and the sums taken over it.

use vstd::prelude::*;
use crate::frecency::{aged, bumped, FRECENCY_ONE};

verus! {

/// One entry of the cache as plain data.
pub struct EntryView<V> {
    /// What the value costs.
    pub weight: nat,
    /// The frecency score, in units of which [`FRECENCY_ONE`] make one use.
    pub frecency: nat,
    /// The cached value.
    pub value: V,
}

/// The entry that a first insertion creates.
pub open spec fn fresh<V>(value: V, weight: nat) -> EntryView<V> {
    EntryView { weight, frecency: FRECENCY_ONE as nat, value }
}

/// The entry after a read: one more use, nothing else changed.
pub open spec fn touched<V>(e: EntryView<V>) -> EntryView<V> {
    EntryView { weight: e.weight, frecency: bumped(e.frecency), value: e.value }
}

/// The entry after an overwrite: one more use, and a new value and weight.
pub open spec fn overwritten<V>(e: EntryView<V>, value: V, weight: nat) -> EntryView<V> {
    EntryView { weight, frecency: bumped(e.frecency), value }
}

/// The entry after one eviction pass that it survived.
pub open spec fn decayed<V>(e: EntryView<V>) -> EntryView<V> {
    EntryView { weight: e.weight, frecency: aged(e.frecency), value: e.value }
}

/// Every entry of `m` after one eviction pass.
pub open spec fn decay_all<V>(m: Map<u64, EntryView<V>>) -> Map<u64, EntryView<V>> {
    Map::new(|k: u64| m.contains_key(k), |k: u64| decayed(m[k]))
}

/// The sum of the weights of all entries of `m`.
pub closed spec fn total_weight<V>(m: Map<u64, EntryView<V>>) -> nat
    decreases m.len(),
{
    if m.dom().finite() && m.len() > 0 {
        let k = m.dom().choose();
        m[k].weight + total_weight(m.remove(k))
    } else {
        0
    }
}

/// An empty map weighs nothing.
pub proof fn lemma_total_weight_empty<V>()
    ensures
        total_weight(Map::<u64, EntryView<V>>::empty()) == 0,
{
    assert(Map::<u64, EntryView<V>>::empty().len() == 0);
}

/// A map that weighs something holds an entry.
pub proof fn lemma_total_weight_positive<V>(m: Map<u64, EntryView<V>>)
    requires
        total_weight(m) > 0,
    ensures
        m.dom().finite(),
        m.len() > 0,
        exists|k: u64| m.contains_key(k),
{
    assert(m.contains_key(m.dom().choose()));
}

/// The total splits into any one entry and the rest.
pub proof fn lemma_total_weight_remove<V>(m: Map<u64, EntryView<V>>, key: u64)
    requires
        m.dom().finite(),
        m.contains_key(key),
    ensures
        total_weight(m) == m[key].weight + total_weight(m.remove(key)),
    decreases m.len(),
{
    let c = m.dom().choose();
    assert(m.len() > 0);
    if c != key {
        lemma_total_weight_remove(m.remove(c), key);
        lemma_total_weight_remove(m.remove(key), c);
        assert(m.remove(c).remove(key) =~= m.remove(key).remove(c));
    }
}

/// Inserting or replacing an entry exchanges its weight for the new one.
pub proof fn lemma_total_weight_insert<V>(m: Map<u64, EntryView<V>>, key: u64, e: EntryView<V>)
    requires
        m.dom().finite(),
    ensures
        total_weight(m.insert(key, e)) == total_weight(m) + e.weight - (if m.contains_key(key) {
            m[key].weight
        } else {
            0
        }),
{
    let after = m.insert(key, e);
    lemma_total_weight_remove(after, key);
    assert(after.remove(key) =~= m.remove(key));
    if m.contains_key(key) {
        lemma_total_weight_remove(m, key);
    } else {
        assert(m.remove(key) =~= m);
    }
}

/// The total is at most the number of entries times the largest weight.
pub proof fn lemma_total_weight_bound<V>(m: Map<u64, EntryView<V>>, bound: nat)
    requires
        m.dom().finite(),
        forall|k: u64| m.contains_key(k) ==> (#[trigger] m[k]).weight <= bound,
    ensures
        total_weight(m) <= m.len() * bound,
    decreases m.len(),
{
    if m.len() > 0 {
        let c = m.dom().choose();
        lemma_total_weight_bound(m.remove(c), bound);
        assert(m.len() * bound == (m.len() - 1) * bound + bound) by (nonlinear_arith);
    }
}

/// Ageing changes no weight, so it changes no total.
pub proof fn lemma_total_weight_decay<V>(m: Map<u64, EntryView<V>>)
    requires
        m.dom().finite(),
    ensures
        total_weight(decay_all(m)) == total_weight(m),
    decreases m.len(),
{
    let d = decay_all(m);
    assert(d.dom() =~= m.dom());
    if m.len() > 0 {
        let c = m.dom().choose();
        lemma_total_weight_remove(m, c);
        lemma_total_weight_remove(d, c);
        assert(d.remove(c) =~= decay_all(m.remove(c)));
        lemma_total_weight_decay(m.remove(c));
    } else {
        assert(d.len() == 0);
    }
}

/// `m` after storing the pairs of `s` one after the other, a later pair
/// replacing an earlier entry under the same key.
pub open spec fn merged<V>(m: Map<u64, EntryView<V>>, s: Seq<(u64, EntryView<V>)>) -> Map<
    u64,
    EntryView<V>,
>
    decreases s.len(),
{
    if s.len() == 0 {
        m
    } else {
        merged(m, s.drop_last()).insert(s.last().0, s.last().1)
    }
}

/// The sum of the weights of the entries of `s`.
pub open spec fn pair_weights<V>(s: Seq<(u64, EntryView<V>)>) -> nat
    decreases s.len(),
{
    if s.len() == 0 {
        0
    } else {
        pair_weights(s.drop_last()) + s.last().1.weight
    }
}

/// Whether a pair of `s` stands under `key`.
pub open spec fn has_key<V>(s: Seq<(u64, EntryView<V>)>, key: u64) -> bool {
    exists|i: int| 0 <= i < s.len() && (#[trigger] s[i]).0 == key
}

/// Merging keeps the map finite and adds exactly the keys of the pairs.
pub proof fn lemma_merged_keys<V>(m: Map<u64, EntryView<V>>, s: Seq<(u64, EntryView<V>)>, key: u64)
    ensures
        m.dom().finite() ==> merged(m, s).dom().finite(),
        merged(m, s).contains_key(key) <==> m.contains_key(key) || has_key(s, key),
    decreases s.len(),
{
    if s.len() > 0 {
        let front = s.drop_last();
        lemma_merged_keys(m, front, key);
        if has_key(front, key) {
            let i = choose|i: int| 0 <= i < front.len() && (#[trigger] front[i]).0 == key;
            assert(s[i].0 == key);
        }
        if key == s.last().0 {
            assert(s[s.len() - 1].0 == key);
        }
        if has_key(s, key) {
            let i = choose|i: int| 0 <= i < s.len() && (#[trigger] s[i]).0 == key;
            if i < front.len() {
                assert(front[i].0 == key);
            }
        }
    }
}

/// Merging pairs under new, distinct keys adds the weight of each of them.
pub proof fn lemma_merged_weight<V>(m: Map<u64, EntryView<V>>, s: Seq<(u64, EntryView<V>)>)
    requires
        m.dom().finite(),
        forall|i: int| 0 <= i < s.len() ==> !m.contains_key((#[trigger] s[i]).0),
        forall|i: int, j: int| 0 <= i < j < s.len() ==> (#[trigger] s[i]).0 != (#[trigger] s[j]).0,
    ensures
        total_weight(merged(m, s)) == total_weight(m) + pair_weights(s),
    decreases s.len(),
{
    if s.len() > 0 {
        let front = s.drop_last();
        assert forall|i: int| 0 <= i < front.len() implies !m.contains_key((#[trigger] front[i]).0) by {
            assert(front[i] == s[i]);
        }
        assert forall|i: int, j: int| 0 <= i < j < front.len() implies (#[trigger] front[i]).0 != (
        #[trigger] front[j]).0 by {
            assert(front[i] == s[i]);
            assert(front[j] == s[j]);
        }
        lemma_merged_weight(m, front);
        lemma_merged_keys(m, front, s.last().0);
        let last = s.len() - 1;
        if merged(m, front).contains_key(s.last().0) {
            assert(!m.contains_key(s[last].0));
            let i = choose|i: int| 0 <= i < front.len() && (#[trigger] front[i]).0 == s.last().0;
            assert(front[i] == s[i]);
            assert(s[i].0 != s[last].0);
        }
        lemma_total_weight_insert(merged(m, front), s.last().0, s.last().1);
    }
}

} // verus!
