//! The order in which ranked entries come out, ascending.
//!
//! A rank is a triple of frecency, weight and key, and ranks compare as
//! tuples do: by the first component, then the second, then the third.

use std::collections::{BTreeMap, BTreeSet};
use vstd::prelude::*;
use vstd::std_specs::btree::increasing_seq;
use vstd::std_specs::cmp::OrdSpec;
use vstd::std_specs::iter::IteratorSpec;

verus! {

/// Whether rank `a` comes strictly before rank `b`.
pub(crate) open spec fn rank_lt(a: (u64, u64, u64), b: (u64, u64, u64)) -> bool {
    a.0 < b.0 || (a.0 == b.0 && (a.1 < b.1 || (a.1 == b.1 && a.2 < b.2)))
}

/// Whether each element of `s` comes strictly before all later ones.
pub(crate) open spec fn ascends(s: Seq<(u64, u64, u64)>) -> bool {
    forall|i: int, j: int| 0 <= i < j < s.len() ==> rank_lt(s[i], s[j])
}

/// Keys that a map hands out in increasing order are increasing numbers.
proof fn lemma_keys_increase(s: Seq<&u64>)
    requires
        increasing_seq(s),
    ensures
        forall|i: int, j: int| 0 <= i < j < s.len() ==> *s[i] < *s[j],
{
    broadcast use vstd::laws_cmp::group_laws_cmp;

    assert(vstd::laws_cmp::obeys_cmp::<&u64>());
    assert forall|i: int, j: int| 0 <= i < j < s.len() implies *s[i] < *s[j] by {
        assert(OrdSpec::cmp_spec(&s[i], &s[j]) is Less);
    }
}

/// Ranks that a set hands out in increasing order ascend.
proof fn lemma_ranks_increase(s: Seq<&(u64, u64, u64)>)
    requires
        increasing_seq(s),
    ensures
        forall|i: int, j: int| 0 <= i < j < s.len() ==> rank_lt(*s[i], *s[j]),
{
    broadcast use vstd::laws_cmp::group_laws_cmp;

    assert(vstd::laws_cmp::obeys_cmp::<u64>());
    assert(vstd::laws_cmp::obeys_cmp::<(u64, u64, u64)>());
    assert(vstd::laws_cmp::obeys_cmp::<&(u64, u64, u64)>());
    assert forall|i: int, j: int| 0 <= i < j < s.len() implies rank_lt(*s[i], *s[j]) by {
        assert(OrdSpec::cmp_spec(&s[i], &s[j]) is Less);
    }
}

/// The keys of `map`, each once, in increasing order.
pub(crate) fn keys_of<E>(map: &BTreeMap<u64, E>) -> (keys: Vec<u64>)
    ensures
        keys@.to_set() == map@.dom(),
        keys@.no_duplicates(),
        forall|i: int, j: int| 0 <= i < j < keys@.len() ==> keys@[i] < keys@[j],
{
    let mut keys: Vec<u64> = Vec::new();
    let ghost all: Seq<&u64> = map.keys().remaining();
    for key in it: map.keys()
        invariant
            it.seq() == all,
            keys@ == all.take(it.index()).unref(),
    {
        keys.push(*key);
    }
    proof {
        assert(all.take(all.len() as int) == all);
        assert(keys@ == all.unref());
        lemma_keys_increase(all);
    }
    keys
}

/// The ranks of `ranking`, each once, in ascending order.
pub(crate) fn ascending(ranking: &BTreeSet<(u64, u64, u64)>) -> (order: Vec<(u64, u64, u64)>)
    ensures
        order@.to_set() == ranking@,
        ascends(order@),
{
    let mut order: Vec<(u64, u64, u64)> = Vec::new();
    let ghost all: Seq<&(u64, u64, u64)> = ranking.iter().remaining();
    for rank in it: ranking.iter()
        invariant
            it.seq() == all,
            order@ == all.take(it.index()).unref(),
    {
        order.push(*rank);
    }
    proof {
        assert(all.take(all.len() as int) == all);
        assert(order@ == all.unref());
        lemma_ranks_increase(all);
    }
    order
}

} // verus!
