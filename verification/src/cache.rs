//! The cache itself: a map from keys to weighted, scored entries, and the
//! running total of their weights.

use std::collections::{BTreeMap, BTreeSet};
use vstd::prelude::*;
use vstd::std_specs::iter::IteratorSpec;
use crate::eviction::{evicted, is_lowest, lemma_evicted_least_frecency_first,
    lemma_evicted_over_budget, lemma_lowest_exists, lemma_lowest_unique, shed, sheds_before};
use crate::frecency::{age, bump, target_for, target_weight, FRECENCY_ONE};
use crate::model::{decay_all, decayed, fresh, lemma_total_weight_bound, lemma_total_weight_decay,
    lemma_total_weight_empty, lemma_total_weight_insert, lemma_total_weight_positive,
    lemma_total_weight_remove, merged, overwritten, total_weight, touched, EntryView};
use crate::order::{ascending, ascends, keys_of, rank_lt};
use crate::weight::CacheWeight;

verus! {

/// One cached value with its weight and its frecency score.
#[derive(Debug)]
pub struct CacheEntry<V: CacheWeight> {
    weight: u64,
    frecency: u64,
    value: V,
}

impl<V: CacheWeight> View for CacheEntry<V> {
    type V = EntryView<V>;

    closed spec fn view(&self) -> EntryView<V> {
        EntryView { weight: self.weight as nat, frecency: self.frecency as nat, value: self.value }
    }
}

impl<V: CacheWeight> CacheEntry<V> {
    /// The stored weight is the weight of the stored value.
    #[verifier::type_invariant]
    spec fn weighed(&self) -> bool {
        self.weight == self.value.spec_weight()
    }

    /// The weight of the cached value.
    pub fn weight(&self) -> (w: u64)
        ensures
            w == self@.weight,
            w == self@.value.spec_weight(),
    {
        proof {
            use_type_invariant(self);
        }
        self.weight
    }

    /// The frecency score, in units of which `FRECENCY_ONE` make one use.
    pub fn frecency(&self) -> (f: u64)
        ensures
            f == self@.frecency,
    {
        self.frecency
    }

    /// The cached value.
    pub fn value(&self) -> (v: &V)
        ensures
            *v == self@.value,
    {
        &self.value
    }
}

/// The entries of a stored map as plain data.
spec fn views<V: CacheWeight>(m: Map<u64, CacheEntry<V>>) -> Map<u64, EntryView<V>> {
    Map::new(|k: u64| m.contains_key(k), |k: u64| m[k]@)
}

/// Keyed entries as plain data, in the order in which they stand.
pub open spec fn entry_views<V: CacheWeight>(s: Seq<(u64, CacheEntry<V>)>) -> Seq<
    (u64, EntryView<V>),
> {
    Seq::new(s.len(), |i: int| (s[i].0, s[i].1@))
}

/// Whether every stored weight is the weight of the value stored with it.
spec fn all_weighed<V: CacheWeight>(m: Map<u64, CacheEntry<V>>) -> bool {
    forall|k: u64| m.contains_key(k) ==> (#[trigger] m[k]).weight == m[k].value.spec_weight()
}

/// The total of a stored map fits the counter with room for one more weight.
proof fn lemma_total_fits<V: CacheWeight>(map: &BTreeMap<u64, CacheEntry<V>>)
    ensures
        views(map@).dom().finite(),
        total_weight(views(map@)) + u64::MAX <= u128::MAX,
{
    let m = views(map@);
    let bound = u64::MAX as nat;
    assert(m.dom() =~= map@.dom());
    assert(map.len() == map@.len());
    lemma_total_weight_bound(m, bound);
    assert(m.len() * bound <= bound * bound) by (nonlinear_arith)
        requires
            m.len() <= bound,
    ;
    assert(bound * bound + bound <= u128::MAX) by (nonlinear_arith)
        requires
            bound == 0xffff_ffff_ffff_ffff,
    ;
}

/// Whether `rank` is the rank of an entry of `m`: its frecency, its weight
/// and its key.
spec fn ranks<V>(m: Map<u64, EntryView<V>>, rank: (u64, u64, u64)) -> bool {
    &&& m.contains_key(rank.2)
    &&& m[rank.2].frecency == rank.0
    &&& m[rank.2].weight == rank.1
}

/// Ages every entry of `map` once and collects the ranks of the aged entries.
fn age_and_rank<V: CacheWeight>(map: &mut BTreeMap<u64, CacheEntry<V>>) -> (ranking: BTreeSet<
    (u64, u64, u64),
>)
    requires
        all_weighed(old(map)@),
    ensures
        views(final(map)@) == decay_all(views(old(map)@)),
        all_weighed(final(map)@),
        forall|rank: (u64, u64, u64)|
            ranking@.contains(rank) <==> ranks(views(final(map)@), rank),
{
    let keys = keys_of(map);
    let mut ranking: BTreeSet<(u64, u64, u64)> = BTreeSet::new();
    let ghost before = map@;
    let ghost done: Set<u64> = Set::empty();
    let mut i: usize = 0;
    while i < keys.len()
        invariant
            i <= keys.len(),
            keys@.to_set() == before.dom(),
            keys@.no_duplicates(),
            map@.dom() == before.dom(),
            all_weighed(map@),
            forall|j: int| 0 <= j < i ==> done.contains(#[trigger] keys@[j]),
            forall|j: int| i <= j < keys.len() ==> !done.contains(#[trigger] keys@[j]),
            forall|k: u64| done.contains(k) ==> before.contains_key(k),
            forall|k: u64| done.contains(k) ==> (#[trigger] map@[k])@ == decayed(before[k]@),
            forall|k: u64|
                before.contains_key(k) && !done.contains(k) ==> #[trigger] map@[k] == before[k],
            forall|rank: (u64, u64, u64)|
                ranking@.contains(rank) <==> done.contains(rank.2) && ranks(views(map@), rank),
        decreases keys.len() - i,
    {
        let key = keys[i];
        proof {
            assert(keys@.to_set().contains(keys@[i as int]));
        }
        let ghost stored = map@;
        let ghost ranked = ranking@;
        let entry = map.remove(&key).unwrap();
        proof {
            use_type_invariant(&entry);
        }
        let CacheEntry { weight, frecency, value } = entry;
        let aged_entry = CacheEntry { weight, frecency: age(frecency), value };
        ranking.insert((aged_entry.frecency, weight, key));
        map.insert(key, aged_entry);
        proof {
            done = done.insert(key);
            assert(map@.dom() =~= before.dom());
            assert forall|rank: (u64, u64, u64)|
                ranking@.contains(rank) <==> done.contains(rank.2) && ranks(
                    views(map@),
                    rank,
                ) by {
                if rank.2 != key {
                    assert(map@[rank.2] == stored[rank.2]);
                    assert(ranked.contains(rank) <==> ranks(views(stored), rank) && done.contains(
                        rank.2,
                    ));
                }
            }
        }
        i += 1;
    }
    proof {
        assert forall|k: u64| before.contains_key(k) implies done.contains(k) by {
            assert(keys@.to_set().contains(k));
            let j = choose|j: int| 0 <= j < keys@.len() && keys@[j] == k;
            assert(done.contains(keys@[j]));
        }
        assert(views(map@) =~= decay_all(views(before)));
    }
    ranking
}

/// Removes entries of `map` in the order of `order` until what is left
/// weighs at most `target`, and returns that weight.
fn shed_lowest<V: CacheWeight>(
    map: &mut BTreeMap<u64, CacheEntry<V>>,
    total: u128,
    order: &Vec<(u64, u64, u64)>,
    target: u64,
) -> (left: u128)
    requires
        total == total_weight(views(old(map)@)),
        all_weighed(old(map)@),
        ascends(order@),
        forall|rank: (u64, u64, u64)|
            order@.contains(rank) <==> ranks(views(old(map)@), rank),
    ensures
        views(final(map)@) == shed(views(old(map)@), target as nat),
        left == total_weight(views(final(map)@)),
        all_weighed(final(map)@),
{
    let ghost all = views(map@);
    let mut left = total;
    let mut i: usize = 0;
    proof {
        assert forall|j: int| 0 <= j < order@.len() implies ranks(all, #[trigger] order@[j]) by {
            assert(order@.contains(order@[j]));
        }
        assert forall|k: u64| #[trigger] all.contains_key(k) implies exists|j: int|
            0 <= j < order@.len() && (#[trigger] order@[j]).2 == k by {
            let rank = (map@[k].frecency, map@[k].weight, k);
            assert(ranks(all, rank));
            assert(order@.contains(rank));
            let j = choose|j: int| 0 <= j < order@.len() && order@[j] == rank;
            assert(order@[j].2 == k);
        }
    }
    while left > target as u128
        invariant
            i <= order@.len(),
            ascends(order@),
            all_weighed(map@),
            forall|j: int| 0 <= j < order@.len() ==> ranks(all, #[trigger] order@[j]),
            forall|j: int| i <= j < order@.len() ==> views(map@).contains_key((#[trigger] order@[j]).2),
            forall|k: u64| #[trigger]
                views(map@).contains_key(k) ==> all.contains_key(k) && views(map@)[k] == all[k]
                    && exists|j: int| i <= j < order@.len() && (#[trigger] order@[j]).2 == k,
            shed(all, target as nat) == shed(views(map@), target as nat),
            left == total_weight(views(map@)),
        decreases order@.len() - i,
    {
        let ghost current = views(map@);
        proof {
            lemma_total_fits(map);
            lemma_total_weight_positive(current);
            let some = choose|k: u64| current.contains_key(k);
            let at = choose|j: int| i <= j < order@.len() && (#[trigger] order@[j]).2 == some;
            assert(i <= at < order.len());
        }
        let key = order[i].2;
        proof {
            assert(current.contains_key(order@[i as int].2));
            assert forall|other: u64| current.contains_key(other) && other != key implies sheds_before(
                current[key],
                key,
                #[trigger] current[other],
                other,
            ) by {
                let j = choose|j: int| i <= j < order@.len() && (#[trigger] order@[j]).2 == other;
                assert(rank_lt(order@[i as int], order@[j]));
            }
            assert(is_lowest(current, key));
            lemma_lowest_exists(current);
            lemma_lowest_unique(current, key, crate::eviction::lowest(current));
            lemma_total_weight_remove(current, key);
        }
        let entry = map.remove(&key).unwrap();
        left = left - entry.weight as u128;
        proof {
            assert(views(map@) =~= current.remove(key));
            assert forall|j: int| i + 1 <= j < order@.len() implies views(map@).contains_key(
                (#[trigger] order@[j]).2,
            ) by {
                assert(rank_lt(order@[i as int], order@[j]));
            }
            assert forall|k: u64| #[trigger] views(map@).contains_key(k) implies all.contains_key(k)
                && views(map@)[k] == all[k] && exists|j: int|
                i + 1 <= j < order@.len() && (#[trigger] order@[j]).2 == k by {
                assert(current.contains_key(k));
                let j = choose|j: int| i <= j < order@.len() && (#[trigger] order@[j]).2 == k;
                assert(order@[j].2 == k);
            }
        }
        i += 1;
    }
    left
}

/// A cache that tracks the weight of what it holds and evicts by frecency.
///
/// Nothing is ever removed behind the caller's back: the total weight may
/// exceed any budget until `evict` is called with one.
#[derive(Debug)]
pub struct FrecencyCache<V: CacheWeight> {
    map: BTreeMap<u64, CacheEntry<V>>,
    total_weight: u128,
}

impl<V: CacheWeight> View for FrecencyCache<V> {
    type V = Map<u64, EntryView<V>>;

    closed spec fn view(&self) -> Map<u64, EntryView<V>> {
        views(self.map@)
    }
}

impl<V: CacheWeight> FrecencyCache<V> {
    /// The counter is the sum of the stored weights, and each stored weight
    /// is that of its value.
    #[verifier::type_invariant]
    spec fn consistent(&self) -> bool {
        &&& self.total_weight == total_weight(views(self.map@))
        &&& all_weighed(self.map@)
    }

    /// An empty cache.
    pub fn new() -> (cache: Self)
        ensures
            cache@ == Map::<u64, EntryView<V>>::empty(),
    {
        let map: BTreeMap<u64, CacheEntry<V>> = BTreeMap::new();
        proof {
            lemma_total_weight_empty::<V>();
            assert(views(map@) =~= Map::<u64, EntryView<V>>::empty());
        }
        FrecencyCache { map, total_weight: 0 }
    }

    /// Takes the map and the counter out, leaving an empty cache behind.
    fn take_parts(&mut self) -> (parts: (BTreeMap<u64, CacheEntry<V>>, u128))
        ensures
            views(parts.0@) == old(self)@,
            parts.1 == total_weight(old(self)@),
            all_weighed(parts.0@),
            old(self)@.dom().finite(),
    {
        proof {
            use_type_invariant(&*self);
            assert(views(self.map@).dom() =~= self.map@.dom());
        }
        let mut taken = FrecencyCache::new();
        std::mem::swap(self, &mut taken);
        let FrecencyCache { map, total_weight } = taken;
        (map, total_weight)
    }

    /// Stores `value` under `key`.
    ///
    /// A new key starts with the frecency of one use. An existing key gains
    /// one use and has its value and weight replaced.
    pub fn insert(&mut self, key: u64, value: V)
        ensures
            final(self)@ == old(self)@.insert(
                key,
                if old(self)@.contains_key(key) {
                    overwritten(old(self)@[key], value, value.spec_weight() as nat)
                } else {
                    fresh(value, value.spec_weight() as nat)
                },
            ),
            total_weight(final(self)@) == total_weight(old(self)@) + value.spec_weight() - (
            if old(self)@.contains_key(key) {
                old(self)@[key].weight
            } else {
                0
            }),
            old(self)@.contains_key(key) && old(self)@[key].frecency + FRECENCY_ONE <= u64::MAX
                ==> final(self)@[key].frecency == old(self)@[key].frecency + FRECENCY_ONE,
    {
        let weight = value.weight();
        let (mut map, mut total) = self.take_parts();
        let ghost before = views(map@);
        let previous = map.remove(&key);
        proof {
            assert(views(map@) =~= before.remove(key));
            lemma_total_fits(&map);
            if before.contains_key(key) {
                lemma_total_weight_remove(before, key);
            } else {
                assert(before.remove(key) =~= before);
            }
            lemma_total_weight_insert(before, key, if before.contains_key(key) {
                overwritten(before[key], value, weight as nat)
            } else {
                fresh(value, weight as nat)
            });
        }
        let frecency = match previous {
            Some(old_entry) => {
                total = total - old_entry.weight as u128;
                bump(old_entry.frecency)
            },
            None => FRECENCY_ONE,
        };
        total = total + weight as u128;
        map.insert(key, CacheEntry { weight, frecency, value });
        proof {
            assert(views(map@) =~= before.insert(
                key,
                if before.contains_key(key) {
                    overwritten(before[key], value, weight as nat)
                } else {
                    fresh(value, weight as nat)
                },
            ));
        }
        *self = FrecencyCache { map, total_weight: total };
    }

    /// Looks `key` up and counts the lookup as one use of its entry.
    pub fn get(&mut self, key: &u64) -> (found: Option<&V>)
        ensures
            final(self)@ == if old(self)@.contains_key(*key) {
                old(self)@.insert(*key, touched(old(self)@[*key]))
            } else {
                old(self)@
            },
            total_weight(final(self)@) == total_weight(old(self)@),
            old(self)@.contains_key(*key) && old(self)@[*key].frecency + FRECENCY_ONE <= u64::MAX
                ==> final(self)@[*key].frecency == old(self)@[*key].frecency + FRECENCY_ONE,
            match found {
                Some(value) => old(self)@.contains_key(*key) && *value == old(self)@[*key].value,
                None => !old(self)@.contains_key(*key),
            },
    {
        let (mut map, total) = self.take_parts();
        let ghost stored = map@;
        let ghost before = views(map@);
        match map.remove(key) {
            Some(entry) => {
                proof {
                    use_type_invariant(&entry);
                    lemma_total_fits(&map);
                    lemma_total_weight_insert(before, *key, touched(before[*key]));
                }
                let CacheEntry { weight, frecency, value } = entry;
                map.insert(*key, CacheEntry { weight, frecency: bump(frecency), value });
                proof {
                    assert(views(map@) =~= before.insert(*key, touched(before[*key])));
                }
            },
            None => {
                proof {
                    assert(map@ =~= stored);
                }
            },
        }
        *self = FrecencyCache { map, total_weight: total };
        match self.map.get(key) {
            Some(entry) => Some(&entry.value),
            None => None,
        }
    }

    /// Removes the entry under `key` and hands its value out.
    pub fn remove(&mut self, key: &u64) -> (removed: Option<V>)
        ensures
            final(self)@ == old(self)@.remove(*key),
            total_weight(final(self)@) == total_weight(old(self)@) - (if old(self)@.contains_key(
                *key,
            ) {
                old(self)@[*key].weight
            } else {
                0
            }),
            match removed {
                Some(value) => old(self)@.contains_key(*key) && value == old(self)@[*key].value,
                None => !old(self)@.contains_key(*key),
            },
    {
        let (mut map, total) = self.take_parts();
        let ghost stored = map@;
        let ghost before = views(map@);
        let previous = map.remove(key);
        proof {
            assert(views(map@) =~= before.remove(*key));
            lemma_total_fits(&map);
            if before.contains_key(*key) {
                lemma_total_weight_remove(before, *key);
            } else {
                assert(map@ =~= stored);
            }
        }
        match previous {
            Some(entry) => {
                *self = FrecencyCache { map, total_weight: total - entry.weight as u128 };
                Some(entry.value)
            },
            None => {
                *self = FrecencyCache { map, total_weight: total };
                None
            },
        }
    }

    /// Whether an entry is stored under `key`. Counts as no use.
    pub fn contains_key(&self, key: &u64) -> (present: bool)
        ensures
            present == self@.contains_key(*key),
    {
        self.map.contains_key(key)
    }

    /// Whether the cache holds no entry at all.
    pub fn is_empty(&self) -> (empty: bool)
        ensures
            empty <==> forall|k: u64| !self@.contains_key(k),
            empty <==> self@ == Map::<u64, EntryView<V>>::empty(),
    {
        proof {
            assert(self.map@.is_empty() <==> self@ =~= Map::<u64, EntryView<V>>::empty());
            if !self.map@.is_empty() {
                assert(self@.contains_key(choose|k: u64| self.map@.contains_key(k)));
            }
        }
        self.map.is_empty()
    }

    /// The number of entries.
    pub fn len(&self) -> (n: usize)
        ensures
            n == self@.len(),
            self@.dom().finite(),
    {
        proof {
            assert(self@.dom() =~= self.map@.dom());
        }
        self.map.len()
    }

    /// The sum of the weights of all stored values.
    pub fn total_weight(&self) -> (total: u128)
        ensures
            total == total_weight(self@),
            forall|k: u64| #[trigger]
                self@.contains_key(k) ==> self@[k].weight == self@[k].value.spec_weight(),
    {
        proof {
            use_type_invariant(self);
            assert forall|k: u64| #[trigger] self@.contains_key(k) implies self@[k].weight
                == self@[k].value.spec_weight() by {
                assert(self.map@.contains_key(k));
                assert(self.map@[k].weight == self.map@[k].value.spec_weight());
            }
        }
        self.total_weight
    }

    /// The entry under `key`, as it is stored. Counts as no use.
    pub fn peek(&self, key: &u64) -> (found: Option<&CacheEntry<V>>)
        ensures
            match found {
                Some(entry) => self@.contains_key(*key) && entry@ == self@[*key],
                None => !self@.contains_key(*key),
            },
    {
        self.map.get(key)
    }

    /// Restores the budget `max_weight`, if the cache is over it.
    ///
    /// A cache within the budget is left as it is. Otherwise every entry is
    /// aged once, and the entries are then removed by ascending frecency,
    /// ties by ascending weight and then by ascending key, until the total
    /// weight is at most four fifths of the budget.
    pub fn evict(&mut self, max_weight: u64)
        ensures
            final(self)@ == evicted(old(self)@, max_weight as nat),
            total_weight(old(self)@) <= max_weight ==> final(self)@ == old(self)@,
            total_weight(old(self)@) > max_weight ==> {
                &&& total_weight(final(self)@) <= target_weight(max_weight as nat)
                &&& 5 * total_weight(final(self)@) <= 4 * max_weight
                &&& forall|k: u64| #[trigger]
                    final(self)@.contains_key(k) ==> old(self)@.contains_key(k) && final(self)@[k]
                        == decayed(old(self)@[k])
                &&& forall|gone: u64, left: u64|
                    old(self)@.contains_key(gone) && !final(self)@.contains_key(gone)
                        && #[trigger] final(self)@.contains_key(left) ==> #[trigger] sheds_before(
                        decayed(old(self)@[gone]),
                        gone,
                        decayed(old(self)@[left]),
                        left,
                    )
            },
    {
        proof {
            use_type_invariant(&*self);
        }
        if self.total_weight <= max_weight as u128 {
            return ;
        }
        let (mut map, total) = self.take_parts();
        let ghost before = views(map@);
        let ranking = age_and_rank(&mut map);
        let order = ascending(&ranking);
        proof {
            assert forall|rank: (u64, u64, u64)| order@.contains(rank) <==> ranks(
                views(map@),
                rank,
            ) by {
                assert(order@.contains(rank) <==> order@.to_set().contains(rank));
            }
            lemma_total_weight_decay(before);
            lemma_evicted_over_budget(before, max_weight as nat);
            assert forall|gone: u64, left: u64|
                before.contains_key(gone) && !evicted(before, max_weight as nat).contains_key(gone)
                    && #[trigger] evicted(before, max_weight as nat).contains_key(
                    left,
                ) implies #[trigger] sheds_before(
                decayed(before[gone]),
                gone,
                decayed(before[left]),
                left,
            ) by {
                lemma_evicted_least_frecency_first(before, max_weight as nat, gone, left);
            }
        }
        let left = shed_lowest(&mut map, total, &order, target_for(max_weight));
        *self = FrecencyCache { map, total_weight: left };
    }

    /// Takes the cache apart into its keys and entries, by ascending key.
    pub fn into_entries(self) -> (entries: Vec<(u64, CacheEntry<V>)>)
        ensures
            entries@.len() == self@.len(),
            forall|i: int, j: int| 0 <= i < j < entries@.len() ==> entries@[i].0 < entries@[j].0,
            forall|i: int|
                0 <= i < entries@.len() ==> self@.contains_key((#[trigger] entries@[i]).0)
                    && self@[entries@[i].0] == entries@[i].1@,
            merged(Map::<u64, EntryView<V>>::empty(), entry_views(entries@)) == self@,
    {
        let FrecencyCache { mut map, total_weight: _ } = self;
        let ghost before = map@;
        let keys = keys_of(&map);
        let mut entries: Vec<(u64, CacheEntry<V>)> = Vec::new();
        let mut i: usize = 0;
        proof {
            keys@.unique_seq_to_set();
            assert(views(before).dom() =~= before.dom());
        }
        while i < keys.len()
            invariant
                i <= keys.len(),
                keys@.to_set() == before.dom(),
                forall|a: int, b: int| 0 <= a < b < keys@.len() ==> keys@[a] < keys@[b],
                entries@.len() == i,
                forall|j: int|
                    0 <= j < i ==> (#[trigger] entries@[j]).0 == keys@[j] && entries@[j].1
                        == before[keys@[j]],
                forall|j: int|
                    i <= j < keys.len() ==> map@.contains_key(#[trigger] keys@[j]) && map@[keys@[j]]
                        == before[keys@[j]],
                forall|k: u64|
                    merged(Map::<u64, EntryView<V>>::empty(), entry_views(entries@)).contains_key(k)
                        <==> exists|j: int| 0 <= j < i && #[trigger] keys@[j] == k,
                forall|k: u64| #[trigger]
                    merged(Map::<u64, EntryView<V>>::empty(), entry_views(entries@)).contains_key(k)
                        ==> merged(Map::<u64, EntryView<V>>::empty(), entry_views(entries@))[k]
                        == before[k]@,
            decreases keys.len() - i,
        {
            let key = keys[i];
            let ghost collected = entry_views(entries@);
            let entry = map.remove(&key).unwrap();
            entries.push((key, entry));
            proof {
                let now = entry_views(entries@);
                assert(now.drop_last() =~= collected);
                assert(now.last() == (key, before[key]@));
                let empty = Map::<u64, EntryView<V>>::empty();
                assert(merged(empty, now) == merged(empty, collected).insert(key, before[key]@));
                assert forall|k: u64|
                    merged(empty, now).contains_key(k) <==> exists|j: int|
                        0 <= j < i + 1 && #[trigger] keys@[j] == k by {
                    if merged(empty, collected).contains_key(k) {
                        let j = choose|j: int| 0 <= j < i && #[trigger] keys@[j] == k;
                        assert(0 <= j < i + 1 && keys@[j] == k);
                    }
                    if k == key {
                        assert(keys@[i as int] == k);
                    }
                }
            }
            i += 1;
        }
        proof {
            let result = merged(Map::<u64, EntryView<V>>::empty(), entry_views(entries@));
            assert forall|k: u64| result.contains_key(k) <==> before.contains_key(k) by {
                if before.contains_key(k) {
                    assert(keys@.to_set().contains(k));
                    let j = choose|j: int| 0 <= j < keys@.len() && keys@[j] == k;
                    assert(keys@[j] == k);
                }
                if result.contains_key(k) {
                    let j = choose|j: int| 0 <= j < i && #[trigger] keys@[j] == k;
                    assert(keys@.to_set().contains(keys@[j]));
                }
            }
            assert(result =~= views(before));
            assert forall|j: int| 0 <= j < entries@.len() implies views(before).contains_key(
                (#[trigger] entries@[j]).0,
            ) && views(before)[entries@[j].0] == entries@[j].1@ by {
                assert(keys@.to_set().contains(keys@[j]));
            }
        }
        entries
    }

    /// Stores each of `entries` as it is, one after the other: with its own
    /// frecency, in place of any entry already under its key, and with its
    /// weight counted in the total.
    pub fn extend(&mut self, entries: Vec<(u64, CacheEntry<V>)>)
        ensures
            final(self)@ == merged(old(self)@, entry_views(entries@)),
    {
        let (mut map, mut total) = self.take_parts();
        let ghost before = views(map@);
        let ghost incoming = entry_views(entries@);
        let ghost all = entries@;
        for pair in it: entries.into_iter()
            invariant
                it.seq() == all,
                incoming == entry_views(all),
                views(map@) == merged(before, incoming.take(it.index())),
                total == total_weight(views(map@)),
                all_weighed(map@),
        {
            let ghost current = views(map@);
            let ghost index = it.index();
            let (key, entry) = pair;
            proof {
                use_type_invariant(&entry);
                lemma_total_fits(&map);
                lemma_total_weight_insert(current, key, entry@);
                if current.contains_key(key) {
                    lemma_total_weight_remove(current, key);
                }
            }
            let weight = entry.weight;
            let replaced = map.insert(key, entry);
            proof {
                lemma_total_fits(&map);
                assert(views(map@) =~= current.insert(key, entry@));
                let taken = incoming.take(index + 1);
                assert(taken.drop_last() =~= incoming.take(index));
                assert(taken.last() == (key, entry@));
            }
            total = match replaced {
                Some(old_entry) => total - old_entry.weight as u128 + weight as u128,
                None => total + weight as u128,
            };
        }
        proof {
            assert(incoming.take(incoming.len() as int) =~= incoming);
        }
        *self = FrecencyCache { map, total_weight: total };
    }
}

/// A copy of an entry holds a copy of the value, weighed anew, with the same
/// frecency.
impl<V: CacheWeight + Clone> Clone for CacheEntry<V> {
    fn clone(&self) -> (copy: Self)
        ensures
            copy@.frecency == self@.frecency,
            cloned(self@.value, copy@.value),
            copy@.weight == copy@.value.spec_weight(),
    {
        let value = self.value.clone();
        let weight = value.weight();
        CacheEntry { weight, frecency: self.frecency, value }
    }
}

/// A copy of a cache holds a copy of each entry under the same key.
impl<V: CacheWeight + Clone> Clone for FrecencyCache<V> {
    fn clone(&self) -> (copy: Self)
        ensures
            copy@.dom() == self@.dom(),
            forall|k: u64| #[trigger]
                self@.contains_key(k) ==> copy@[k].frecency == self@[k].frecency && cloned(
                    self@[k].value,
                    copy@[k].value,
                ),
    {
        let keys = keys_of(&self.map);
        let mut map: BTreeMap<u64, CacheEntry<V>> = BTreeMap::new();
        let mut total: u128 = 0;
        let mut i: usize = 0;
        proof {
            lemma_total_weight_empty::<V>();
            assert(views(map@) =~= Map::<u64, EntryView<V>>::empty());
        }
        while i < keys.len()
            invariant
                i <= keys.len(),
                keys@.to_set() == self.map@.dom(),
                total == total_weight(views(map@)),
                all_weighed(map@),
                forall|k: u64|
                    map@.contains_key(k) <==> exists|j: int| 0 <= j < i && #[trigger] keys@[j] == k,
                forall|k: u64| #[trigger]
                    map@.contains_key(k) ==> map@[k]@.frecency == self.map@[k]@.frecency && cloned(
                        self.map@[k]@.value,
                        map@[k]@.value,
                    ),
            decreases keys.len() - i,
        {
            let key = keys[i];
            proof {
                assert(keys@.to_set().contains(keys@[i as int]));
            }
            let copy = self.map.get(&key).unwrap().clone();
            let ghost current = views(map@);
            let ghost stored = map@;
            proof {
                lemma_total_fits(&map);
                lemma_total_weight_insert(current, key, copy@);
                if current.contains_key(key) {
                    lemma_total_weight_remove(current, key);
                }
            }
            let weight = copy.weight;
            let replaced = map.insert(key, copy);
            total = match replaced {
                Some(old_entry) => total - old_entry.weight as u128 + weight as u128,
                None => total + weight as u128,
            };
            proof {
                assert(views(map@) =~= current.insert(key, copy@));
                assert forall|k: u64|
                    map@.contains_key(k) <==> exists|j: int|
                        0 <= j < i + 1 && #[trigger] keys@[j] == k by {
                    if stored.contains_key(k) {
                        let j = choose|j: int| 0 <= j < i && #[trigger] keys@[j] == k;
                        assert(0 <= j < i + 1 && keys@[j] == k);
                    }
                    if k == key {
                        assert(keys@[i as int] == k);
                    }
                }
            }
            i += 1;
        }
        proof {
            assert forall|k: u64| map@.contains_key(k) <==> self.map@.contains_key(k) by {
                if self.map@.contains_key(k) {
                    assert(keys@.to_set().contains(k));
                    let j = choose|j: int| 0 <= j < keys@.len() && keys@[j] == k;
                    assert(keys@[j] == k);
                }
                if map@.contains_key(k) {
                    let j = choose|j: int| 0 <= j < i && #[trigger] keys@[j] == k;
                    assert(keys@.to_set().contains(keys@[j]));
                }
            }
            assert(views(map@).dom() =~= views(self.map@).dom());
        }
        FrecencyCache { map, total_weight: total }
    }
}

/// A cache with nothing in it.
impl<V: CacheWeight> Default for FrecencyCache<V> {
    fn default() -> (cache: Self)
        ensures
            cache@ == Map::<u64, EntryView<V>>::empty(),
    {
        FrecencyCache::new()
    }
}

/// Iterating a cache consumes it and hands out its keys and entries by
/// ascending key.
impl<V: CacheWeight> IntoIterator for FrecencyCache<V> {
    type Item = (u64, CacheEntry<V>);

    type IntoIter = std::vec::IntoIter<(u64, CacheEntry<V>)>;

    fn into_iter(self) -> (iter: std::vec::IntoIter<(u64, CacheEntry<V>)>)
        ensures
            merged(Map::<u64, EntryView<V>>::empty(), entry_views(iter.remaining())) == self@,
            forall|i: int, j: int|
                0 <= i < j < iter.remaining().len() ==> iter.remaining()[i].0 < iter.remaining()[j].0,
    {
        self.into_entries().into_iter()
    }
}

} // verus!
