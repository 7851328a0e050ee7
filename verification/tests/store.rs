use frecency_cache::cache::FrecencyCache;
use frecency_cache::frecency::FRECENCY_ONE;
use frecency_cache::weight::CacheWeight;

#[derive(Clone, Debug, PartialEq)]
struct Blob(u64);

impl CacheWeight for Blob {
    fn weight(&self) -> u64 {
        self.0
    }
}

#[test]
fn new_cache_is_empty() {
    let cache: FrecencyCache<Blob> = FrecencyCache::new();
    assert!(cache.is_empty());
    assert_eq!(cache.len(), 0);
    assert_eq!(cache.total_weight(), 0);
    assert!(!cache.contains_key(&1));
}

#[test]
fn default_cache_is_empty() {
    let cache: FrecencyCache<Blob> = FrecencyCache::default();
    assert!(cache.is_empty());
    assert_eq!(cache.total_weight(), 0);
}

#[test]
fn insert_creates_entry_with_one_use() {
    let mut cache = FrecencyCache::new();
    cache.insert(7, Blob(10));
    assert!(cache.contains_key(&7));
    assert!(!cache.is_empty());
    assert_eq!(cache.len(), 1);
    assert_eq!(cache.total_weight(), 10);
    let entry = cache.peek(&7).unwrap();
    assert_eq!(entry.weight(), 10);
    assert_eq!(entry.frecency(), FRECENCY_ONE);
    assert_eq!(entry.value(), &Blob(10));
}

#[test]
fn insert_never_evicts() {
    let mut cache = FrecencyCache::new();
    for key in 0..100u64 {
        cache.insert(key, Blob(u64::MAX));
    }
    assert_eq!(cache.len(), 100);
    assert_eq!(cache.total_weight(), 100 * (u64::MAX as u128));
}

#[test]
fn get_bumps_frecency_and_keeps_weight_and_value() {
    let mut cache = FrecencyCache::new();
    cache.insert(1, Blob(5));
    cache.insert(2, Blob(6));
    assert_eq!(cache.get(&1), Some(&Blob(5)));
    let entry = cache.peek(&1).unwrap();
    assert_eq!(entry.frecency(), 2 * FRECENCY_ONE);
    assert_eq!(entry.weight(), 5);
    assert_eq!(entry.value(), &Blob(5));
    assert_eq!(cache.peek(&2).unwrap().frecency(), FRECENCY_ONE);
    assert_eq!(cache.total_weight(), 11);
}

#[test]
fn get_of_absent_key_changes_nothing() {
    let mut cache = FrecencyCache::new();
    cache.insert(1, Blob(5));
    assert_eq!(cache.get(&9), None);
    assert_eq!(cache.len(), 1);
    assert_eq!(cache.peek(&1).unwrap().frecency(), FRECENCY_ONE);
    assert_eq!(cache.total_weight(), 5);
}

#[test]
fn peek_and_contains_key_do_not_count_as_use() {
    let mut cache = FrecencyCache::new();
    cache.insert(1, Blob(5));
    assert!(cache.contains_key(&1));
    assert!(cache.peek(&1).is_some());
    assert!(cache.peek(&2).is_none());
    assert_eq!(cache.peek(&1).unwrap().frecency(), FRECENCY_ONE);
}

#[test]
fn overwrite_bumps_frecency_and_replaces_value_and_weight() {
    let mut cache = FrecencyCache::new();
    cache.insert(1, Blob(5));
    cache.insert(2, Blob(7));
    cache.insert(1, Blob(9));
    let entry = cache.peek(&1).unwrap();
    assert_eq!(entry.frecency(), 2 * FRECENCY_ONE);
    assert_eq!(entry.weight(), 9);
    assert_eq!(entry.value(), &Blob(9));
    assert_eq!(cache.len(), 2);
    assert_eq!(cache.total_weight(), 16);
}

#[test]
fn overwrite_with_lighter_value_lowers_total() {
    let mut cache = FrecencyCache::new();
    cache.insert(1, Blob(50));
    cache.insert(2, Blob(1));
    cache.insert(1, Blob(20));
    assert_eq!(cache.total_weight(), 21);
    cache.insert(1, Blob(20));
    assert_eq!(cache.total_weight(), 21);
    assert_eq!(cache.peek(&1).unwrap().frecency(), 3 * FRECENCY_ONE);
    cache.insert(1, Blob(0));
    assert_eq!(cache.total_weight(), 1);
}

#[test]
fn remove_returns_value_and_subtracts_weight() {
    let mut cache = FrecencyCache::new();
    cache.insert(1, Blob(5));
    cache.insert(2, Blob(6));
    assert_eq!(cache.remove(&1), Some(Blob(5)));
    assert!(!cache.contains_key(&1));
    assert!(cache.contains_key(&2));
    assert_eq!(cache.total_weight(), 6);
    assert_eq!(cache.remove(&1), None);
    assert_eq!(cache.total_weight(), 6);
    assert_eq!(cache.remove(&2), Some(Blob(6)));
    assert!(cache.is_empty());
    assert_eq!(cache.total_weight(), 0);
}

#[test]
fn reinsert_after_remove_starts_over() {
    let mut cache = FrecencyCache::new();
    cache.insert(1, Blob(5));
    cache.get(&1);
    cache.get(&1);
    cache.remove(&1);
    cache.insert(1, Blob(8));
    assert_eq!(cache.peek(&1).unwrap().frecency(), FRECENCY_ONE);
    assert_eq!(cache.total_weight(), 8);
}

#[test]
fn is_empty_agrees_with_contains_key() {
    let mut cache = FrecencyCache::new();
    assert!(cache.is_empty());
    for key in 0..20u64 {
        assert!(!cache.contains_key(&key));
    }
    cache.insert(3, Blob(0));
    assert!(!cache.is_empty());
    assert!(cache.contains_key(&3));
    cache.remove(&3);
    assert!(cache.is_empty());
    assert!(!cache.contains_key(&3));
}

#[test]
fn absent_option_weighs_nothing() {
    let absent: Option<Blob> = None;
    assert_eq!(absent.weight(), 0);
    assert_eq!(Some(Blob(12)).weight(), 12);
    assert_eq!(Some(Some(Blob(4))).weight(), 4);
    let nested: Option<Option<Blob>> = Some(None);
    assert_eq!(nested.weight(), 0);
}

#[test]
fn optional_values_are_weighed_by_what_they_hold() {
    let mut cache: FrecencyCache<Option<Blob>> = FrecencyCache::new();
    cache.insert(1, None);
    cache.insert(2, Some(Blob(9)));
    assert_eq!(cache.total_weight(), 9);
    assert_eq!(cache.peek(&1).unwrap().weight(), 0);
    cache.insert(1, Some(Blob(3)));
    assert_eq!(cache.total_weight(), 12);
    cache.insert(2, None);
    assert_eq!(cache.total_weight(), 3);
}

#[test]
fn total_weight_is_the_sum_after_every_operation() {
    let mut cache = FrecencyCache::new();
    let mut expected: Vec<(u64, u64)> = Vec::new();
    let steps: Vec<(u8, u64, u64)> = vec![
        (0, 1, 10),
        (0, 2, 20),
        (0, 3, 5),
        (1, 2, 0),
        (0, 1, 3),
        (2, 0, 0),
        (0, 4, 40),
        (3, 30, 0),
        (1, 4, 0),
        (0, 5, 7),
        (3, 0, 0),
        (0, 6, 1),
    ];
    for (op, a, b) in steps {
        match op {
            0 => {
                cache.insert(a, Blob(b));
                expected.retain(|(k, _)| *k != a);
                expected.push((a, b));
            }
            1 => {
                cache.remove(&a);
                expected.retain(|(k, _)| *k != a);
            }
            2 => {
                cache.get(&1);
            }
            _ => {
                cache.evict(a);
                expected.retain(|(k, _)| cache.contains_key(k));
            }
        }
        let sum: u128 = expected.iter().map(|(_, w)| *w as u128).sum();
        assert_eq!(cache.total_weight(), sum);
        assert_eq!(cache.len(), expected.len());
        for (k, w) in expected.iter() {
            let entry = cache.peek(k).unwrap();
            assert_eq!(entry.weight(), *w);
            assert_eq!(entry.value().weight(), *w);
        }
    }
}
