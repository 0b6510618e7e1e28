use blit::cache::{Cache, DeferredCache, Scale};

struct UnitWeight;

impl Scale<u32, u32> for UnitWeight {
    fn spec_weight(&self, _key: u32, _value: u32) -> usize {
        1
    }

    fn weight(&self, _key: &u32, _value: &u32) -> usize {
        1
    }
}

struct ValueWeight;

impl Scale<u32, u32> for ValueWeight {
    fn spec_weight(&self, _key: u32, value: u32) -> usize {
        value as usize
    }

    fn weight(&self, _key: &u32, value: &u32) -> usize {
        *value as usize
    }
}

#[test]
fn deferred_eviction() {
    let mut cache = DeferredCache::new(UnitWeight, 2);

    assert_eq!(cache.get_or_insert(1, || 10).map(|(value, index)| (*value, index)), Ok((10, 0)));
    cache.get_or_insert(2, || 20).unwrap();
    cache.get_or_insert(3, || 30).unwrap();

    assert_eq!(cache.len(), 3);
    assert_eq!(cache.weight(), 3);

    cache.trim_to_weight();

    assert_eq!(cache.get(&1), None);
    assert_eq!(cache.get(&2), Some(&20));
    assert_eq!(cache.get(&3), Some(&30));
    assert_eq!(cache.weight(), 2);
}

#[test]
fn immediate_eviction() {
    let mut cache = Cache::new(UnitWeight, 2);

    cache.get_or_insert(1, || 10).unwrap();
    cache.get_or_insert(2, || 20).unwrap();
    assert_eq!(cache.get(&1), Some(&10));
    cache.get_or_insert(3, || 30).unwrap();

    assert_eq!(cache.get(&1), Some(&10));
    assert_eq!(cache.get(&2), None);
    assert_eq!(cache.get(&3), Some(&30));
    assert_eq!(cache.len(), 2);
}

#[test]
fn index_access_updates_weight() {
    let mut cache = DeferredCache::new(ValueWeight, 2);

    let (_, first) = cache.get_or_insert(1, || 1).unwrap();
    cache.get_or_insert(2, || 1).unwrap();
    cache.update_index(first, |_value| (2, ()));

    assert_eq!(cache.get_index(first), &2);
    assert_eq!(cache.weight(), 3);

    cache.trim_to_weight();

    assert_eq!(cache.get(&1), Some(&2));
    assert_eq!(cache.get(&2), None);
}

#[test]
fn heavier_than_the_limit_is_refused_when_trimming_on_insert() {
    let mut cache = Cache::new(ValueWeight, 5);

    assert_eq!(cache.get_or_insert(1, || 9).map(|(value, _)| *value), Err(9));
    assert_eq!(cache.len(), 0);
    assert_eq!(cache.get_or_insert(2, || 5).map(|(value, _)| *value), Ok(5));
    assert_eq!(cache.weight(), 5);
}

#[test]
fn found_entries_are_not_made_again() {
    let mut cache = DeferredCache::new(UnitWeight, 4);

    cache.get_or_insert(7, || 70).unwrap();
    let found = cache.get_or_insert(7, || panic!("already cached")).map(|(value, index)| (*value, index));
    assert_eq!(found, Ok((70, 0)));
    assert_eq!(cache.weight(), 1);
}

#[test]
fn lookup_by_an_equivalent_query() {
    let mut cache = DeferredCache::new(UnitWeight, 4);

    let inserted = cache
        .get_or_insert_by(&5u32, |key, _| *key == 5, || (5, 50))
        .map(|(value, index)| (*value, index));
    assert_eq!(inserted, Ok((50, 0)));
    let found = cache
        .get_or_insert_by(&5u32, |key, _| *key == 5, || panic!("already cached"))
        .map(|(value, index)| (*value, index));
    assert_eq!(found, Ok((50, 0)));
}

#[test]
fn retain_drops_rejected_entries_and_their_weight() {
    let mut cache = DeferredCache::new(ValueWeight, 100);

    cache.get_or_insert(1, || 10).unwrap();
    cache.get_or_insert(2, || 20).unwrap();
    cache.get_or_insert(3, || 30).unwrap();
    cache.retain(|key, _| *key != 2);

    assert_eq!(cache.len(), 2);
    assert_eq!(cache.weight(), 40);
    assert_eq!(cache.get(&2), None);
    assert_eq!(cache.get(&3), Some(&30));
}

#[test]
fn insert_weighted_refuses_exactly_what_cannot_be_counted() {
    let mut trimming = Cache::new(UnitWeight, 4);
    assert_eq!(trimming.insert_weighted(1, 10, 0, 5).map(|(value, _)| *value), Err(10));
    assert_eq!(trimming.len(), 0);
    assert_eq!(trimming.insert_weighted(1, 10, 0, 4).map(|(value, slot)| (*value, slot)), Ok((10, 0)));
    assert_eq!(trimming.weight(), 4);

    let mut deferred = DeferredCache::new(UnitWeight, 4);
    assert_eq!(deferred.insert_weighted(1, 10, 0, 5).map(|(value, _)| *value), Ok(10));
    assert_eq!(deferred.insert_weighted(2, 20, 0, usize::MAX).map(|(value, _)| *value), Err(20));
    assert_eq!(deferred.weight(), 5);
}

#[test]
fn lookups_under_the_stored_hash_find_what_was_inserted() {
    let mut cache = DeferredCache::new(UnitWeight, 4);
    assert_eq!(cache.get_or_insert_hashed(1, 7, || 10).map(|(value, slot)| (*value, slot)), Ok((10, 0)));
    assert_eq!(cache.get_or_insert_hashed(2, 7, || 20).map(|(value, slot)| (*value, slot)), Ok((20, 1)));

    assert_eq!(cache.get_hashed(&1, 7), Some(&10));
    assert_eq!(cache.get_hashed(&2, 7), Some(&20));
    assert_eq!(cache.get_hashed(&3, 7), None);
    let found = cache.get_or_insert_hashed(1, 7, || panic!("a cached entry is not made again"));
    assert_eq!(found.map(|(value, slot)| (*value, slot)), Ok((10, 0)));
    assert_eq!(cache.len(), 2);
}

#[test]
fn accepted_entries_under_a_hash_are_not_made_again() {
    let mut cache = Cache::new(UnitWeight, 4);
    cache.get_or_insert(1, || 10).unwrap();
    let found = cache.get_or_insert(1, || panic!("a cached entry is not made again"));
    assert_eq!(found.map(|(value, slot)| (*value, slot)), Ok((10, 0)));
    let by = cache.get_or_insert_by_hashed(3, |key, _| *key == 9, || (9, 90)).map(|(value, _)| *value);
    assert_eq!(by, Ok(90));
    let again = cache.get_or_insert_by_hashed(3, |key, _| *key == 9, || panic!("a cached entry is not made again"));
    assert_eq!(again.map(|(value, _)| *value), Ok(90));
    assert_eq!(cache.len(), 2);
}
