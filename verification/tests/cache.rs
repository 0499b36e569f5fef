use std::rc::Rc;

use matdb::cache::Cache;

fn handle_of(cache: &Cache<u32>, key: u64) -> &Rc<u32> {
    &cache.entries.iter().find(|e| e.key == key).unwrap().rc
}

#[test]
fn missing_key() {
    let mut cache: Cache<u32> = Cache::new(100);

    assert!(cache.get(&5).is_none());
}

#[test]
fn borrow_and_return() {
    let mut cache: Cache<u32> = Cache::new(100);
    cache.add(5, Rc::new(42));

    let item = cache.get(&5);

    assert_eq!(Rc::strong_count(handle_of(&cache, 5)), 2);

    drop(item);

    assert_eq!(Rc::strong_count(handle_of(&cache, 5)), 1);
}

#[test]
fn borrow_and_use() {
    let mut cache: Cache<u32> = Cache::new(100);
    cache.add(5, Rc::new(42));

    let item = cache.get(&5);

    assert!(item.is_some());

    let rc = item.unwrap();

    let value = *rc;
    assert_eq!(value, 42);
}

#[test]
fn borrow_and_then_add_more() {
    let mut cache: Cache<u32> = Cache::new(100);
    cache.add(5, Rc::new(42));

    let item = cache.get(&5);

    for i in 100..1000 {
        cache.add(i, Rc::new(i as u32));
    }

    let rc = item.unwrap();

    let value = *rc;
    assert_eq!(value, 42);
}

#[test]
fn borrow_two() {
    let mut cache: Cache<u32> = Cache::new(100);
    cache.add(5, Rc::new(42));
    cache.add(7, Rc::new(99));

    let item = cache.get(&5);
    let item2 = cache.get(&7);

    let rc = item.unwrap();
    let rc2 = item2.unwrap();

    let value = *rc;
    let value2 = *rc2;

    assert_eq!(value, 42);
    assert_eq!(value2, 99);
}

#[test]
fn borrow_same_one_twice() {
    let mut cache: Cache<u32> = Cache::new(100);
    cache.add(5, Rc::new(42));

    let item = cache.get(&5);
    let item2 = cache.get(&5);

    let rc = item.unwrap();
    let rc2 = item2.unwrap();

    let value = *rc;
    let value2 = *rc2;

    assert_eq!(value, 42);
    assert_eq!(value2, 42);

    assert_eq!(Rc::strong_count(handle_of(&cache, 5)), 3);

    drop(rc);
    drop(rc2);

    assert_eq!(Rc::strong_count(handle_of(&cache, 5)), 1);
}

#[test]
fn evict_nothing_borrowed() {
    let mut cache: Cache<u32> = Cache::new(100);
    cache.add(5, Rc::new(42));

    assert_eq!(cache.evict(&5), true);

    assert_eq!(cache.entries.len(), 0);
}

#[test]
fn evict_something_not_there() {
    let mut cache: Cache<u32> = Cache::new(100);

    assert_eq!(cache.evict(&5), false);
}

#[test]
fn try_evict_something_borrowed() {
    let mut cache: Cache<u32> = Cache::new(100);
    cache.add(5, Rc::new(42));

    let _item = cache.get(&5);

    assert_eq!(cache.evict(&5), false);

    assert_eq!(cache.entries.len(), 1);
}

#[test]
fn get_counts_uses() {
    let mut cache: Cache<u32> = Cache::new(100);
    cache.add(5, Rc::new(42));
    assert_eq!(cache.entries[0].use_count, 1);
    cache.get(&5);
    cache.get(&5);
    assert_eq!(cache.entries[0].use_count, 3);
    cache.get(&6);
    assert_eq!(cache.entries[0].use_count, 3);
}

#[test]
fn add_replaces_the_value_of_a_key() {
    let mut cache: Cache<u32> = Cache::new(100);
    cache.add(5, Rc::new(42));
    cache.get(&5);
    cache.add(5, Rc::new(43));
    assert_eq!(cache.entries.len(), 1);
    assert_eq!(cache.entries[0].use_count, 1);
    assert_eq!(*cache.get(&5).unwrap(), 43);
}

#[test]
fn a_cache_below_capacity_stays_as_it_is() {
    let mut cache: Cache<u32> = Cache::new(3);
    cache.add(1, Rc::new(10));
    cache.add(2, Rc::new(20));
    cache.check_capacity();
    assert_eq!(cache.entries.len(), 2);
    assert_eq!(cache.entries[0].use_count, 1);
    assert_eq!(cache.entries[1].use_count, 1);
    assert!(cache.evictables.is_empty());
}

#[test]
fn a_full_cache_sweeps_and_evicts() {
    let mut cache: Cache<u32> = Cache::new(2);
    cache.add(1, Rc::new(10));
    cache.add(2, Rc::new(20));
    // Key 2 is used more than key 1.
    cache.get(&2);
    cache.get(&2);
    // The first sweep lowers the counts to 0 and 2, the second marks key 1 and lowers key 2.
    cache.check_capacity();
    assert_eq!(cache.entries.len(), 1);
    assert_eq!(cache.entries[0].key, 2);
    assert_eq!(cache.entries[0].use_count, 1);
}

#[test]
fn a_cache_of_held_values_is_emptied() {
    let mut cache: Cache<u32> = Cache::new(2);
    cache.add(1, Rc::new(10));
    cache.add(2, Rc::new(20));
    let a = cache.get(&1).unwrap();
    let b = cache.get(&2).unwrap();
    cache.check_capacity();
    assert_eq!(cache.entries.len(), 0);
    // The handles outlive the cache entries.
    assert_eq!(*a, 10);
    assert_eq!(*b, 20);
}

#[test]
fn handles_survive_adds_and_evictions() {
    let mut cache: Cache<u32> = Cache::new(4);
    cache.add(7, Rc::new(70));
    let held = cache.get(&7).unwrap();
    for i in 0..50u64 {
        cache.add(100 + i, Rc::new(i as u32));
        cache.evict(&(100 + i));
    }
    cache.evict(&7);
    assert_eq!(*held, 70);
}

#[test]
fn an_entry_goes_unless_it_is_held() {
    let mut cache: Cache<u32> = Cache::new(100);
    cache.add(5, Rc::new(42));
    cache.add(7, Rc::new(99));

    // Two handles are alive: the entry stays.
    assert_eq!(cache.evict_unless_held(&5, 2), false);
    assert_eq!(cache.entries.len(), 2);
    // Nothing is kept under the key.
    assert_eq!(cache.evict_unless_held(&6, 1), false);
    assert_eq!(cache.entries.len(), 2);
    // The cache holds the only handle: the entry goes, the other stays.
    assert_eq!(cache.evict_unless_held(&5, 1), true);
    assert_eq!(cache.entries.len(), 1);
    assert_eq!(cache.entries[0].key, 7);
    assert_eq!(cache.evict_unless_held(&5, 1), false);
}

#[test]
fn a_sweep_lowers_the_counts_and_queues_the_unused() {
    let mut cache: Cache<u32> = Cache::new(100);
    cache.add(1, Rc::new(10));
    cache.add(2, Rc::new(20));
    cache.get(&2);

    cache.sweep();
    assert_eq!(cache.entries[0].use_count, 0);
    assert_eq!(cache.entries[1].use_count, 1);
    assert!(cache.evictables.is_empty());

    cache.sweep();
    assert_eq!(cache.entries[0].use_count, 0);
    assert_eq!(cache.entries[1].use_count, 0);
    assert_eq!(cache.evictables, vec![1]);

    cache.sweep();
    assert_eq!(cache.evictables, vec![1, 1, 2]);
    assert_eq!(cache.entries.len(), 2);
}

#[test]
fn the_entry_that_is_unused_and_not_held_is_evicted() {
    let mut cache: Cache<u32> = Cache::new(2);
    cache.add(1, Rc::new(10));
    cache.add(2, Rc::new(20));
    let h = cache.get(&1).unwrap();

    cache.check_capacity();

    assert!(cache.get(&2).is_none());
    assert_eq!(*cache.get(&1).unwrap(), 10);
    assert_eq!(*h, 10);
}

#[test]
fn a_marked_entry_that_is_held_stays() {
    let mut cache: Cache<u32> = Cache::new(2);
    cache.add(1, Rc::new(10));
    cache.add(2, Rc::new(20));
    // Key 1 is used less, and is held: key 2 goes in its place.
    cache.get(&2);
    let h = cache.entries[0].rc.clone();

    cache.check_capacity();

    assert_eq!(cache.entries.len(), 1);
    assert_eq!(cache.entries[0].key, 1);
    assert_eq!(*h, 10);
}
