use lru_cache::lru::LruCache;

const CACHE_SIZE: usize = 100;

#[test]
fn test_hit_and_miss() {
    let mut cache = LruCache::<u32>::with_hook(CACHE_SIZE);
    assert_eq!(None, cache.get(100));
    cache.insert(100, 101, 1);
    assert_eq!(Some(101), cache.get(100));
    assert_eq!(None, cache.get(200));
    assert_eq!(None, cache.get(300));

    cache.insert(200, 201, 1);
    assert_eq!(Some(101), cache.get(100));
    assert_eq!(Some(201), cache.get(200));
    assert_eq!(None, cache.get(300));

    cache.insert(100, 102, 1);
    assert_eq!(Some(102), cache.get(100));
    assert_eq!(Some(201), cache.get(200));
    assert_eq!(None, cache.get(300));

    assert_eq!(1, cache.hook_log().len());
    assert_eq!((100, 101), cache.hook_log()[0]);
}

#[test]
fn test_overwrite_returns_previous() {
    let mut cache = LruCache::<u32>::with_hook(CACHE_SIZE);
    assert_eq!(None, cache.insert(100, 101, 1));
    assert_eq!(Some(101), cache.insert(100, 102, 1));
    assert_eq!(Some(102), cache.get(100));
    assert_eq!(vec![(100, 101)], cache.hook_log().clone());
    assert_eq!(1, cache.len());
    assert_eq!(1, cache.total_charge());
}

#[test]
fn test_erase() {
    let mut cache = LruCache::<u32>::with_hook(CACHE_SIZE);
    cache.erase(200);
    assert_eq!(0, cache.hook_log().len());

    cache.insert(100, 101, 1);
    cache.insert(200, 201, 1);
    cache.erase(100);

    assert_eq!(None, cache.get(100));
    assert_eq!(Some(201), cache.get(200));
    assert_eq!(1, cache.hook_log().len());
    assert_eq!((100, 101), cache.hook_log()[0]);

    cache.erase(100);
    assert_eq!(None, cache.get(100));
    assert_eq!(Some(201), cache.get(200));
    assert_eq!(1, cache.hook_log().len());
}

#[test]
fn test_erase_updates_charge() {
    let mut cache = LruCache::<u32>::with_hook(CACHE_SIZE);
    cache.insert(1, 10, 7);
    cache.insert(2, 20, 5);
    assert_eq!(12, cache.total_charge());
    cache.erase(1);
    assert_eq!(5, cache.total_charge());
    assert_eq!(1, cache.len());
    assert_eq!(vec![(1, 10)], cache.hook_log().clone());
}

#[test]
fn test_entries_are_pinned() {
    let mut cache = LruCache::<u32>::with_hook(CACHE_SIZE);
    cache.insert(100, 101, 1);
    let v1 = cache.get(100).unwrap();
    assert_eq!(v1, 101);
    cache.insert(100, 102, 1);
    let v2 = cache.get(100).unwrap();
    assert_eq!(v2, 102);
    assert_eq!(1, cache.hook_log().len());
    assert_eq!((100, 101), cache.hook_log()[0]);
    assert_eq!(v1, 101);
    assert_eq!(v2, 102);

    cache.erase(100);
    assert_eq!(v1, 101);
    assert_eq!(v2, 102);
    assert_eq!(None, cache.get(100));
    assert_eq!(vec![(100, 101), (100, 102)], cache.hook_log().clone());
}

#[test]
fn test_eviction_policy() {
    let mut cache = LruCache::<u32>::with_hook(CACHE_SIZE);
    cache.insert(100, 101, 1);
    cache.insert(200, 201, 1);
    cache.insert(300, 301, 1);

    // A frequently used entry must be kept around.
    for i in 0..(CACHE_SIZE + 100) as u64 {
        cache.insert(1000 + i, 2000 + i as u32, 1);
        assert_eq!(Some(2000 + i as u32), cache.get(1000 + i));
        assert_eq!(Some(101), cache.get(100));
    }
    assert_eq!(CACHE_SIZE, cache.len());
    assert_eq!(Some(101), cache.get(100));
    assert_eq!(None, cache.get(200));
    assert_eq!(None, cache.get(300));
}

#[test]
fn test_use_exceeds_cache_size() {
    let mut cache = LruCache::<u32>::new(CACHE_SIZE);
    let extra = 3u64;
    let total = CACHE_SIZE as u64 + extra;
    // Overfill the cache without re-accessing earlier entries.
    for i in 0..total {
        cache.insert(1000 + i, 2000 + i as u32, 1);
    }

    assert_eq!(CACHE_SIZE, cache.total_charge());
    assert_eq!(CACHE_SIZE, cache.len());
    // The earliest-inserted keys were evicted, the rest kept.
    for i in 0..total {
        if i < extra {
            assert_eq!(None, cache.get(1000 + i));
        } else {
            assert_eq!(Some(2000 + i as u32), cache.get(1000 + i));
        }
    }
}

#[test]
fn test_hot_key_survives_fill() {
    let mut cache = LruCache::<u32>::new(CACHE_SIZE);
    let a = 1u64;
    let b = 2u64;
    let c = 3u64;
    cache.insert(a, 11, 1);
    cache.insert(b, 12, 1);
    cache.insert(c, 13, 1);
    // Keep A hot while 100 more keys pour in; B and C go cold.
    for i in 0..100u64 {
        cache.insert(1000 + i, 2000 + i as u32, 1);
        assert_eq!(Some(11), cache.get(a));
    }
    assert_eq!(Some(11), cache.get(a));
    assert_eq!(None, cache.get(b));
    assert_eq!(None, cache.get(c));
    assert_eq!(CACHE_SIZE, cache.total_charge());
}

#[test]
fn test_heavy_entries() {
    let mut cache = LruCache::<u32>::new(CACHE_SIZE);
    let light = 1usize;
    let heavy = 10usize;
    let mut added = 0usize;
    let mut index = 0u64;
    while added < 2 * CACHE_SIZE {
        let weight = if index % 2 == 0 { light } else { heavy };
        cache.insert(index, 1000 + index as u32, weight);
        added += weight;
        index += 1;
    }
    let mut cache_weight = 0usize;
    for i in 0..index {
        let weight = if i % 2 == 0 { light } else { heavy };
        if let Some(val) = cache.get(i) {
            cache_weight += weight;
            assert_eq!(1000 + i as u32, val);
        }
    }
    // The retrievable weight is exactly the usage counter, and admission
    // keeps it below capacity plus one entry's charge.
    assert_eq!(cache.total_charge(), cache_weight);
    assert!(cache_weight < CACHE_SIZE + heavy);
    assert_eq!(109, cache_weight);
}

#[test]
fn test_charge_above_capacity() {
    let mut cache = LruCache::<u32>::with_hook(10);
    cache.insert(1, 11, 4);
    cache.insert(2, 12, 6);
    // Usage is at capacity: admission evicts from the tail until usage drops
    // below it, then adds the new charge, which here overshoots the capacity.
    cache.insert(3, 13, 25);
    assert_eq!(None, cache.get(1));
    assert_eq!(Some(12), cache.get(2));
    assert_eq!(Some(13), cache.get(3));
    assert_eq!(31, cache.total_charge());
    assert_eq!(vec![(1, 11)], cache.hook_log().clone());

    // The next insert has to drain the cache completely before it fits.
    cache.insert(4, 14, 1);
    assert_eq!(None, cache.get(2));
    assert_eq!(None, cache.get(3));
    assert_eq!(Some(14), cache.get(4));
    assert_eq!(1, cache.total_charge());
    assert_eq!(vec![(1, 11), (2, 12), (3, 13)], cache.hook_log().clone());
}

#[test]
fn test_zero_size_cache() {
    let mut cache = LruCache::<u32>::with_hook(0);
    assert_eq!(None, cache.insert(100, 101, 1));
    assert_eq!(None, cache.get(100));
    assert_eq!(0, cache.total_charge());
    assert_eq!(0, cache.len());
    assert_eq!(0, cache.hook_log().len());
}

#[test]
fn test_hook_disabled_logs_nothing() {
    let mut cache = LruCache::<u32>::new(2);
    cache.insert(1, 11, 1);
    cache.insert(1, 12, 1);
    cache.insert(2, 21, 1);
    cache.insert(3, 31, 1);
    cache.erase(3);
    assert_eq!(0, cache.hook_log().len());
}

#[test]
fn test_one_entry_per_key() {
    let mut cache = LruCache::<u32>::new(CACHE_SIZE);
    cache.insert(1, 10, 1);
    cache.insert(2, 20, 1);
    cache.insert(3, 30, 1);
    cache.insert(2, 21, 1);
    cache.insert(2, 22, 1);
    // The index holds at most one entry per key: its size tracks the
    // distinct keys, and the latest value wins.
    assert_eq!(3, cache.len());
    assert_eq!(3, cache.total_charge());
    assert_eq!(Some(22), cache.get(2));
}

#[test]
fn test_overwrite_at_capacity_evicts_nothing() {
    let mut cache = LruCache::<u32>::with_hook(CACHE_SIZE);
    for i in 0..CACHE_SIZE as u64 {
        cache.insert(i, i as u32, 1);
    }
    assert_eq!(CACHE_SIZE, cache.len());
    // Overwriting a resident key at full capacity changes neither the
    // resident count nor the usage counter, and triggers no eviction: the
    // only displacement logged is the overwritten pair.
    assert_eq!(Some(5), cache.insert(5, 500, 1));
    assert_eq!(CACHE_SIZE, cache.len());
    assert_eq!(CACHE_SIZE, cache.total_charge());
    assert_eq!(vec![(5, 5)], cache.hook_log().clone());
    for i in 0..CACHE_SIZE as u64 {
        let want = if i == 5 { 500 } else { i as u32 };
        assert_eq!(Some(want), cache.get(i));
    }
}
