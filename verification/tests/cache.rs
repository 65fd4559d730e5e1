use cpu_simulator::cache::{Cache, CacheBlock, CACHE_ACCESS_COST};

fn tags(cache: &Cache, set: u8) -> Vec<u8> {
    cache.sets[&set].blocks.iter().map(|block| block.tag).collect()
}

#[test]
fn new_cache_has_every_set_empty() {
    let cache = Cache::new(4, 2);
    assert_eq!(cache.num_sets, 4);
    assert_eq!(cache.blocks_per_set, 2);
    assert_eq!(cache.sets.len(), 4);
    for index in 0..4u8 {
        let set = &cache.sets[&index];
        assert!(set.blocks.is_empty());
        assert_eq!(set.capacity, 2);
    }
    assert_eq!(cache.access_counter, 0);
    assert_eq!(cache.hits, 0);
    assert_eq!(cache.misses, 0);
    assert!(cache.is_well_formed());
    assert_eq!(CACHE_ACCESS_COST, 2);
}

#[test]
fn new_cache_with_more_sets_than_addresses_has_one_set_per_address() {
    let cache = Cache::new(1000, 1);
    assert_eq!(cache.sets.len(), 256);
    assert_eq!(cache.get_tag_and_set(200), (0, 200));
    assert_eq!(cache.get_tag_and_set(255), (0, 255));
    let exact = Cache::new(256, 1);
    assert_eq!(exact.sets.len(), 256);
    assert_eq!(exact.get_tag_and_set(255), (0, 255));
}

#[test]
fn address_splits_into_tag_and_set() {
    let cache = Cache::new(4, 2);
    assert_eq!(cache.get_tag_and_set(0), (0, 0));
    assert_eq!(cache.get_tag_and_set(5), (1, 1));
    assert_eq!(cache.get_tag_and_set(31), (7, 3));
    assert_eq!(cache.get_tag_and_set(255), (63, 3));
    let single = Cache::new(1, 2);
    assert_eq!(single.get_tag_and_set(77), (77, 0));
    let odd = Cache::new(3, 2);
    assert_eq!(odd.get_tag_and_set(200), (66, 2));
}

#[test]
fn read_of_an_empty_cache_misses() {
    let mut cache = Cache::new(4, 2);
    assert_eq!(cache.read(9), (0, false));
    assert_eq!((cache.hits, cache.misses, cache.access_counter), (0, 1, 1));
    assert!(cache.sets[&1].blocks.is_empty());
}

#[test]
fn read_after_write_returns_the_word() {
    let mut cache = Cache::new(4, 2);
    cache.write(9, 1234);
    assert_eq!(cache.read(9), (1234, true));
    assert_eq!((cache.hits, cache.misses), (1, 0));
    let block = cache.sets[&1].blocks[0];
    assert_eq!((block.tag, block.data, block.valid, block.last_used), (2, 1234, true, 2));
}

#[test]
fn read_after_write_holds_for_every_address() {
    for addr in 0..=255u8 {
        let mut cache = Cache::new(4, 2);
        cache.write(addr, 0xDEAD_0000 | addr as u32);
        assert_eq!(cache.read(addr), (0xDEAD_0000 | addr as u32, true));
        assert!(cache.is_well_formed());
    }
}

#[test]
fn write_stamps_the_block_and_counts_no_hit_or_miss() {
    let mut cache = Cache::new(4, 2);
    cache.write(6, 11);
    assert_eq!(cache.access_counter, 1);
    assert_eq!((cache.hits, cache.misses), (0, 0));
    let block = cache.sets[&2].blocks[0];
    assert_eq!((block.tag, block.data, block.valid, block.last_used), (1, 11, true, 1));
}

#[test]
fn write_to_a_cached_address_updates_in_place() {
    let mut cache = Cache::new(4, 2);
    cache.write(0, 1);
    cache.write(4, 2);
    cache.write(0, 3);
    assert_eq!(tags(&cache, 0), vec![0, 1]);
    let first = cache.sets[&0].blocks[0];
    assert_eq!((first.data, first.last_used), (3, 3));
    let second = cache.sets[&0].blocks[1];
    assert_eq!((second.data, second.last_used), (2, 2));
}

#[test]
fn one_write_too_many_evicts_the_first_written() {
    let mut cache = Cache::new(4, 2);
    cache.write(0, 10);
    cache.write(4, 20);
    cache.write(8, 30);
    assert_eq!(tags(&cache, 0), vec![2, 1]);
    assert_eq!(cache.read(0), (0, false));
    assert_eq!(cache.read(4), (20, true));
    assert_eq!(cache.read(8), (30, true));
    assert_eq!((cache.hits, cache.misses), (2, 1));
}

#[test]
fn eviction_holds_for_larger_sets() {
    let ways = 5usize;
    let mut cache = Cache::new(8, ways);
    let addrs: Vec<u8> = (0..=ways as u8).map(|i| 3 + 8 * i).collect();
    for (i, addr) in addrs.iter().enumerate() {
        cache.write(*addr, 100 + i as u32);
    }
    assert_eq!(cache.read(addrs[0]), (0, false));
    for i in 1..addrs.len() {
        assert_eq!(cache.read(addrs[i]), (100 + i as u32, true));
    }
    assert_eq!(cache.sets[&3].blocks.len(), ways);
    assert!(cache.is_well_formed());
}

#[test]
fn a_read_renews_a_block_so_that_another_is_evicted() {
    let mut cache = Cache::new(4, 2);
    cache.write(0, 10);
    cache.write(4, 20);
    assert_eq!(cache.read(0), (10, true));
    cache.write(8, 30);
    assert_eq!(tags(&cache, 0), vec![0, 2]);
    assert_eq!(cache.read(4), (0, false));
    assert_eq!(cache.read(0), (10, true));
    assert_eq!(cache.read(8), (30, true));
}

#[test]
fn among_equally_old_blocks_the_first_is_replaced() {
    let mut cache = Cache::new(4, 2);
    cache.write(0, 10);
    cache.write(4, 20);
    for block in cache.sets.get_mut(&0).unwrap().blocks.iter_mut() {
        block.last_used = 1;
    }
    assert!(cache.is_well_formed());
    cache.write(8, 30);
    assert_eq!(tags(&cache, 0), vec![2, 1]);
}

#[test]
fn writes_to_other_sets_evict_nothing() {
    let mut cache = Cache::new(4, 2);
    for addr in 0..8u8 {
        cache.write(addr, addr as u32);
    }
    for addr in 0..8u8 {
        assert_eq!(cache.read(addr), (addr as u32, true));
    }
}

#[test]
fn hits_and_misses_add_up_to_the_reads() {
    let mut cache = Cache::new(2, 2);
    let mut reads = 0;
    let mut last = (0, 0);
    for round in 0..50u32 {
        let addr = (round * 7 % 13) as u8;
        if round % 3 == 0 {
            cache.write(addr, round);
        } else {
            cache.read(addr);
            reads += 1;
        }
        assert!(cache.hits >= last.0 && cache.misses >= last.1);
        last = (cache.hits, cache.misses);
        assert_eq!(cache.hits + cache.misses, reads);
        assert_eq!(cache.access_counter, round as u64 + 1);
        assert!(cache.is_well_formed());
    }
}

#[test]
fn a_set_comes_into_being_with_the_first_write() {
    let mut cache = Cache::new(4, 2);
    cache.sets.remove(&3);
    assert_eq!(cache.read(7), (0, false));
    assert!(!cache.sets.contains_key(&3));
    cache.write(7, 5);
    assert_eq!(cache.sets[&3].capacity, 2);
    assert_eq!(cache.read(7), (5, true));
}

#[test]
fn hit_rate_is_zero_before_any_read() {
    let mut cache = Cache::new(4, 2);
    let rate = cache.get_hit_rate();
    assert_eq!((rate.hits, rate.accesses), (0, 1));
    assert_eq!(rate.hits as f32 / rate.accesses as f32, 0.0);
    cache.write(1, 1);
    let rate = cache.get_hit_rate();
    assert_eq!((rate.hits, rate.accesses), (0, 1));
}

#[test]
fn hit_rate_is_hits_over_reads() {
    let mut cache = Cache::new(4, 2);
    cache.write(1, 1);
    cache.read(1);
    cache.read(1);
    cache.read(1);
    cache.read(2);
    let rate = cache.get_hit_rate();
    assert_eq!((rate.hits, rate.accesses), (3, 4));
    assert_eq!(rate.hits as f32 / rate.accesses as f32, 0.75);
}

#[test]
fn hit_rate_does_not_overflow_with_full_counters() {
    let mut cache = Cache::new(4, 2);
    cache.hits = u32::MAX;
    cache.misses = u32::MAX;
    let rate = cache.get_hit_rate();
    assert_eq!((rate.hits, rate.accesses), (u32::MAX as u64, 2 * (u32::MAX as u64)));
}

#[test]
fn ill_formed_caches_are_told_apart() {
    let fresh = |tag: u8, valid: bool, last_used: u64| CacheBlock { tag, data: 0, valid, last_used };

    let mut twice = Cache::new(4, 2);
    twice.access_counter = 5;
    twice.sets.get_mut(&0).unwrap().blocks = vec![fresh(1, true, 1), fresh(1, true, 2)];
    assert!(!twice.is_well_formed());

    let mut invalid = Cache::new(4, 2);
    invalid.access_counter = 5;
    invalid.sets.get_mut(&0).unwrap().blocks = vec![fresh(1, false, 1)];
    assert!(!invalid.is_well_formed());

    let mut ahead = Cache::new(4, 2);
    ahead.sets.get_mut(&0).unwrap().blocks = vec![fresh(1, true, 1)];
    assert!(!ahead.is_well_formed());

    let mut crowded = Cache::new(4, 1);
    crowded.access_counter = 5;
    crowded.sets.get_mut(&0).unwrap().blocks = vec![fresh(1, true, 1), fresh(2, true, 2)];
    assert!(!crowded.is_well_formed());

    let mut resized = Cache::new(4, 2);
    resized.sets.get_mut(&2).unwrap().capacity = 3;
    assert!(!resized.is_well_formed());

    let mut no_sets = Cache::new(4, 2);
    no_sets.num_sets = 0;
    assert!(!no_sets.is_well_formed());

    let mut fine = Cache::new(4, 2);
    fine.access_counter = 5;
    fine.sets.get_mut(&0).unwrap().blocks = vec![fresh(1, true, 5), fresh(2, true, 2)];
    assert!(fine.is_well_formed());
}
