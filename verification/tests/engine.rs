use civs::civmap::{CivMap, RemovedItem};
use std::collections::BTreeMap;

#[test]
fn test_iter() {
    let cnt = 1_000_000;
    let mut res = Vec::with_capacity(cnt);
    let mut map = CivMap::new();
    for i in 0..cnt {
        map.insert(i as u64, i as u64);
        if i % 10 != 0 {
            res.push((i as u64, i as u64));
        }
    }
    for i in 0..cnt {
        if i % 10 == 0 {
            map.remove(&(i as u64));
        }
    }

    let mut lib = map.filtered_iter();
    lib.sort_by_key(|(k, _)| *k);

    assert_eq!(res, lib);
}

#[test]
fn hot_slot_fills_first_level() {
    // With a base size of 3, the third insertion drains the slot into a
    // first level holding the keys in order.
    let mut map = CivMap::with_config(3, 1, 4);
    for k in [3u64, 7, 1] {
        assert_eq!(map.insert(k, k * 10), None);
    }
    assert_eq!(map.len(), 3);
    assert_eq!(map.tombs(), 0);
    for k in [1u64, 3, 7] {
        assert!(map.contains(&k));
        assert_eq!(map.get(&k), Some(&(k * 10)));
    }
    assert!(!map.contains(&2));
    let mut keys = map.filtered_iter();
    keys.sort_by_key(|(k, _)| *k);
    assert_eq!(keys, vec![(1, 10), (3, 30), (7, 70)]);
}

#[test]
fn second_overflow_merges_into_next_level() {
    let mut map = CivMap::with_config(3, 1, 4);
    for k in [3u64, 7, 1, 10, 14, 2] {
        map.insert(k, k);
    }
    assert_eq!(map.len(), 6);
    assert_eq!(map.tombs(), 0);
    let mut keys: Vec<u64> = map.filtered_iter().into_iter().map(|(k, _)| k).collect();
    keys.sort();
    assert_eq!(keys, vec![1, 2, 3, 7, 10, 14]);
}

#[test]
fn remove_absent_then_present() {
    let mut map = CivMap::with_config(3, 1, 4);
    for k in [3u64, 7, 1, 10, 14, 2] {
        map.insert(k, k);
    }
    // absent key: nothing changes
    assert!(map.remove(&5).is_none());
    assert_eq!(map.len(), 6);
    assert_eq!(map.tombs(), 0);
    // a key in a level becomes a tombstone
    let gone = map.remove(&7).unwrap();
    assert_eq!(gone.swap(0), 7);
    assert_eq!(map.len(), 5);
    assert_eq!(map.tombs(), 1);
    assert!(!map.contains(&7));
    assert_eq!(map.check_len(), 5);
}

#[test]
fn multiway_merge_scenario() {
    let mut map = CivMap::with_config(3, 1, 4);
    for k in [3u64, 7, 1, 10, 14, 2] {
        map.insert(k, k);
    }
    map.remove(&5);
    map.remove(&7);
    for k in [8u64, 12, 11, 6, 15, 9, 5, 4, 13] {
        map.insert(k, k);
    }
    let mut keys: Vec<u64> = map.filtered_iter().into_iter().map(|(k, _)| k).collect();
    keys.sort();
    assert_eq!(keys, vec![1, 2, 3, 4, 5, 6, 8, 9, 10, 11, 12, 13, 14, 15]);
    assert_eq!(map.len(), 14);
    assert_eq!(map.check_len(), 14);
}

#[test]
fn insert_overwrites_in_place() {
    let mut map = CivMap::with_config(3, 1, 4);
    for k in [3u64, 7, 1] {
        map.insert(k, k);
    }
    // key 7 now lives in a level; overwriting must not change the count
    assert_eq!(map.insert(7, 700), Some(7));
    assert_eq!(map.len(), 3);
    assert_eq!(map.get(&7), Some(&700));
    // a fresh key lands in the hot slot and the count grows
    assert_eq!(map.insert(20, 20), None);
    assert_eq!(map.len(), 4);
}

#[test]
fn get_mut_updates_in_place() {
    let mut map = CivMap::with_config(3, 1, 4);
    for k in [3u64, 7, 1, 10] {
        map.insert(k, k);
    }
    // 7 is in a level, 10 in the hot slot
    *map.get_mut(&7).unwrap() = 77;
    *map.get_mut(&10).unwrap() = 100;
    assert!(map.get_mut(&99).is_none());
    assert_eq!(map.get(&7), Some(&77));
    assert_eq!(map.get(&10), Some(&100));
    assert_eq!(map.len(), 4);
}

#[test]
fn removed_item_accessors() {
    let item = RemovedItem::Owned(5);
    assert_eq!(item.copied(), 5);
    let item = RemovedItem::Ref(6);
    assert_eq!(item.cloned(), 6);
    let item = RemovedItem::Ref(7);
    assert_eq!(item.swap(1), 7);
}

#[test]
fn clear_resets_everything() {
    let mut map = CivMap::with_config(3, 1, 4);
    for k in 0..20u64 {
        map.insert(k, k);
    }
    map.remove(&4);
    map.clear();
    assert_eq!(map.len(), 0);
    assert_eq!(map.tombs(), 0);
    assert!(!map.contains(&4));
    assert!(map.filtered_iter().is_empty());
    // the engine keeps working after a clear
    map.insert(1, 2);
    assert_eq!(map.get(&1), Some(&2));
}

#[test]
fn capacity_reports() {
    let mut map = CivMap::with_config(3, 1, 4);
    for k in [3u64, 7, 1, 10, 14, 2] {
        map.insert(k, k);
    }
    // levels of capacity 3 and 6 exist after two merges
    assert_eq!(map.max_capacity(), 3 + 3 + 6);
    assert!(map.real_capacity() >= 3);
    assert_eq!(map.capacities().len(), 2);
    let rows = map.statistics();
    assert_eq!(rows, vec![(1, 6, 6, 0)]);
    map.shrink_to_fit();
    assert_eq!(map.len(), 6);
}

#[test]
fn compaction_reclaims_tombstones() {
    // Base size 2, threshold 1/4.  Build a big level, tombstone most of
    // it, refill the lower tiers, and let the next cascade merge trip
    // the compaction: the live residue migrates down and the engine
    // keeps only the slack of its final target as tombstones.
    let mut map = CivMap::with_config(2, 1, 4);
    for k in [1u64, 2, 3, 4, 5, 6, 7, 8] {
        map.insert(k, k);
    }
    for k in [1u64, 2, 3, 4, 5] {
        map.remove(&k);
    }
    assert_eq!(map.tombs(), 5);
    assert_eq!(map.len(), 3);
    for k in [21u64, 22, 23, 24, 25, 26, 27, 28] {
        map.insert(k, k);
    }
    // the merge into the fourth tier gathered 11 live entries out of 16
    // reserved cells; compaction pushed 8 into the third tier and 3 into
    // the second, whose one spare cell is the only tombstone left
    assert_eq!(map.len(), 11);
    assert_eq!(map.check_len(), 11);
    assert_eq!(map.tombs(), 1);
    let mut keys: Vec<u64> = map.filtered_iter().into_iter().map(|(k, _)| k).collect();
    keys.sort();
    assert_eq!(keys, vec![6, 7, 8, 21, 22, 23, 24, 25, 26, 27, 28]);
}

#[test]
fn differential_against_reference_map() {
    let mut ours = CivMap::with_config(4, 1, 4);
    let mut reference: BTreeMap<u64, u64> = BTreeMap::new();
    // a fixed linear-congruential stream drives the interleaving
    let mut state: u64 = 0x2545F4914F6CDD1D;
    for step in 0..4000u64 {
        state = state.wrapping_mul(6364136223846793005).wrapping_add(1442695040888963407);
        let key = (state >> 33) % 64;
        let op = (state >> 28) % 4;
        match op {
            0 | 1 => {
                let displaced = ours.insert(key, step);
                assert_eq!(displaced, reference.insert(key, step));
            },
            2 => {
                let got = ours.remove(&key).map(|it| it.copied());
                assert_eq!(got, reference.remove(&key));
            },
            _ => {
                assert_eq!(ours.contains(&key), reference.contains_key(&key));
                assert_eq!(ours.get(&key), reference.get(&key));
            },
        }
        assert_eq!(ours.len(), reference.len());
    }
    assert_eq!(ours.check_len(), reference.len());
    let mut all = ours.filtered_iter();
    all.sort_by_key(|(k, _)| *k);
    let expected: Vec<(u64, u64)> = reference.into_iter().collect();
    assert_eq!(all, expected);
}
