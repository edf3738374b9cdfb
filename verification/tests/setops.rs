use civs::civset::CivSet;
use std::collections::BTreeSet;

#[test]
fn set_insert_remove_contains() {
    let mut set = CivSet::with_config(3, 1, 4);
    assert!(set.insert(10));
    assert!(set.insert(20));
    assert!(!set.insert(10));
    assert_eq!(set.len(), 2);
    assert!(set.contains(&10));
    assert!(!set.contains(&30));
    assert!(set.remove(&10));
    assert!(!set.remove(&10));
    assert_eq!(set.len(), 1);
    assert!(!set.contains(&10));
}

#[test]
fn set_cascades_like_the_map() {
    let mut set = CivSet::with_config(3, 1, 4);
    for k in [3u64, 7, 1, 10, 14, 2] {
        assert!(set.insert(k));
    }
    assert_eq!(set.len(), 6);
    assert_eq!(set.tombs(), 0);
    assert!(!set.remove(&5));
    assert!(set.remove(&7));
    assert_eq!(set.len(), 5);
    assert_eq!(set.tombs(), 1);
    for k in [8u64, 12, 11, 6, 15, 9, 5, 4, 13] {
        set.insert(k);
    }
    let mut keys = set.filtered_iter();
    keys.sort();
    assert_eq!(keys, vec![1, 2, 3, 4, 5, 6, 8, 9, 10, 11, 12, 13, 14, 15]);
    assert_eq!(set.check_len(), 14);
}

#[test]
fn set_clear_and_reports() {
    let mut set = CivSet::new();
    for k in 0..100u64 {
        set.insert(k);
    }
    assert_eq!(set.len(), 100);
    assert!(set.max_capacity() >= 100);
    assert!(set.real_capacity() >= 64);
    set.statistics();
    set.shrink_to_fit();
    set.clear();
    assert_eq!(set.len(), 0);
    assert_eq!(set.tombs(), 0);
    assert!(set.filtered_iter().is_empty());
}

#[test]
fn set_differential_against_reference() {
    let mut ours = CivSet::with_config(4, 1, 4);
    let mut reference: BTreeSet<u64> = BTreeSet::new();
    let mut state: u64 = 0x9E3779B97F4A7C15;
    for _ in 0..3000u64 {
        state = state.wrapping_mul(6364136223846793005).wrapping_add(1442695040888963407);
        let key = (state >> 33) % 48;
        let op = (state >> 28) % 4;
        match op {
            0 | 1 => {
                assert_eq!(ours.insert(key), reference.insert(key));
            },
            2 => {
                assert_eq!(ours.remove(&key), reference.remove(&key));
            },
            _ => {
                assert_eq!(ours.contains(&key), reference.contains(&key));
            },
        }
        assert_eq!(ours.len(), reference.len());
    }
    let mut all = ours.filtered_iter();
    all.sort();
    let expected: Vec<u64> = reference.into_iter().collect();
    assert_eq!(all, expected);
}
