use civs::civmap::CivMap;
use civs::civset::CivSet;
use civs::codec::{CivMapIoError, CivSetIoError};

fn populated_map() -> CivMap {
    let mut map = CivMap::with_config(3, 1, 4);
    for k in [3u64, 7, 1, 10, 14, 2, 8, 12, 11] {
        map.insert(k, k * 2);
    }
    map.remove(&7);
    map.remove(&10);
    map
}

#[test]
fn snapshot_round_trip() {
    let map = populated_map();
    let bytes = map.to_bytes();
    let loaded = match CivMap::from_bytes(&bytes) {
        Ok(m) => m,
        Err(_) => panic!("the snapshot must load"),
    };
    assert_eq!(loaded.len(), map.len());
    assert_eq!(loaded.tombs(), map.tombs());
    for k in 0..20u64 {
        assert_eq!(loaded.contains(&k), map.contains(&k));
        assert_eq!(loaded.get(&k), map.get(&k));
    }
    // the reloaded engine re-encodes to the same bytes
    assert_eq!(loaded.to_bytes(), bytes);
    // and it still works as a map
    let mut loaded = loaded;
    loaded.insert(100, 1);
    assert!(loaded.contains(&100));
}

#[test]
fn snapshot_round_trip_empty() {
    let map = CivMap::new();
    let bytes = map.to_bytes();
    let loaded = match CivMap::from_bytes(&bytes) {
        Ok(m) => m,
        Err(_) => panic!("the snapshot must load"),
    };
    assert_eq!(loaded.len(), 0);
    assert_eq!(loaded.tombs(), 0);
}

#[test]
fn snapshot_header_layout() {
    let map = CivMap::new();
    let bytes = map.to_bytes();
    assert_eq!(&bytes[0..4], b"CIVM");
    // version 0.1, little endian
    assert_eq!(&bytes[4..8], &[0, 0, 0, 0]);
    assert_eq!(&bytes[8..12], &[1, 0, 0, 0]);
    // hot slot capacity 64 as the first body field
    assert_eq!(&bytes[12..20], &[64, 0, 0, 0, 0, 0, 0, 0]);
}

#[test]
fn load_version_mismatch() {
    let map = populated_map();
    let mut bytes = map.to_bytes();
    // claim major 1, minor 0
    bytes[4] = 1;
    bytes[8] = 0;
    assert_eq!(CivMap::from_bytes(&bytes).err(), Some(CivMapIoError::InvalidVersion(1, 0)));
}

#[test]
fn load_bad_magic_and_truncation() {
    let map = populated_map();
    let bytes = map.to_bytes();
    let mut wrong = bytes.clone();
    wrong[0] = b'X';
    assert_eq!(CivMap::from_bytes(&wrong).err(), Some(CivMapIoError::InvalidHeader));
    let short: Vec<u8> = bytes[0..3].to_vec();
    assert_eq!(CivMap::from_bytes(&short).err(), Some(CivMapIoError::ReadHeader));
    let header_only: Vec<u8> = bytes[0..10].to_vec();
    assert_eq!(CivMap::from_bytes(&header_only).err(), Some(CivMapIoError::ReadHeader));
    let truncated: Vec<u8> = bytes[0..bytes.len() - 1].to_vec();
    assert!(CivMap::from_bytes(&truncated).is_err());
}

#[test]
fn load_rejects_wrong_field_widths() {
    let map = populated_map();
    let bytes = map.to_bytes();
    // the key-size field of the hot slot section sits after magic,
    // version and the capacity word
    let mut wrong = bytes.clone();
    wrong[20] = 4;
    assert_eq!(CivMap::from_bytes(&wrong).err(), Some(CivMapIoError::SizeMismatch(0, 8, 4)));
    let mut wrong = bytes.clone();
    wrong[28] = 2;
    assert_eq!(CivMap::from_bytes(&wrong).err(), Some(CivMapIoError::SizeMismatch(1, 8, 2)));
}

#[test]
fn set_snapshot_round_trip() {
    let mut set = CivSet::with_config(3, 1, 4);
    for k in [3u64, 7, 1, 10, 14, 2, 8] {
        set.insert(k);
    }
    set.remove(&7);
    let bytes = set.to_bytes();
    assert_eq!(&bytes[0..4], b"CIVS");
    let loaded = match CivSet::from_bytes(&bytes) {
        Ok(s) => s,
        Err(_) => panic!("the snapshot must load"),
    };
    assert_eq!(loaded.len(), set.len());
    assert_eq!(loaded.tombs(), set.tombs());
    for k in 0..20u64 {
        assert_eq!(loaded.contains(&k), set.contains(&k));
    }
    assert_eq!(loaded.to_bytes(), bytes);
    // a set snapshot is not a map snapshot
    assert_eq!(CivMap::from_bytes(&bytes).err(),
        Some(CivMapIoError::InvalidHeader));
    // and the version gate holds for sets too
    let mut wrong = bytes.clone();
    wrong[4] = 1;
    wrong[8] = 0;
    assert_eq!(CivSet::from_bytes(&wrong).err(), Some(CivSetIoError::InvalidVersion(1, 0)));
}
