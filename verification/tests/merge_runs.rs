use civs::flags::Flags;
use civs::level::merge_sort;

#[test]
fn merge_sort_1() {
    let mut data: Vec<u64> = vec![1, 3, 5, 7, 9, 11, 13, 15, 2, 4, 6, 8, 10, 12, 14, 16];
    let mut flags = Flags::nulls(16);
    for i in 8..16 {
        flags.set(i);
    }
    assert_eq!(flags.words()[0], 0b1111111100000000);
    merge_sort(&mut data, &mut flags, 8);
    println!("{:b}", flags.words()[0]);
    println!("{:?}", data);
    assert_eq!(*flags.words(), vec![0b1010101010101010]);
    assert_eq!(data, vec![1, 2, 3, 4, 5, 6, 7, 8, 9, 10, 11, 12, 13, 14, 15, 16]);
}

#[test]
fn merge_sort_2() {
    let mut data: Vec<u64> = vec![1, 3, 5, 7, 10, 12, 15, 16, 2, 4, 6, 8, 9, 11, 13, 14];
    let mut flags = Flags::nulls(16);
    for i in 8..16 {
        flags.set(i);
    }
    merge_sort(&mut data, &mut flags, 8);
    println!("{:b}", flags.words()[0]);
    println!("{:?}", data);
    assert_eq!(*flags.words(), vec![0b11010110101010]);
    assert_eq!(data, vec![1, 2, 3, 4, 5, 6, 7, 8, 9, 10, 11, 12, 13, 14, 15, 16]);
}

#[test]
fn bitset_operations() {
    let mut f = Flags::nulls(100);
    assert_eq!(f.popcount(), 0);
    f.set(0);
    f.set(63);
    f.set(64);
    f.set(99);
    assert_eq!(f.popcount(), 4);
    assert!(f.get(63));
    assert!(!f.get(62));
    f.unset(63);
    assert!(!f.get(63));
    assert_eq!(f.popcount(), 3);
    f.set_ones(65);
    assert_eq!(f.popcount(), 65);
    assert!(f.get(64));
    assert!(!f.get(65));
    f.set_nulls();
    assert_eq!(f.popcount(), 0);
    let g = Flags::ones(64);
    assert_eq!(g.words()[0], u64::MAX);
    assert_eq!(g.words()[1], 0);
}

#[test]
fn set_ones_clears_every_later_bit() {
    // bits far past the requested prefix are cleared, not kept
    let mut f = Flags::nulls(192);
    f.set(130);
    f.set(5);
    f.set_ones(3);
    assert_eq!(f.popcount(), 3);
    assert!(f.get(0) && f.get(1) && f.get(2));
    assert!(!f.get(3));
    assert!(!f.get(5));
    assert!(!f.get(130));
    // a short mask grows as needed
    let mut g = Flags::nulls(10);
    g.set_ones(100);
    assert_eq!(g.popcount(), 100);
    assert!(g.get(99));
    assert!(!g.get(100));
}
