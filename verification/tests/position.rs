use scqd::position::{lfring_cmp_le, lfring_cmp_lt, pow2, raw_map, threshold_value};

#[test]
fn counters_compare_across_the_wrap() {
    assert!(lfring_cmp_lt(1, 2));
    assert!(!lfring_cmp_lt(2, 2));
    assert!(!lfring_cmp_lt(3, 2));
    assert!(lfring_cmp_lt(u64::MAX, 3));
    assert!(!lfring_cmp_lt(3, u64::MAX));
    assert!(lfring_cmp_lt(0, 0x8000_0000_0000_0000));
    assert!(!lfring_cmp_lt(0, 0x8000_0000_0000_0001));
    assert!(lfring_cmp_le(5, 5));
    assert!(lfring_cmp_le(4, 5));
    assert!(!lfring_cmp_le(6, 5));
    assert!(lfring_cmp_le(u64::MAX, 0));
}

#[test]
fn powers_of_two() {
    assert_eq!(pow2(0), 1);
    assert_eq!(pow2(10), 1024);
    assert_eq!(pow2(18), 262144);
}

#[test]
fn threshold_is_three_halves_of_the_slots() {
    assert_eq!(threshold_value(8, 16), 23);
    assert_eq!(threshold_value(1, 2), 2);
}

#[test]
fn large_rings_spread_neighbours_over_cache_lines() {
    assert_eq!(raw_map(0, 8, 256), 0);
    assert_eq!(raw_map(1, 8, 256), 16);
    assert_eq!(raw_map(2, 8, 256), 32);
    assert_eq!(raw_map(15, 8, 256), 240);
    assert_eq!(raw_map(16, 8, 256), 1);
    assert_eq!(raw_map(0x5a, 8, 256), 0xa5);
    assert_eq!(raw_map(256 + 3, 8, 256), 48);
    assert_eq!(raw_map(37, 5, 32), 18);
}

#[test]
fn small_rings_use_positions_as_they_are() {
    for p in 0..40u64 {
        assert_eq!(raw_map(p, 0, 1), 0);
        assert_eq!(raw_map(p, 1, 2), (p % 2) as usize);
        assert_eq!(raw_map(p, 3, 8), (p % 8) as usize);
        assert_eq!(raw_map(p, 4, 16), (p % 16) as usize);
    }
}

#[test]
fn map_covers_twice_the_nominal_capacity() {
    assert_eq!(scqd::position::map(1, 7, 256), 16);
    assert_eq!(scqd::position::map(0x12, 7, 256), 0x21);
    assert_eq!(scqd::position::map(u64::MAX, 7, 256), 255);
}

#[test]
fn every_slot_is_hit_once_per_lap() {
    for order in 0..10usize {
        let n = pow2(order);
        let mut seen = vec![false; n];
        for p in 1000..1000 + n as u64 {
            let slot = raw_map(p, order, n);
            assert!(!seen[slot]);
            seen[slot] = true;
        }
    }
}
