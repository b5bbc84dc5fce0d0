use hampath::arith::{finalize, popcount, test_bit};

#[test]
fn add_reduces_with_one_subtraction() {
    assert_eq!(hampath::arith::add(7, 3, 5), 1);
    assert_eq!(hampath::arith::add(7, 3, 3), 6);
    assert_eq!(hampath::arith::add(1_000_000_007, 1_000_000_006, 1), 0);
    assert_eq!(hampath::arith::add(1_000_000_007, 999, 1000), 1999);
}

#[test]
fn add_wraps_under_sentinel_modulus() {
    assert_eq!(hampath::arith::add(0, u64::MAX, 1), 0);
    assert_eq!(hampath::arith::add(0, u64::MAX, 5), 4);
    assert_eq!(hampath::arith::add(0, 3, 4), 7);
}

#[test]
fn test_bit_reads_mask_bits() {
    assert!(test_bit(0b1010, 1));
    assert!(!test_bit(0b1010, 0));
    assert!(test_bit(0b1010, 3));
    assert!(!test_bit(0b1010, 4));
    assert!(test_bit(1u64 << 63, 63));
}

#[test]
fn popcount_counts_set_bits() {
    assert_eq!(popcount(0), 0);
    assert_eq!(popcount(1), 1);
    assert_eq!(popcount(0b1011_0110), 5);
    assert_eq!(popcount(u64::MAX), 64);
}

#[test]
fn finalize_sums_lanes() {
    let lanes = vec![1u64, 2, 3, 4, 5, 6, 7, 8];
    assert_eq!(finalize(0, &lanes), 36);
    assert_eq!(finalize(10, &lanes.iter().map(|x| x % 10).collect()), 6);
}

#[test]
fn finalize_wraps_under_sentinel_modulus() {
    let lanes = vec![u64::MAX, 2, 0, 0, 0, 0, 0, 0];
    assert_eq!(finalize(0, &lanes), 1);
}

#[test]
fn finalize_pairwise_fallback_for_huge_modulus() {
    let m = 0x4000_0000_0000_0001u64;
    let lanes = vec![m - 1, m - 1, m - 1, 2, 0, 0, 0, 0];
    // (3 (m - 1) + 2) mod m == m - 1.
    assert_eq!(finalize(m, &lanes), m - 1);
}
