//! Limb arithmetic on concrete values.
use embassy::limbs::{add, from_be, lt, small, sub, to_be};

const MAX: u32 = 0xffff_ffff;

#[test]
fn from_be_reads_most_significant_byte_first() {
    let a: [u32; 2] = from_be(&[0x01, 0x02, 0x03, 0x04, 0xfa, 0xfb, 0xfc, 0xfd]);
    assert_eq!(a, [0xfafb_fcfd, 0x0102_0304]);
    let empty: [u32; 0] = from_be(&[]);
    assert_eq!(empty, [0u32; 0]);
}

#[test]
fn to_be_writes_most_significant_byte_first() {
    let mut out = [0xaau8; 8];
    to_be(&[0xfafb_fcfd, 0x0102_0304], &mut out);
    assert_eq!(out, [0x01, 0x02, 0x03, 0x04, 0xfa, 0xfb, 0xfc, 0xfd]);
}

#[test]
fn bytes_round_trip() {
    let a = [7u32, 0x8000_0000, MAX];
    let mut bytes = [0u8; 12];
    to_be(&a, &mut bytes);
    let back: [u32; 3] = from_be(&bytes);
    assert_eq!(back, a);

    let bytes = [0u8, 255, 1, 254, 2, 253, 3, 252];
    let a: [u32; 2] = from_be(&bytes);
    let mut back = [0u8; 8];
    to_be(&a, &mut back);
    assert_eq!(back, bytes);
}

#[test]
fn lt_compares_from_the_top() {
    assert!(lt(&[MAX, 1], &[0, 2]));
    assert!(!lt(&[0, 2], &[MAX, 1]));
    assert!(lt(&[4, 9], &[5, 9]));
    assert!(!lt(&[5, 9], &[5, 9]));
    assert!(!lt::<0>(&[], &[]));
}

#[test]
fn add_carries() {
    assert_eq!(add(&[MAX, 1], &[1, 2]), ([0, 4], false));
    assert_eq!(add(&[MAX, MAX], &[1, 0]), ([0, 0], true));
    assert_eq!(add(&[MAX, MAX], &[MAX, MAX]), ([MAX - 1, MAX], true));
}

#[test]
fn sub_borrows() {
    assert_eq!(sub(&[0, 4], &[1, 2]), ([MAX, 1], false));
    assert_eq!(sub(&[0, 0], &[1, 0]), ([MAX, MAX], true));
    assert_eq!(sub(&[3, 3], &[3, 3]), ([0, 0], false));
    assert_eq!(sub(&[0, 0], &[MAX, MAX]), ([1, 0], true));
}

#[test]
fn sub_undoes_add() {
    for (a, b) in [([1u32, 2], [3u32, 4]), ([MAX, MAX], [MAX, 0]), ([0, MAX], [MAX, MAX])] {
        let (sum, carry) = add(&a, &b);
        assert_eq!(sub(&sum, &b), (a, carry));
    }
}

#[test]
fn small_fills_the_lowest_limb() {
    assert_eq!(small::<3>(9), [9, 0, 0]);
    assert_eq!(small::<1>(MAX), [MAX]);
}
