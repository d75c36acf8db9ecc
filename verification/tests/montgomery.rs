//! Montgomery arithmetic on concrete values.
use embassy::montgomery::Field;

const MAX: u32 = 0xffff_ffff;

const P256: [u32; 8] = [MAX, MAX, MAX, 0, 0, 0, 1, MAX];
const P384: [u32; 12] = [MAX, 0, 0, MAX, 0xffff_fffe, MAX, MAX, MAX, MAX, MAX, MAX, MAX];

/// The X coordinate of the base point of P-256.
const X: [u32; 8] = [
    0xd898c296, 0xf4a13945, 0x2deb33a0, 0x77037d81, 0x63a440f2, 0xf8bce6e5, 0xe12c4247, 0x6b17d1f2,
];

#[test]
fn new_computes_the_constants() {
    let f = Field::new([7u32]);
    assert_eq!((f.p, f.m0, f.r2), ([7], 1227133513, [2]));
    let f = Field::new([4294967291u32]);
    assert_eq!((f.m0, f.r2), (0xcccccccd, [0x19]));
    let f = Field::new(P256);
    assert_eq!(f.m0, 1);
    assert_eq!(f.r2, [3, 0, MAX, 0xfffffffb, 0xfffffffe, MAX, 0xfffffffd, 4]);
    let f = Field::new(P384);
    assert_eq!(f.m0, 1);
    assert_eq!(f.r2, [1, 0xfffffffe, 0, 2, 0, 0xfffffffe, 0, 2, 1, 0, 0, 0]);
}

#[test]
fn add_and_sub_reduce() {
    let f = Field::new([7u32]);
    assert_eq!(f.add(&[5], &[4]), [2]);
    assert_eq!(f.add(&[3], &[4]), [0]);
    assert_eq!(f.add(&[2], &[4]), [6]);
    assert_eq!(f.sub(&[4], &[5]), [6]);
    assert_eq!(f.sub(&[5], &[4]), [1]);
    assert_eq!(f.sub(&[5], &[5]), [0]);
}

#[test]
fn add_reduces_a_sum_that_carries() {
    let f = Field::new([4294967291u32]);
    assert_eq!(f.add(&[4294967290], &[4294967290]), [4294967289]);
    assert_eq!(f.sub(&[0], &[4294967290]), [1]);
}

#[test]
fn add_and_sub_wrap_outside_the_canonical_range() {
    let f = Field::new([7u32]);
    assert_eq!(f.add(&[MAX], &[MAX]), [0xfffffff7]);
    assert_eq!(f.sub(&[0], &[MAX]), [8]);
}

#[test]
fn add_and_sub_undo_each_other() {
    let f = Field::new([11u32]);
    for a in 0u32..11 {
        for b in 0u32..11 {
            assert_eq!(f.sub(&f.add(&[a], &[b]), &[b]), [a]);
            assert_eq!(f.add(&f.sub(&[a], &[b]), &[b]), [a]);
        }
    }
}

#[test]
fn mul_divides_by_the_radix() {
    let f = Field::new([7u32]);
    assert_eq!(f.mul(&[5], &[6]), [4]);
    assert_eq!(f.mul(&[MAX], &[3]), [4]);
    assert_eq!(f.mul(&[0], &[3]), [0]);
}

#[test]
fn mul_subtracts_the_modulus_once() {
    assert_eq!(Field::new([7u32]).mul(&[MAX], &[MAX]), [4294967289]);
    assert_eq!(Field::new([4294967291u32]).mul(&[MAX], &[0xfffffffe]), [0x99999999]);
}

#[test]
fn enter_and_leave_are_inverse() {
    let f = Field::new([7u32]);
    assert_eq!(f.enter(&[5]), [6]);
    assert_eq!(f.leave(&[5]), [3]);
    assert_eq!(f.enter(&[MAX]), [5]);
    for a in 0u32..7 {
        assert_eq!(f.leave(&f.enter(&[a])), [a]);
        assert_eq!(f.enter(&f.leave(&[a])), [a]);
    }
    let f = Field::new(P256);
    let form = [
        0x18a9143c, 0x79e730d4, 0x5fedb601, 0x75ba95fc, 0x77622510, 0x79fb732b, 0xa53755c6, 0x18905f76,
    ];
    assert_eq!(f.enter(&X), form);
    assert_eq!(f.leave(&form), X);
}

#[test]
fn operations_on_forms() {
    let f = Field::new([11u32]);
    for a in 0u32..11 {
        for b in 0u32..11 {
            let (fa, fb) = (f.enter(&[a]), f.enter(&[b]));
            assert_eq!(f.leave(&f.mul(&fa, &fb)), [a * b % 11]);
            assert_eq!(f.leave(&f.add(&fa, &fb)), [(a + b) % 11]);
            assert_eq!(f.leave(&f.sub(&fa, &fb)), [(a + 11 - b) % 11]);
        }
    }
}

#[test]
fn mul_squares_a_wide_number() {
    let f = Field::new(P256);
    let xm = f.enter(&X);
    let square = [
        0x426b3f8c, 0x002ae56c, 0x5d694dd1, 0x33b69949, 0x0e3690d8, 0x81819a5e, 0x29bef2b2, 0x98f6b84d,
    ];
    assert_eq!(f.leave(&f.mul(&xm, &xm)), square);
}

#[test]
fn pow_reads_every_bit_of_the_exponent() {
    let f = Field::new([7u32]);
    assert_eq!(f.pow(&[5], &[5]), [6]);
    let a = f.enter(&[3]);
    assert_eq!(f.leave(&f.pow(&a, &[0])), [1]);
    assert_eq!(f.leave(&f.pow(&a, &[1])), [3]);
    assert_eq!(f.leave(&f.pow(&a, &[0x8000_0000])), [2]);
    assert_eq!(f.leave(&f.pow(&f.enter(&[0]), &[0])), [1]);

    // Fermat: the power p - 2 is the inverse.
    let f = Field::new(P256);
    let exponent = [0xfffffffd, MAX, MAX, 0, 0, 0, 1, MAX];
    let inverse = [
        0x77f35238, 0x664c49e5, 0x73744b65, 0x707d6562, 0xb69b16ab, 0x24936933, 0x88706d5d, 0xe060cbb0,
    ];
    assert_eq!(f.leave(&f.pow(&f.enter(&X), &exponent)), inverse);
}
