//! Point decompression on concrete curves.
use embassy::decompress::decompress_y;

const P256: [u8; 32] = [
    0xff, 0xff, 0xff, 0xff, 0x00, 0x00, 0x00, 0x01, 0x00, 0x00, 0x00, 0x00, 0x00, 0x00, 0x00, 0x00,
    0x00, 0x00, 0x00, 0x00, 0xff, 0xff, 0xff, 0xff, 0xff, 0xff, 0xff, 0xff, 0xff, 0xff, 0xff, 0xff,
];

const P256_B: [u8; 32] = [
    0x5a, 0xc6, 0x35, 0xd8, 0xaa, 0x3a, 0x93, 0xe7, 0xb3, 0xeb, 0xbd, 0x55, 0x76, 0x98, 0x86, 0xbc,
    0x65, 0x1d, 0x06, 0xb0, 0xcc, 0x53, 0xb0, 0xf6, 0x3b, 0xce, 0x3c, 0x3e, 0x27, 0xd2, 0x60, 0x4b,
];

const P256_X: [u8; 32] = [
    0x6b, 0x17, 0xd1, 0xf2, 0xe1, 0x2c, 0x42, 0x47, 0xf8, 0xbc, 0xe6, 0xe5, 0x63, 0xa4, 0x40, 0xf2,
    0x77, 0x03, 0x7d, 0x81, 0x2d, 0xeb, 0x33, 0xa0, 0xf4, 0xa1, 0x39, 0x45, 0xd8, 0x98, 0xc2, 0x96,
];

const P256_Y: [u8; 32] = [
    0x4f, 0xe3, 0x42, 0xe2, 0xfe, 0x1a, 0x7f, 0x9b, 0x8e, 0xe7, 0xeb, 0x4a, 0x7c, 0x0f, 0x9e, 0x16,
    0x2b, 0xce, 0x33, 0x57, 0x6b, 0x31, 0x5e, 0xce, 0xcb, 0xb6, 0x40, 0x68, 0x37, 0xbf, 0x51, 0xf5,
];

const P256_NEG_Y: [u8; 32] = [
    0xb0, 0x1c, 0xbd, 0x1c, 0x01, 0xe5, 0x80, 0x65, 0x71, 0x18, 0x14, 0xb5, 0x83, 0xf0, 0x61, 0xe9,
    0xd4, 0x31, 0xcc, 0xa9, 0x94, 0xce, 0xa1, 0x31, 0x34, 0x49, 0xbf, 0x97, 0xc8, 0x40, 0xae, 0x0a,
];

const P384: [u8; 48] = [
    0xff, 0xff, 0xff, 0xff, 0xff, 0xff, 0xff, 0xff, 0xff, 0xff, 0xff, 0xff, 0xff, 0xff, 0xff, 0xff,
    0xff, 0xff, 0xff, 0xff, 0xff, 0xff, 0xff, 0xff, 0xff, 0xff, 0xff, 0xff, 0xff, 0xff, 0xff, 0xfe,
    0xff, 0xff, 0xff, 0xff, 0x00, 0x00, 0x00, 0x00, 0x00, 0x00, 0x00, 0x00, 0xff, 0xff, 0xff, 0xff,
];

const P384_B: [u8; 48] = [
    0xb3, 0x31, 0x2f, 0xa7, 0xe2, 0x3e, 0xe7, 0xe4, 0x98, 0x8e, 0x05, 0x6b, 0xe3, 0xf8, 0x2d, 0x19,
    0x18, 0x1d, 0x9c, 0x6e, 0xfe, 0x81, 0x41, 0x12, 0x03, 0x14, 0x08, 0x8f, 0x50, 0x13, 0x87, 0x5a,
    0xc6, 0x56, 0x39, 0x8d, 0x8a, 0x2e, 0xd1, 0x9d, 0x2a, 0x85, 0xc8, 0xed, 0xd3, 0xec, 0x2a, 0xef,
];

const P384_X: [u8; 48] = [
    0xaa, 0x87, 0xca, 0x22, 0xbe, 0x8b, 0x05, 0x37, 0x8e, 0xb1, 0xc7, 0x1e, 0xf3, 0x20, 0xad, 0x74,
    0x6e, 0x1d, 0x3b, 0x62, 0x8b, 0xa7, 0x9b, 0x98, 0x59, 0xf7, 0x41, 0xe0, 0x82, 0x54, 0x2a, 0x38,
    0x55, 0x02, 0xf2, 0x5d, 0xbf, 0x55, 0x29, 0x6c, 0x3a, 0x54, 0x5e, 0x38, 0x72, 0x76, 0x0a, 0xb7,
];

const P384_Y: [u8; 48] = [
    0x36, 0x17, 0xde, 0x4a, 0x96, 0x26, 0x2c, 0x6f, 0x5d, 0x9e, 0x98, 0xbf, 0x92, 0x92, 0xdc, 0x29,
    0xf8, 0xf4, 0x1d, 0xbd, 0x28, 0x9a, 0x14, 0x7c, 0xe9, 0xda, 0x31, 0x13, 0xb5, 0xf0, 0xb8, 0xc0,
    0x0a, 0x60, 0xb1, 0xce, 0x1d, 0x7e, 0x81, 0x9d, 0x7a, 0x43, 0x1d, 0x7c, 0x90, 0xea, 0x0e, 0x5f,
];

const P384_NEG_Y: [u8; 48] = [
    0xc9, 0xe8, 0x21, 0xb5, 0x69, 0xd9, 0xd3, 0x90, 0xa2, 0x61, 0x67, 0x40, 0x6d, 0x6d, 0x23, 0xd6,
    0x07, 0x0b, 0xe2, 0x42, 0xd7, 0x65, 0xeb, 0x83, 0x16, 0x25, 0xce, 0xec, 0x4a, 0x0f, 0x47, 0x3e,
    0xf5, 0x9f, 0x4e, 0x30, 0xe2, 0x81, 0x7e, 0x62, 0x85, 0xbc, 0xe2, 0x84, 0x6f, 0x15, 0xf1, 0xa0,
];

/// The odd `y` on P-256 for `x = 5`.
const P256_Y5: [u8; 32] = [
    0xba, 0x6d, 0xbc, 0x45, 0x55, 0xa7, 0xe7, 0xfa, 0x01, 0x6e, 0xc4, 0x31, 0x66, 0x7e, 0x85, 0x21,
    0xee, 0x35, 0xaf, 0xc4, 0x9b, 0x26, 0x5c, 0x3a, 0xcc, 0xbe, 0xa3, 0xf7, 0xcd, 0xb7, 0x04, 0x33,
];

/// Decompresses over one-limb numbers: `None` if refused, in which case the output is left alone.
fn narrow(p: u32, b: u32, x: u32, odd: bool) -> Option<u32> {
    let mut y = [0xa5u8; 4];
    if decompress_y::<1>(&p.to_be_bytes(), &b.to_be_bytes(), &x.to_be_bytes(), odd, &mut y) {
        Some(u32::from_be_bytes(y))
    } else {
        assert_eq!(y, [0xa5u8; 4]);
        None
    }
}

/// `x^3 - 3x + b` modulo `p`, for `x` and `b` below the small `p`.
fn rhs(p: u32, b: u32, x: u32) -> u32 {
    (x * x * x + (p - 3) * x + b) % p
}

#[test]
fn p256_base_point() {
    let mut y = [0u8; 32];
    assert!(decompress_y::<8>(&P256, &P256_B, &P256_X, true, &mut y));
    assert_eq!(y, P256_Y);
    assert!(decompress_y::<8>(&P256, &P256_B, &P256_X, false, &mut y));
    assert_eq!(y, P256_NEG_Y);
}

#[test]
fn p384_base_point() {
    let mut y = [0u8; 48];
    assert!(decompress_y::<12>(&P384, &P384_B, &P384_X, true, &mut y));
    assert_eq!(y, P384_Y);
    assert!(decompress_y::<12>(&P384, &P384_B, &P384_X, false, &mut y));
    assert_eq!(y, P384_NEG_Y);
}

#[test]
fn p256_small_coordinates() {
    let mut x = [0u8; 32];
    let mut y = [0u8; 32];
    x[31] = 5;
    assert!(decompress_y::<8>(&P256, &P256_B, &x, true, &mut y));
    assert_eq!(y, P256_Y5);
    // No point has x = 1 or x = 2.
    for v in [1u8, 2] {
        x[31] = v;
        let before = y;
        assert!(!decompress_y::<8>(&P256, &P256_B, &x, true, &mut y));
        assert!(!decompress_y::<8>(&P256, &P256_B, &x, false, &mut y));
        assert_eq!(y, before);
    }
}

#[test]
fn x_at_or_above_the_modulus_is_refused() {
    let mut y = [0u8; 32];
    assert!(!decompress_y::<8>(&P256, &P256_B, &P256, true, &mut y));
    assert!(!decompress_y::<8>(&P256, &P256_B, &[0xff; 32], false, &mut y));
    assert_eq!(y, [0u8; 32]);
    // 2 is the x of a point modulo 7, 9 is not canonical.
    assert_eq!(narrow(7, 2, 2, false), Some(2));
    assert_eq!(narrow(7, 2, 9, false), None);
}

#[test]
fn every_point_over_small_primes() {
    for p in [3u32, 7, 11, 19, 23, 31, 43] {
        for b in 0..p {
            for x in 0..p {
                for odd in [false, true] {
                    let expected = (0..p).find(|y| y * y % p == rhs(p, b, x) && (y % 2 == 1) == odd);
                    assert_eq!(narrow(p, b, x, odd), expected);
                }
            }
        }
    }
}

#[test]
fn zero_root_has_no_odd_counterpart() {
    // 1 - 3 + 2 = 0
    assert_eq!(narrow(7, 2, 1, false), Some(0));
    assert_eq!(narrow(7, 2, 1, true), None);
}

#[test]
fn opposite_points_have_opposite_parity() {
    // 8 - 6 + 2 = 4
    assert_eq!(narrow(7, 2, 2, false), Some(2));
    assert_eq!(narrow(7, 2, 2, true), Some(5));
}

#[test]
fn coefficient_counts_modulo_p() {
    assert_eq!(narrow(7, 2 + 7 * 1000, 2, true), narrow(7, 2, 2, true));
    assert_eq!(narrow(7, 0xffff_ffff, 0, false), narrow(7, 3, 0, false));
}

#[test]
fn composite_modulus_accepts_only_checked_roots() {
    for p in [15u32, 27, 35] {
        for b in 0..p {
            for x in 0..p {
                let z = rhs(p, b, x);
                let c = (0..(p + 1) / 4).fold(1, |r, _| r * z % p);
                for odd in [false, true] {
                    let expected = if c * c % p != z {
                        None
                    } else if (c % 2 == 1) == odd {
                        Some(c)
                    } else if c != 0 {
                        Some(p - c)
                    } else {
                        None
                    };
                    assert_eq!(narrow(p, b, x, odd), expected);
                }
            }
        }
    }
}

#[test]
fn all_ones_modulus_uses_exponent_zero() {
    let p = 0xffff_ffff;
    assert_eq!(narrow(p, 1, 0, true), Some(1));
    assert_eq!(narrow(p, 1, 0, false), Some(p - 1));
    assert_eq!(narrow(p, 4, 0, false), None);
}

#[test]
fn leading_zero_limbs() {
    let wide = |v: u32| -> [u8; 8] {
        let mut out = [0u8; 8];
        out[4..].copy_from_slice(&v.to_be_bytes());
        out
    };
    let mut y = [0xffu8; 8];
    assert!(decompress_y::<2>(&wide(7), &wide(2), &wide(2), true, &mut y));
    assert_eq!(y, wide(5));
}
