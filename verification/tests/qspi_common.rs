//! The QSPI types.
use embassy::qspi_common::{mode_0, mode_1, mode_2, mode_3, AddressMode, Frequency, Mode, Phase, Polarity};

const FREQUENCIES: [Frequency; 16] = [
    Frequency::M32,
    Frequency::M16,
    Frequency::M10_7,
    Frequency::M8,
    Frequency::M6_4,
    Frequency::M5_3,
    Frequency::M4_6,
    Frequency::M4,
    Frequency::M3_6,
    Frequency::M3_2,
    Frequency::M2_9,
    Frequency::M2_7,
    Frequency::M2_5,
    Frequency::M2_3,
    Frequency::M2_1,
    Frequency::M2,
];

#[test]
fn frequencies_are_numbered_from_the_fastest() {
    for (i, f) in FREQUENCIES.iter().enumerate() {
        assert_eq!(f.code() as usize, i);
        assert_eq!(*f as u8, f.code());
    }
}

#[test]
fn distinct_frequencies_have_distinct_codes() {
    for f in FREQUENCIES {
        for g in FREQUENCIES {
            assert_eq!(f == g, f.code() == g.code());
        }
    }
}

#[test]
fn the_four_modes() {
    let (low, high) = (Polarity::IdleLow, Polarity::IdleHigh);
    let (first, second) = (Phase::CaptureOnFirstTransition, Phase::CaptureOnSecondTransition);
    assert_eq!(mode_0(), Mode { polarity: low, phase: first });
    assert_eq!(mode_1(), Mode { polarity: low, phase: second });
    assert_eq!(mode_2(), Mode { polarity: high, phase: first });
    assert_eq!(mode_3(), Mode { polarity: high, phase: second });
}

#[test]
fn address_modes_differ() {
    assert_ne!(AddressMode::_24Bit, AddressMode::_32Bit);
    assert_eq!(format!("{:?}", AddressMode::_24Bit), "_24Bit");
}
