//! Common types shared between the QSPI and sQSPI drivers.
use vstd::prelude::*;

verus! {

/// QSPI bus frequency.
#[derive(Debug, Copy, Clone, Eq, PartialEq, Structural)]
pub enum Frequency {
    /// 32 Mhz
    M32,
    /// 16 Mhz
    M16,
    /// 10.7 Mhz
    M10_7,
    /// 8 Mhz
    M8,
    /// 6.4 Mhz
    M6_4,
    /// 5.3 Mhz
    M5_3,
    /// 4.6 Mhz
    M4_6,
    /// 4 Mhz
    M4,
    /// 3.6 Mhz
    M3_6,
    /// 3.2 Mhz
    M3_2,
    /// 2.9 Mhz
    M2_9,
    /// 2.7 Mhz
    M2_7,
    /// 2.5 Mhz
    M2_5,
    /// 2.3 Mhz
    M2_3,
    /// 2.1 Mhz
    M2_1,
    /// 2 Mhz
    M2,
}

impl Frequency {
    /// The number that stands for the frequency.
    pub open spec fn spec_code(self) -> u8 {
        match self {
            Frequency::M32 => 0,
            Frequency::M16 => 1,
            Frequency::M10_7 => 2,
            Frequency::M8 => 3,
            Frequency::M6_4 => 4,
            Frequency::M5_3 => 5,
            Frequency::M4_6 => 6,
            Frequency::M4 => 7,
            Frequency::M3_6 => 8,
            Frequency::M3_2 => 9,
            Frequency::M2_9 => 10,
            Frequency::M2_7 => 11,
            Frequency::M2_5 => 12,
            Frequency::M2_3 => 13,
            Frequency::M2_1 => 14,
            Frequency::M2 => 15,
        }
    }

    /// The number that stands for the frequency: its position in the list, from the fastest down.
    pub fn code(self) -> (res: u8)
        ensures
            res == self.spec_code(),
            res == (match self {
                Frequency::M32 => 0u8,
                Frequency::M16 => 1u8,
                Frequency::M10_7 => 2u8,
                Frequency::M8 => 3u8,
                Frequency::M6_4 => 4u8,
                Frequency::M5_3 => 5u8,
                Frequency::M4_6 => 6u8,
                Frequency::M4 => 7u8,
                Frequency::M3_6 => 8u8,
                Frequency::M3_2 => 9u8,
                Frequency::M2_9 => 10u8,
                Frequency::M2_7 => 11u8,
                Frequency::M2_5 => 12u8,
                Frequency::M2_3 => 13u8,
                Frequency::M2_1 => 14u8,
                Frequency::M2 => 15u8,
            }),
    {
        self as u8
    }
}

/// No two frequencies share a number, and the numbers are those below 16.
pub proof fn law_frequency_codes(f: Frequency, g: Frequency)
    ensures
        f.spec_code() < 16,
        f.spec_code() == g.spec_code() ==> f == g,
{
}

/// SPI clock polarity.
#[derive(Debug, Copy, Clone, Eq, PartialEq, Structural)]
pub enum Polarity {
    /// Clock idle low.
    IdleLow,
    /// Clock idle high.
    IdleHigh,
}

/// SPI clock phase.
#[derive(Debug, Copy, Clone, Eq, PartialEq, Structural)]
pub enum Phase {
    /// Data captured on first clock edge.
    CaptureOnFirstTransition,
    /// Data captured on second clock edge.
    CaptureOnSecondTransition,
}

/// SPI mode (polarity + phase).
#[derive(Debug, Copy, Clone, Eq, PartialEq, Structural)]
pub struct Mode {
    /// Clock polarity.
    pub polarity: Polarity,
    /// Clock phase.
    pub phase: Phase,
}

/// SPI Mode 0: CPOL=0, CPHA=0.
pub fn mode_0() -> (mode: Mode)
    ensures
        mode == (Mode { polarity: Polarity::IdleLow, phase: Phase::CaptureOnFirstTransition }),
        mode.number() == 0,
{
    Mode { polarity: Polarity::IdleLow, phase: Phase::CaptureOnFirstTransition }
}

/// SPI Mode 1: CPOL=0, CPHA=1.
pub fn mode_1() -> (mode: Mode)
    ensures
        mode == (Mode { polarity: Polarity::IdleLow, phase: Phase::CaptureOnSecondTransition }),
        mode.number() == 1,
{
    Mode { polarity: Polarity::IdleLow, phase: Phase::CaptureOnSecondTransition }
}

/// SPI Mode 2: CPOL=1, CPHA=0.
pub fn mode_2() -> (mode: Mode)
    ensures
        mode == (Mode { polarity: Polarity::IdleHigh, phase: Phase::CaptureOnFirstTransition }),
        mode.number() == 2,
{
    Mode { polarity: Polarity::IdleHigh, phase: Phase::CaptureOnFirstTransition }
}

/// SPI Mode 3: CPOL=1, CPHA=1.
pub fn mode_3() -> (mode: Mode)
    ensures
        mode == (Mode { polarity: Polarity::IdleHigh, phase: Phase::CaptureOnSecondTransition }),
        mode.number() == 3,
{
    Mode { polarity: Polarity::IdleHigh, phase: Phase::CaptureOnSecondTransition }
}

impl Mode {
    /// The number of the mode: CPOL is its upper bit, CPHA its lower one.
    pub open spec fn number(self) -> nat {
        let cpol: nat = if self.polarity == Polarity::IdleHigh {
            1
        } else {
            0
        };
        let cpha: nat = if self.phase == Phase::CaptureOnSecondTransition {
            1
        } else {
            0
        };
        2 * cpol + cpha
    }
}

/// Modes are numbered 0 to 3, and a mode is determined by its number.
pub proof fn law_mode_numbers(m: Mode, n: Mode)
    ensures
        m.number() == 0 <==> m.polarity == Polarity::IdleLow && m.phase == Phase::CaptureOnFirstTransition,
        m.number() == 1 <==> m.polarity == Polarity::IdleLow && m.phase == Phase::CaptureOnSecondTransition,
        m.number() == 2 <==> m.polarity == Polarity::IdleHigh && m.phase == Phase::CaptureOnFirstTransition,
        m.number() == 3 <==> m.polarity == Polarity::IdleHigh && m.phase == Phase::CaptureOnSecondTransition,
        m.number() < 4,
        m.number() == n.number() ==> m == n,
{
}

/// Address mode (24-bit or 32-bit).
#[derive(Debug, Copy, Clone, Eq, PartialEq, Structural)]
pub enum AddressMode {
    /// 24-bit addressing (3 bytes).
    _24Bit,
    /// 32-bit addressing (4 bytes).
    _32Bit,
}

} // verus!
