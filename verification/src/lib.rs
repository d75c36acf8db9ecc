//! Point decompression for embedded elliptic-curve code, and types shared by the QSPI drivers.
//!
//! * [`limbs`]: fixed-width numbers as little-endian 32-bit limbs.
//! * [`montgomery`]: Montgomery arithmetic modulo an odd number.
//! * [`decompress`]: recovering `y` from `x` on `y^2 = x^3 - 3x + b`.
//! * [`qspi_common`]: bus frequencies, SPI modes and address modes.
//!
//! [`digits`], [`modular`] and [`prime`] hold the mathematics that the contracts are stated in.
//!
//! Nothing here is constant-time: apply it to public points only.

pub mod decompress;
pub mod digits;
pub mod limbs;
pub mod modular;
pub mod montgomery;
pub mod prime;
pub mod qspi_common;
