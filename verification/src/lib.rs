//! CRC32 checksums over a configurable generator polynomial, and patches
//! of four bytes that force the checksum of a byte stream to a chosen
//! value, appended to the stream or inserted into it.
//!
//! The arithmetic is that of polynomials over GF(2), held in machine words
//! of 32, 64 and 128 bits in reflected bit order. Contracts are stated over
//! polynomials as natural numbers:
//!
//! - `gf2`, `gf2_ring`, `gf2_div`, `gf2_inverse`: the polynomials, their
//!   ring laws, division with remainder, inverses and powers;
//! - `bits`, `reverse`, `schoolbook`: bit reversal, and what the bitwise
//!   operations on words do to the polynomials they hold;
//! - `math`, `division`, `mixed`, `inverse`, `power`, `display`: the
//!   polynomial type and its operations;
//! - `crc_model`, `bit_serial`, `forge_model`: what a checksum and a forged
//!   patch are, and why the patch reaches its target;
//! - `crc`: the engine that computes them;
//! - `error`: the failures.

pub mod error;
pub mod gf2;
pub mod gf2_ring;
pub mod gf2_div;
pub mod gf2_inverse;
pub mod bits;
pub mod reverse;
pub mod schoolbook;
pub mod math;
pub mod division;
pub mod mixed;
pub mod inverse;
pub mod power;
pub mod display;
pub mod crc_model;
pub mod forge_model;
pub mod bit_serial;
pub mod crc;
