//! Integer low-discrepancy sequence generators.
//!
//! The Van der Corput sequence maps a running counter to the reversal of its
//! base-`b` digits, scaled to the integer range `[0, base^scale)`; the Halton
//! sequence pairs two such generators in distinct bases.  All arithmetic is
//! exact integer arithmetic, so the sequences are reproducible bit for bit on
//! every platform.

pub mod ilds;
pub mod radical;

pub use ilds::Halton;
pub use ilds::VdCorput;
