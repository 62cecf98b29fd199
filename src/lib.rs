//! A true random number generator that draws its bits from jitter in CPU
//! instruction timing.
//!
//! The generator keeps one 32-byte block of whitened entropy and a cursor
//! into it. When the block is used up it gathers 256 timing deltas from a
//! [`JitterSource`] and hashes them into a fresh block.
pub mod decode;
pub mod generator;
pub mod whiten;

pub use generator::{JitterSource, Jitterbug};
pub use whiten::whiten;
