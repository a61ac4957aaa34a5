//! Encoding of captured 16-bit audio into an uncompressed RIFF/WAVE container.
//!
//! The crate has three layers. [`little_endian`] says, as plain sequences of
//! bytes, how fixed-width integers are laid out. [`serialize`] holds the
//! [`BinarySerialize`] capability (an exact size and a write into a caller's
//! byte region) with its implementations for the integers and for a
//! homogeneous sequence. [`wav`] holds the sample buffer and the container
//! built on top of them, together with the laws of its layout.
pub mod little_endian;
pub mod serialize;
pub mod wav;

pub use serialize::BinarySerialize;
pub use wav::{WavFile, WavFormat};
