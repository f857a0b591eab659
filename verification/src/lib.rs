//! Bit-level transform pipeline over fixed-capacity bit buffers.
//!
//! The core is a reversible transform: input bytes are interleaved with
//! filler bytes, packed into a fixed-capacity bit buffer, and scrambled by a
//! schedule of cyclic bit rotations over a partial-length bit ring.  A
//! companion inverse replays the schedule backwards and recovers the input,
//! exactly when capacity sufficed, or as a verifiable prefix when it did not.

pub mod ascii_codec;
pub mod bitarray;
mod bytesutil;
pub mod interleave;
pub mod keygen;
pub mod pipeline;
pub mod pipeline_decode;
pub mod pipeline_decode_v2;
pub mod pipeline_inverse;
pub mod pipeline_v2;
pub mod ppke;
pub mod schedule;
pub mod utf8util;

pub use bitarray::BitArray;
