//! A reversible byte-substitution codec over a carrier byte sequence.
//!
//! An oracle maps every byte value to the offset of its first occurrence in
//! the carrier. A payload is rewritten as the offsets of its bytes, and read
//! back by looking each offset up in the same carrier. Offsets travel as
//! big-endian 32-bit words.

pub mod codec;
pub mod framing;
pub mod laws;
pub mod oracle;
pub mod pipeline;
