//! A reversible codec that renders arbitrary bytes as a string of symbols
//! drawn from a fixed 2048-entry alphabet (11 bits per symbol), with a small
//! tail alphabet for a trailing remainder of 1 to 3 bits.
//!
//! The bit-packing core is specified against a mathematical model of bit
//! sequences, and decoding is proved to invert encoding at the symbol level.

pub mod bits;
pub mod token;
pub mod machine;
pub mod alphabet;
pub mod encode;
pub mod decode;
pub mod segment;
pub mod stream;
pub mod laws;

pub use alphabet::Alphabet;
pub use token::Token;
pub use encode::encode;
pub use decode::{decode, decode_symbols, DecodeError};
pub use segment::{split_graphemes, GraphemeReader};
pub use stream::{StreamEncoder, TokenDecoder};
pub use machine::lemma_round_trip;
pub use laws::{lemma_encode_then_decode, lemma_foreign_rejected, lemma_encode_empty};
