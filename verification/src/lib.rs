//! Decoder for the question section of a DNS message.
//!
//! The wire format is a fixed 12-byte header (transaction id, a 16-bit flags
//! word, four section counts) followed by `num_questions` question records,
//! each a length-prefixed domain name and two 16-bit fields. `wire` holds the
//! mathematical model of that format; `parser` holds the executable decoder,
//! proved to agree with the model byte for byte; `encode` holds a
//! specification-level encoder and the proof that decoding a well-formed
//! encoding gives back exactly what was encoded.

pub mod encode;
pub mod errors;
pub mod message;
pub mod parser;
pub mod wire;
