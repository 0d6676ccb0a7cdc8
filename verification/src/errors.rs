//! Failure kinds of the decoder.

use vstd::prelude::*;

verus! {

/// The precise reason a decode stage failed. Kept distinct inside the crate
/// so that each stage's contract can say exactly which inputs produce which
/// failure; the top-level entry points collapse it into [`ParseError`].
#[derive(Clone, Copy, Debug, PartialEq, Eq, Structural)]
pub enum DecodeError {
    /// The buffer ended before a fixed-size field or a declared-length label
    /// could be fully read.
    Truncated,
    /// A label's bytes are not valid UTF-8, or a name had no labels before
    /// its terminating zero byte.
    InvalidEncoding,
    /// The response-code nibble of the flags word is outside 0..=3.
    InvalidFlags,
}

/// The single failure the top-level decode reports: the bytes could not be
/// parsed as a DNS message. The cause is deliberately not exposed here.
#[derive(Clone, Copy, Debug, PartialEq, Eq, Structural)]
pub struct ParseError;

impl ParseError {
    /// A human-readable account of the failure, in place of `Display`.
    pub fn describe(&self) -> (r: String)
        ensures
            r@ == "the provided bytes could not be parsed as a DNS message"@,
    {
        String::from_str("the provided bytes could not be parsed as a DNS message")
    }
}

} // verus!
