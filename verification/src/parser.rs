//! The executable decoder. Each stage consumes a prefix of the buffer and is
//! proved to return exactly what the corresponding function of
//! [`crate::wire`] says, for every input.

use vstd::prelude::*;
use vstd::slice::slice_subrange;
use vstd::string::StringExecFns;
use vstd::utf8::{decode_utf8, valid_utf8};

use crate::errors::{DecodeError, ParseError};
use crate::message::{Flags, Header, Message, Query, QueryResponse, ResponseCode, SpecQuery};
use crate::wire::{labels_then, lemma_join_push, lemma_labels_end, lemma_questions_len,
    questions_then, spec_flags, spec_header, spec_join, spec_labels, spec_message, spec_name,
    spec_question, spec_questions, spec_word};

verus! {

/// Relies on `std::str::from_utf8`: it returns a string slice exactly when
/// the bytes are valid UTF-8, and that slice's characters are the bytes'
/// decoding.
#[verifier::external_body]
fn utf8_str(bytes: &[u8]) -> (r: Option<&str>)
    ensures
        r is Some <==> valid_utf8(bytes@),
        r matches Some(s) ==> s@ == decode_utf8(bytes@),
{
    std::str::from_utf8(bytes).ok()
}

/// The 16-bit big-endian value of the byte pair `(a, b)`.
pub fn byte_pair_to_u16(a: u8, b: u8) -> (r: u16)
    ensures
        r == a * 256 + b,
{
    proof {
        assert((a as u16) << 8 == a * 256) by (bit_vector);
    }
    ((a as u16) << 8) + (b as u16)
}

/// Decodes the length-prefixed, zero-terminated domain name starting at
/// `pos`, returning its dot-joined labels and the position of the zero
/// terminator, which is left unconsumed.
pub fn parse_name(input: &[u8], pos: usize) -> (r: Result<(String, usize), DecodeError>)
    ensures
        match spec_name(input@, pos as int) {
            Ok((name, end)) => r matches Ok(p) && p.0@ == name && p.1 == end,
            Err(e) => r matches Err(e2) && e2 == e,
        },
{
    if pos > input.len() {
        return Err(DecodeError::Truncated);
    }
    let mut cur: usize = pos;
    let mut name = String::new();
    let mut n_labels: usize = 0;
    let ghost mut acc: Seq<Seq<u8>> = Seq::empty();
    proof {
        match spec_labels(input@, pos as int) {
            Ok((ls, e)) => {
                assert(Seq::<Seq<u8>>::empty() + ls =~= ls);
            },
            Err(_) => {},
        }
    }
    loop
        invariant
            pos <= cur <= input@.len(),
            n_labels <= cur,
            n_labels == acc.len(),
            labels_then(acc, spec_labels(input@, cur as int)) == spec_labels(input@, pos as int),
            name@ == spec_join(acc),
        decreases input@.len() - cur,
    {
        if cur >= input.len() {
            return Err(DecodeError::Truncated);
        }
        let len = input[cur] as usize;
        if len == 0 {
            proof {
                assert(acc + Seq::<Seq<u8>>::empty() =~= acc);
            }
            if n_labels == 0 {
                return Err(DecodeError::InvalidEncoding);
            }
            return Ok((name, cur));
        }
        if len + 1 > input.len() - cur {
            return Err(DecodeError::Truncated);
        }
        let label_bytes = slice_subrange(input, cur + 1, cur + 1 + len);
        let ghost label = input@.subrange(cur + 1, cur + 1 + len as int);
        match utf8_str(label_bytes) {
            None => {
                return Err(DecodeError::InvalidEncoding);
            },
            Some(s) => {
                if n_labels > 0 {
                    name.append(".");
                }
                name.append(s);
                proof {
                    reveal_strlit(".");
                    assert("."@ =~= seq!['.']);
                    lemma_join_push(acc, label);
                    assert(name@ =~= spec_join(acc.push(label)));
                    match spec_labels(input@, cur + 1 + len as int) {
                        Ok((rest, e)) => {
                            assert(acc.push(label) + rest =~= acc + (seq![label] + rest));
                        },
                        Err(_) => {},
                    }
                    acc = acc.push(label);
                }
                n_labels = n_labels + 1;
                cur = cur + 1 + len;
            },
        }
    }
}

impl Flags {
    /// Unpacks the first two bytes of `input` as the flags word.
    pub fn from_bytes(input: &[u8]) -> (r: Result<Flags, DecodeError>)
        ensures
            r == (if input@.len() < 2 {
                Err::<Flags, DecodeError>(DecodeError::Truncated)
            } else {
                spec_flags(spec_word(input@, 0))
            }),
    {
        if input.len() < 2 {
            return Err(DecodeError::Truncated);
        }
        let word = byte_pair_to_u16(input[0], input[1]);
        let message_type = if word >> 15 == 0 {
            QueryResponse::Query
        } else {
            QueryResponse::Response
        };
        let nibble = word & 0xf;
        if nibble == 0 {
            Ok(Flags { message_type, response_code: ResponseCode::NoError })
        } else if nibble == 1 {
            Ok(Flags { message_type, response_code: ResponseCode::FormatError })
        } else if nibble == 2 {
            Ok(Flags { message_type, response_code: ResponseCode::ServerError })
        } else if nibble == 3 {
            Ok(Flags { message_type, response_code: ResponseCode::NameError })
        } else {
            Err(DecodeError::InvalidFlags)
        }
    }
}

impl Header {
    /// Decodes the fixed 12-byte header at the start of `input`.
    pub fn from_bytes(input: &[u8]) -> (r: Result<Header, DecodeError>)
        ensures
            r == spec_header(input@),
    {
        if input.len() < 12 {
            return Err(DecodeError::Truncated);
        }
        let flags = match Flags::from_bytes(slice_subrange(input, 2, 4)) {
            Ok(f) => f,
            Err(e) => {
                return Err(e);
            },
        };
        Ok(
            Header {
                transaction_id: byte_pair_to_u16(input[0], input[1]),
                flags,
                num_questions: byte_pair_to_u16(input[4], input[5]),
                num_answers: byte_pair_to_u16(input[6], input[7]),
                num_authorities: byte_pair_to_u16(input[8], input[9]),
                num_additionals: byte_pair_to_u16(input[10], input[11]),
            },
        )
    }
}

impl Query {
    /// Decodes the question starting at `pos`: a name, then the two 16-bit
    /// words starting at the name's zero terminator. Returns the question
    /// and the position just past it.
    pub fn from_bytes(input: &[u8], pos: usize) -> (r: Result<(Query, usize), DecodeError>)
        ensures
            match spec_question(input@, pos as int) {
                Ok((q, end)) => r matches Ok(p) && p.0@ == q && p.1 == end,
                Err(e) => r matches Err(e2) && e2 == e,
            },
    {
        let (name, end) = match parse_name(input, pos) {
            Ok(p) => p,
            Err(e) => {
                return Err(e);
            },
        };
        proof {
            lemma_labels_end(input@, pos as int);
        }
        if input.len() - end < 4 {
            return Err(DecodeError::Truncated);
        }
        let resource_type = byte_pair_to_u16(input[end], input[end + 1]);
        let class = byte_pair_to_u16(input[end + 2], input[end + 3]);
        Ok((Query { name, resource_type, class }, end + 4))
    }
}

/// Decodes `num_questions` consecutive questions starting at `pos`,
/// preserving wire order. Returns them with the position just past the last.
pub fn parse_queries(num_questions: u16, input: &[u8], pos: usize) -> (r: Result<
    (Vec<Query>, usize),
    DecodeError,
>)
    ensures
        match spec_questions(input@, pos as int, num_questions as nat) {
            Ok((qs, end)) => r matches Ok(p) && p.0@.map_values(|q: Query| q@) == qs && p.1
                == end,
            Err(e) => r matches Err(e2) && e2 == e,
        },
{
    let mut queries: Vec<Query> = Vec::new();
    let mut cur: usize = pos;
    let ghost mut acc: Seq<SpecQuery> = Seq::empty();
    proof {
        match spec_questions(input@, pos as int, num_questions as nat) {
            Ok((qs, e)) => {
                assert(Seq::<SpecQuery>::empty() + qs =~= qs);
            },
            Err(_) => {},
        }
        assert(queries@.map_values(|q: Query| q@) =~= acc);
    }
    let n = num_questions as usize;
    for i in 0..n
        invariant
            n == num_questions,
            queries@.len() == i,
            queries@.map_values(|q: Query| q@) == acc,
            questions_then(acc, spec_questions(input@, cur as int, (n - i) as nat))
                == spec_questions(input@, pos as int, num_questions as nat),
    {
        let (q, end) = match Query::from_bytes(input, cur) {
            Ok(p) => p,
            Err(e) => {
                return Err(e);
            },
        };
        proof {
            match spec_questions(input@, end as int, (n - i - 1) as nat) {
                Ok((rest, e)) => {
                    assert(acc + (seq![q@] + rest) =~= acc.push(q@) + rest);
                },
                Err(_) => {},
            }
            assert(queries@.push(q).map_values(|qq: Query| qq@) =~= acc.push(q@));
            acc = acc.push(q@);
        }
        queries.push(q);
        cur = end;
    }
    proof {
        assert(acc + Seq::<SpecQuery>::empty() =~= acc);
    }
    Ok((queries, cur))
}

impl Message {
    /// Decodes a whole message: the header, then exactly
    /// `header.num_questions` questions from byte 12 on. Bytes past the last
    /// question are ignored. All failure causes collapse into [`ParseError`].
    pub fn from_bytes(input: &[u8]) -> (r: Result<Message, ParseError>)
        ensures
            match spec_message(input@) {
                Ok(m) => r matches Ok(msg) && msg@ == m && msg.queries@.len()
                    == msg.header.num_questions,
                Err(_) => r is Err,
            },
    {
        let header = match Header::from_bytes(input) {
            Ok(h) => h,
            Err(_) => {
                return Err(ParseError);
            },
        };
        let queries = match parse_queries(header.num_questions, input, 12) {
            Ok(p) => p.0,
            Err(_) => {
                return Err(ParseError);
            },
        };
        proof {
            lemma_questions_len(input@, 12, header.num_questions as nat);
        }
        Ok(Message { header, queries })
    }
}

/// Decodes `message` as a DNS message; the top-level entry point.
pub fn parse(message: &[u8]) -> (r: Result<Message, ParseError>)
    ensures
        match spec_message(message@) {
            Ok(m) => r matches Ok(msg) && msg@ == m && msg.queries@.len()
                == msg.header.num_questions,
            Err(_) => r is Err,
        },
{
    Message::from_bytes(message)
}

/// Decodes `input` as a DNS message; the explicitly named form of
/// [`parse`], with the same contract.
pub fn parse_message(input: &[u8]) -> (r: Result<Message, ParseError>)
    ensures
        match spec_message(input@) {
            Ok(m) => r matches Ok(msg) && msg@ == m && msg.queries@.len()
                == msg.header.num_questions,
            Err(_) => r is Err,
        },
{
    Message::from_bytes(input)
}

} // verus!
