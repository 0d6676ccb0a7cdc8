//! The mathematical model of the wire format. Every executable decoding
//! function in [`crate::parser`] is proved to return exactly what these
//! functions say, so this module is the single place where the format is
//! written down.
//!
//! All multi-byte fields are big-endian. A domain name is a run of
//! length-prefixed labels ended by a zero length byte; the zero byte is not
//! consumed, so the two 16-bit fields of a question are read starting at the
//! terminator itself.

use vstd::prelude::*;
use vstd::utf8::{decode_utf8, valid_utf8};

use crate::errors::DecodeError;
use crate::message::{Flags, Header, QueryResponse, ResponseCode, SpecMessage, SpecQuery};

verus! {

/// The 16-bit big-endian value of bytes `i` and `i + 1` of `b`.
pub open spec fn spec_word(b: Seq<u8>, i: int) -> u16
    recommends
        0 <= i && i + 2 <= b.len(),
{
    (b[i] * 256 + b[i + 1]) as u16
}

/// What the 16-bit flags word decodes to: bit 15 picks the message type,
/// the low nibble must be one of the four response codes, and the eleven
/// bits in between are discarded unexamined.
pub open spec fn spec_flags(w: u16) -> Result<Flags, DecodeError> {
    let message_type = if w >> 15 == 0 {
        QueryResponse::Query
    } else {
        QueryResponse::Response
    };
    let nibble = w & 0xf;
    if nibble == 0 {
        Ok(Flags { message_type, response_code: ResponseCode::NoError })
    } else if nibble == 1 {
        Ok(Flags { message_type, response_code: ResponseCode::FormatError })
    } else if nibble == 2 {
        Ok(Flags { message_type, response_code: ResponseCode::ServerError })
    } else if nibble == 3 {
        Ok(Flags { message_type, response_code: ResponseCode::NameError })
    } else {
        Err(DecodeError::InvalidFlags)
    }
}

/// The low nibble of the flags word alone decides acceptance: 0..=3 map in
/// order to the four response codes, and every nibble 4..=15 fails. Bit 15
/// alone decides the message type.
pub proof fn lemma_response_code(w: u16)
    ensures
        spec_flags(w) is Ok <==> w & 0xf <= 3,
        w & 0xf == 0 ==> spec_flags(w)->Ok_0.response_code == ResponseCode::NoError,
        w & 0xf == 1 ==> spec_flags(w)->Ok_0.response_code == ResponseCode::FormatError,
        w & 0xf == 2 ==> spec_flags(w)->Ok_0.response_code == ResponseCode::ServerError,
        w & 0xf == 3 ==> spec_flags(w)->Ok_0.response_code == ResponseCode::NameError,
        spec_flags(w) is Ok ==> spec_flags(w)->Ok_0.message_type == (if w >> 15 == 0 {
            QueryResponse::Query
        } else {
            QueryResponse::Response
        }),
{
}

/// What the first 12 bytes of `b` decode to. Fails with `Truncated` when
/// fewer than 12 bytes are there; the only other check is the flags word.
pub open spec fn spec_header(b: Seq<u8>) -> Result<Header, DecodeError> {
    if b.len() < 12 {
        Err(DecodeError::Truncated)
    } else {
        match spec_flags(spec_word(b, 2)) {
            Ok(flags) => Ok(
                Header {
                    transaction_id: spec_word(b, 0),
                    flags,
                    num_questions: spec_word(b, 4),
                    num_answers: spec_word(b, 6),
                    num_authorities: spec_word(b, 8),
                    num_additionals: spec_word(b, 10),
                },
            ),
            Err(e) => Err(e),
        }
    }
}

/// The labels of the name starting at `pos`, with the position of its zero
/// terminator. Reading stops at the terminator without consuming it. Each
/// label must lie inside the buffer and be valid UTF-8.
pub open spec fn spec_labels(b: Seq<u8>, pos: int) -> Result<(Seq<Seq<u8>>, int), DecodeError>
    recommends
        0 <= pos,
    decreases b.len() - pos,
{
    if pos >= b.len() {
        Err(DecodeError::Truncated)
    } else if b[pos] == 0 {
        Ok((Seq::empty(), pos))
    } else if pos + 1 + b[pos] as int > b.len() {
        Err(DecodeError::Truncated)
    } else {
        let label = b.subrange(pos + 1, pos + 1 + b[pos] as int);
        if !valid_utf8(label) {
            Err(DecodeError::InvalidEncoding)
        } else {
            match spec_labels(b, pos + 1 + b[pos] as int) {
                Ok((rest, end)) => Ok((seq![label] + rest, end)),
                Err(e) => Err(e),
            }
        }
    }
}

/// The labels' characters joined with `.`: no leading or trailing dot, and
/// no escaping of dots inside a label.
pub open spec fn spec_join(labels: Seq<Seq<u8>>) -> Seq<char>
    decreases labels.len(),
{
    if labels.len() == 0 {
        Seq::empty()
    } else if labels.len() == 1 {
        decode_utf8(labels[0])
    } else {
        decode_utf8(labels[0]) + seq!['.'] + spec_join(labels.drop_first())
    }
}

/// `r` with the labels `acc` prepended to its label sequence: what the whole
/// name decodes to when `acc` has been read already and `r` is the decoding
/// of the rest.
pub open spec fn labels_then(
    acc: Seq<Seq<u8>>,
    r: Result<(Seq<Seq<u8>>, int), DecodeError>,
) -> Result<(Seq<Seq<u8>>, int), DecodeError> {
    match r {
        Ok((labels, end)) => Ok((acc + labels, end)),
        Err(e) => Err(e),
    }
}

/// Joining one more label appends a dot (unless the name was empty so far)
/// and the label's characters.
pub proof fn lemma_join_push(labels: Seq<Seq<u8>>, l: Seq<u8>)
    ensures
        labels.len() == 0 ==> spec_join(labels.push(l)) == decode_utf8(l),
        labels.len() > 0 ==> spec_join(labels.push(l)) == spec_join(labels) + seq!['.']
            + decode_utf8(l),
    decreases labels.len(),
{
    if labels.len() == 0 {
        assert(labels.push(l)[0] == l);
    } else {
        assert(labels.push(l).drop_first() =~= labels.drop_first().push(l));
        lemma_join_push(labels.drop_first(), l);
        assert(labels.push(l)[0] == labels[0]);
        assert(spec_join(labels.push(l)) =~= spec_join(labels) + seq!['.'] + decode_utf8(l));
    }
}

/// The dot-joined name starting at `pos`, with the position of its zero
/// terminator. A name with no labels at all is rejected.
pub open spec fn spec_name(b: Seq<u8>, pos: int) -> Result<(Seq<char>, int), DecodeError> {
    match spec_labels(b, pos) {
        Ok((labels, end)) => if labels.len() == 0 {
            Err(DecodeError::InvalidEncoding)
        } else {
            Ok((spec_join(labels), end))
        },
        Err(e) => Err(e),
    }
}

/// A decoded name ends at its zero terminator, which lies strictly inside
/// the buffer, at or after where the name began.
pub proof fn lemma_labels_end(b: Seq<u8>, pos: int)
    requires
        spec_labels(b, pos) is Ok,
    ensures
        pos <= spec_labels(b, pos)->Ok_0.1 < b.len(),
        b[spec_labels(b, pos)->Ok_0.1] == 0,
    decreases b.len() - pos,
{
    if pos < b.len() && b[pos] != 0 {
        lemma_labels_end(b, pos + 1 + b[pos] as int);
    }
}

/// A length byte whose declared run extends past the end of the buffer
/// makes the whole name fail as truncated.
pub proof fn lemma_name_overrun(b: Seq<u8>, pos: int)
    requires
        0 <= pos < b.len(),
        b[pos] != 0,
        pos + 1 + b[pos] as int > b.len(),
    ensures
        spec_name(b, pos) == Err::<(Seq<char>, int), DecodeError>(DecodeError::Truncated),
{
}

/// A name that ends at once — its first byte is already the zero
/// terminator — has no labels and is rejected as invalid.
pub proof fn lemma_empty_name_rejected(b: Seq<u8>, pos: int)
    requires
        0 <= pos < b.len(),
        b[pos] == 0,
    ensures
        spec_name(b, pos) == Err::<(Seq<char>, int), DecodeError>(DecodeError::InvalidEncoding),
{
}

/// The question starting at `pos`, with the position just past it: a name,
/// then the resource type and class read as the two 16-bit words starting at
/// the name's terminator.
pub open spec fn spec_question(b: Seq<u8>, pos: int) -> Result<(SpecQuery, int), DecodeError> {
    match spec_name(b, pos) {
        Ok((name, end)) => if end + 4 > b.len() {
            Err(DecodeError::Truncated)
        } else {
            Ok(
                (
                    SpecQuery {
                        name,
                        resource_type: spec_word(b, end),
                        class: spec_word(b, end + 2),
                    },
                    end + 4,
                ),
            )
        },
        Err(e) => Err(e),
    }
}

/// The run of `n` questions starting at `pos`, in wire order, with the
/// position just past the last one.
pub open spec fn spec_questions(b: Seq<u8>, pos: int, n: nat) -> Result<
    (Seq<SpecQuery>, int),
    DecodeError,
>
    decreases n,
{
    if n == 0 {
        Ok((Seq::empty(), pos))
    } else {
        match spec_question(b, pos) {
            Ok((q, end)) => match spec_questions(b, end, (n - 1) as nat) {
                Ok((rest, end2)) => Ok((seq![q] + rest, end2)),
                Err(e) => Err(e),
            },
            Err(e) => Err(e),
        }
    }
}

/// `r` with the questions `acc` prepended to its question sequence: what the
/// whole section decodes to when `acc` has been read already and `r` is the
/// decoding of the questions still to come.
pub open spec fn questions_then(
    acc: Seq<SpecQuery>,
    r: Result<(Seq<SpecQuery>, int), DecodeError>,
) -> Result<(Seq<SpecQuery>, int), DecodeError> {
    match r {
        Ok((queries, end)) => Ok((acc + queries, end)),
        Err(e) => Err(e),
    }
}

/// A successfully decoded question section holds exactly as many questions
/// as were asked for.
pub proof fn lemma_questions_len(b: Seq<u8>, pos: int, n: nat)
    requires
        spec_questions(b, pos, n) is Ok,
    ensures
        spec_questions(b, pos, n)->Ok_0.0.len() == n,
    decreases n,
{
    if n > 0 {
        let end = spec_question(b, pos)->Ok_0.1;
        lemma_questions_len(b, end, (n - 1) as nat);
    }
}

/// What a whole buffer decodes to: the header, then exactly
/// `num_questions` questions from byte 12 on. Bytes past the last question
/// are ignored.
pub open spec fn spec_message(b: Seq<u8>) -> Result<SpecMessage, DecodeError> {
    match spec_header(b) {
        Ok(header) => match spec_questions(b, 12, header.num_questions as nat) {
            Ok((queries, _end)) => Ok(SpecMessage { header, queries }),
            Err(e) => Err(e),
        },
        Err(e) => Err(e),
    }
}

/// A successfully decoded name never depends on bytes past the ones it
/// read: appending anything to the buffer leaves its decoding unchanged.
pub proof fn lemma_labels_prefix(b: Seq<u8>, ext: Seq<u8>, pos: int)
    requires
        0 <= pos,
        spec_labels(b, pos) is Ok,
    ensures
        spec_labels(b + ext, pos) == spec_labels(b, pos),
    decreases b.len() - pos,
{
    let c = b + ext;
    assert(c[pos] == b[pos]);
    if b[pos] != 0 {
        let len = b[pos] as int;
        assert(c.subrange(pos + 1, pos + 1 + len) =~= b.subrange(pos + 1, pos + 1 + len));
        lemma_labels_prefix(b, ext, pos + 1 + len);
    }
}

/// A successfully decoded question never depends on bytes past the ones it
/// read.
pub proof fn lemma_question_prefix(b: Seq<u8>, ext: Seq<u8>, pos: int)
    requires
        0 <= pos,
        spec_question(b, pos) is Ok,
    ensures
        spec_question(b + ext, pos) == spec_question(b, pos),
{
    let c = b + ext;
    lemma_labels_prefix(b, ext, pos);
    lemma_labels_end(b, pos);
    let end = spec_labels(b, pos)->Ok_0.1;
    assert(c[end] == b[end] && c[end + 1] == b[end + 1] && c[end + 2] == b[end + 2] && c[end + 3]
        == b[end + 3]);
}

/// A successfully decoded question section never depends on bytes past the
/// ones it read.
pub proof fn lemma_questions_prefix(b: Seq<u8>, ext: Seq<u8>, pos: int, n: nat)
    requires
        0 <= pos,
        spec_questions(b, pos, n) is Ok,
    ensures
        spec_questions(b + ext, pos, n) == spec_questions(b, pos, n),
    decreases n,
{
    if n > 0 {
        lemma_question_prefix(b, ext, pos);
        lemma_labels_end(b, pos);
        let end = spec_question(b, pos)->Ok_0.1;
        lemma_questions_prefix(b, ext, end, (n - 1) as nat);
    }
}

/// A successful decode reads nothing beyond the prefix it consumed: however
/// the buffer is extended, the message decodes to the same value. Together
/// with the bounds checks Verus enforces on the executable decoder, this is
/// what makes declared counts harmless — they can cause a failure, never a
/// read past the end.
pub proof fn lemma_message_prefix(b: Seq<u8>, ext: Seq<u8>)
    requires
        spec_message(b) is Ok,
    ensures
        spec_message(b + ext) == spec_message(b),
{
    let c = b + ext;
    assert forall|i: int| 0 <= i < b.len() implies c[i] == b[i] by {}
    assert(spec_header(c) == spec_header(b));
    let n = spec_header(b)->Ok_0.num_questions;
    lemma_questions_prefix(b, ext, 12, n as nat);
}

} // verus!
