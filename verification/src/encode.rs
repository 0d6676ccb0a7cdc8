//! A specification-level encoder for the wire format, and the round-trip
//! law: a well-formed encoding of any message decodes successfully, back to
//! exactly the values that were encoded, whatever bytes follow it. Nothing
//! here is executable; the encoder exists only to state and prove the
//! decoder's completeness.

use vstd::arithmetic::div_mod::lemma_fundamental_div_mod;
use vstd::prelude::*;
use vstd::utf8::valid_utf8;

use crate::errors::DecodeError;
use crate::message::{Flags, Header, QueryResponse, ResponseCode, SpecMessage, SpecQuery};
use crate::wire::{spec_flags, spec_header, spec_join, spec_labels, spec_message, spec_question,
    spec_questions, spec_word};

verus! {

/// A question before encoding: the name kept as its labels, and the two
/// 16-bit codes.
pub struct QuestionDesc {
    pub labels: Seq<Seq<u8>>,
    pub resource_type: u16,
    pub class: u16,
}

/// A message before encoding. The question count is not a field: the header
/// always carries `questions.len()`.
pub struct MessageDesc {
    pub transaction_id: u16,
    pub flags: Flags,
    pub num_answers: u16,
    pub num_authorities: u16,
    pub num_additionals: u16,
    pub questions: Seq<QuestionDesc>,
}

/// Labels the format can carry: each short enough for its length byte, not
/// empty, and valid UTF-8.
pub open spec fn wf_labels(ls: Seq<Seq<u8>>) -> bool {
    forall|i: int|
        0 <= i < ls.len() ==> 1 <= (#[trigger] ls[i]).len() <= 255 && valid_utf8(ls[i])
}

/// A question the format can carry. The resource type must fit in one byte:
/// the decoder reads that field as the two bytes starting at the name's
/// zero terminator, so its high byte on the wire is always the terminator.
pub open spec fn wf_question(q: QuestionDesc) -> bool {
    q.labels.len() > 0 && wf_labels(q.labels) && q.resource_type < 256
}

/// A message the format can carry: every question well formed, and few
/// enough of them for the 16-bit count.
pub open spec fn wf_message(d: MessageDesc) -> bool {
    &&& d.questions.len() <= u16::MAX
    &&& forall|i: int| 0 <= i < d.questions.len() ==> wf_question(#[trigger] d.questions[i])
}

/// A 16-bit value as its two big-endian bytes.
pub open spec fn encode_u16(w: u16) -> Seq<u8> {
    seq![(w / 256) as u8, (w % 256) as u8]
}

/// The flags word for a flags value, with the reserved bits zero.
pub open spec fn encode_flags(f: Flags) -> u16 {
    let m: u16 = match f.message_type {
        QueryResponse::Query => 0,
        QueryResponse::Response => 1,
    };
    let c: u16 = match f.response_code {
        ResponseCode::NoError => 0,
        ResponseCode::FormatError => 1,
        ResponseCode::ServerError => 2,
        ResponseCode::NameError => 3,
    };
    (m * 0x8000 + c) as u16
}

/// The labels of a name, each preceded by its length byte; the terminator
/// is not included here.
pub open spec fn encode_labels(ls: Seq<Seq<u8>>) -> Seq<u8>
    decreases ls.len(),
{
    if ls.len() == 0 {
        Seq::empty()
    } else {
        seq![ls[0].len() as u8] + ls[0] + encode_labels(ls.drop_first())
    }
}

/// One question: the name's labels, the zero terminator, and the three
/// further bytes the decoder reads together with the terminator as the
/// resource type and class.
pub open spec fn encode_question(q: QuestionDesc) -> Seq<u8> {
    encode_labels(q.labels) + seq![
        0u8,
        q.resource_type as u8,
        (q.class / 256) as u8,
        (q.class % 256) as u8,
    ]
}

/// The question section, in order.
pub open spec fn encode_questions(qs: Seq<QuestionDesc>) -> Seq<u8>
    decreases qs.len(),
{
    if qs.len() == 0 {
        Seq::empty()
    } else {
        encode_question(qs[0]) + encode_questions(qs.drop_first())
    }
}

/// A whole message: the 12-byte header, then the questions.
pub open spec fn encode_message(d: MessageDesc) -> Seq<u8> {
    encode_u16(d.transaction_id) + encode_u16(encode_flags(d.flags)) + encode_u16(
        d.questions.len() as u16,
    ) + encode_u16(d.num_answers) + encode_u16(d.num_authorities) + encode_u16(d.num_additionals)
        + encode_questions(d.questions)
}

/// The structured value that a question's encoding stands for.
pub open spec fn desc_query(q: QuestionDesc) -> SpecQuery {
    SpecQuery { name: spec_join(q.labels), resource_type: q.resource_type, class: q.class }
}

/// The structured value that a message's encoding stands for.
pub open spec fn desc_message(d: MessageDesc) -> SpecMessage {
    SpecMessage {
        header: Header {
            transaction_id: d.transaction_id,
            flags: d.flags,
            num_questions: d.questions.len() as u16,
            num_answers: d.num_answers,
            num_authorities: d.num_authorities,
            num_additionals: d.num_additionals,
        },
        queries: d.questions.map_values(|q: QuestionDesc| desc_query(q)),
    }
}

/// Two big-endian bytes of a word read back as that word.
proof fn lemma_word_roundtrip(b: Seq<u8>, i: int, w: u16)
    requires
        0 <= i,
        i + 2 <= b.len(),
        b[i] == (w / 256) as u8,
        b[i + 1] == (w % 256) as u8,
    ensures
        spec_word(b, i) == w,
{
    lemma_fundamental_div_mod(w as int, 256);
}

/// An encoded flags value decodes back to itself.
proof fn lemma_flags_roundtrip(f: Flags)
    ensures
        spec_flags(encode_flags(f)) == Ok::<Flags, DecodeError>(f),
{
    let m: u16 = match f.message_type {
        QueryResponse::Query => 0,
        QueryResponse::Response => 1,
    };
    let c: u16 = match f.response_code {
        ResponseCode::NoError => 0,
        ResponseCode::FormatError => 1,
        ResponseCode::ServerError => 2,
        ResponseCode::NameError => 3,
    };
    let w = encode_flags(f);
    assert(w == m * 0x8000 + c);
    assert(w >> 15 == m && w & 0xf == c) by (bit_vector)
        requires
            m <= 1,
            c <= 3,
            w == m * 0x8000 + c,
    ;
}

/// Encoded labels followed by a zero byte decode back to those labels, with
/// the terminator as the end position.
proof fn lemma_labels_roundtrip(b: Seq<u8>, pos: int, ls: Seq<Seq<u8>>)
    requires
        wf_labels(ls),
        0 <= pos,
        pos + encode_labels(ls).len() < b.len(),
        b.subrange(pos, pos + encode_labels(ls).len() as int) == encode_labels(ls),
        b[pos + encode_labels(ls).len()] == 0,
    ensures
        spec_labels(b, pos) == Ok::<(Seq<Seq<u8>>, int), DecodeError>(
            (ls, pos + encode_labels(ls).len()),
        ),
    decreases ls.len(),
{
    let e = encode_labels(ls);
    assert forall|k: int| 0 <= k < e.len() implies b[pos + k] == e[k] by {
        assert(b.subrange(pos, pos + e.len() as int)[k] == e[k]);
    }
    if ls.len() == 0 {
        assert(ls =~= Seq::<Seq<u8>>::empty());
    } else {
        let l0 = ls[0];
        let rest = ls.drop_first();
        let e1 = encode_labels(rest);
        assert(e =~= seq![l0.len() as u8] + l0 + e1);
        assert(1 <= l0.len() <= 255 && valid_utf8(l0));
        assert(b[pos + 0] == e[0]);
        assert(b[pos] == l0.len() as u8);
        assert(b[pos] as int == l0.len());
        let pos1 = pos + 1 + l0.len();
        assert(b.subrange(pos + 1, pos + 1 + l0.len() as int) =~= l0) by {
            assert forall|k: int| 0 <= k < l0.len() implies b.subrange(
                pos + 1,
                pos + 1 + l0.len() as int,
            )[k] == l0[k] by {
                assert(b[pos + 1 + k] == e[1 + k]);
            }
        }
        assert(b.subrange(pos1, pos1 + e1.len() as int) =~= e1) by {
            assert forall|k: int| 0 <= k < e1.len() implies b.subrange(
                pos1,
                pos1 + e1.len() as int,
            )[k] == e1[k] by {
                assert(b[pos1 + k] == e[1 + l0.len() + k]);
            }
        }
        lemma_labels_roundtrip(b, pos1, rest);
        assert(seq![l0] + rest =~= ls);
    }
}

/// An encoded question decodes back to its structured value, ending just
/// past its four final bytes.
proof fn lemma_question_roundtrip(b: Seq<u8>, pos: int, q: QuestionDesc)
    requires
        wf_question(q),
        0 <= pos,
        pos + encode_question(q).len() <= b.len(),
        b.subrange(pos, pos + encode_question(q).len() as int) == encode_question(q),
    ensures
        spec_question(b, pos) == Ok::<(SpecQuery, int), DecodeError>(
            (desc_query(q), pos + encode_question(q).len()),
        ),
{
    let e = encode_question(q);
    let el = encode_labels(q.labels);
    assert forall|k: int| 0 <= k < e.len() implies b[pos + k] == e[k] by {
        assert(b.subrange(pos, pos + e.len() as int)[k] == e[k]);
    }
    let tail = seq![0u8, q.resource_type as u8, (q.class / 256) as u8, (q.class % 256) as u8];
    assert(e =~= el + tail);
    let end = pos + el.len();
    assert(b[pos + el.len() as int] == e[el.len() as int]);
    assert(b[pos + (el.len() + 1)] == e[el.len() as int + 1]);
    assert(b[pos + (el.len() + 2)] == e[el.len() as int + 2]);
    assert(b[pos + (el.len() + 3)] == e[el.len() as int + 3]);
    assert(b[end] == 0);
    assert(b.subrange(pos, pos + el.len() as int) =~= el) by {
        assert forall|k: int| 0 <= k < el.len() implies b.subrange(
            pos,
            pos + el.len() as int,
        )[k] == el[k] by {
            assert(b[pos + k] == e[k]);
        }
    }
    lemma_labels_roundtrip(b, pos, q.labels);
    assert(b[end + 1] == q.resource_type as u8);
    assert(spec_word(b, end) == q.resource_type);
    assert(b[end + 2] == (q.class / 256) as u8 && b[end + 3] == (q.class % 256) as u8);
    lemma_word_roundtrip(b, end + 2, q.class);
}

/// An encoded run of questions decodes back to its structured values, in
/// order.
proof fn lemma_questions_roundtrip(b: Seq<u8>, pos: int, qs: Seq<QuestionDesc>)
    requires
        forall|i: int| 0 <= i < qs.len() ==> wf_question(#[trigger] qs[i]),
        0 <= pos,
        pos + encode_questions(qs).len() <= b.len(),
        b.subrange(pos, pos + encode_questions(qs).len() as int) == encode_questions(qs),
    ensures
        spec_questions(b, pos, qs.len() as nat) == Ok::<(Seq<SpecQuery>, int), DecodeError>(
            (qs.map_values(|q: QuestionDesc| desc_query(q)), pos + encode_questions(qs).len()),
        ),
    decreases qs.len(),
{
    let e = encode_questions(qs);
    assert forall|k: int| 0 <= k < e.len() implies b[pos + k] == e[k] by {
        assert(b.subrange(pos, pos + e.len() as int)[k] == e[k]);
    }
    if qs.len() == 0 {
        assert(qs.map_values(|q: QuestionDesc| desc_query(q)) =~= Seq::<SpecQuery>::empty());
    } else {
        let q0 = qs[0];
        let rest = qs.drop_first();
        let e0 = encode_question(q0);
        let e1 = encode_questions(rest);
        assert(e =~= e0 + e1);
        assert(b.subrange(pos, pos + e0.len() as int) =~= e0) by {
            assert forall|k: int| 0 <= k < e0.len() implies b.subrange(
                pos,
                pos + e0.len() as int,
            )[k] == e0[k] by {
                assert(b[pos + k] == e[k]);
            }
        }
        lemma_question_roundtrip(b, pos, q0);
        let pos1 = pos + e0.len();
        assert(b.subrange(pos1, pos1 + e1.len() as int) =~= e1) by {
            assert forall|k: int| 0 <= k < e1.len() implies b.subrange(
                pos1,
                pos1 + e1.len() as int,
            )[k] == e1[k] by {
                assert(b[pos1 + k] == e[e0.len() + k]);
            }
        }
        lemma_questions_roundtrip(b, pos1, rest);
        assert(seq![desc_query(q0)] + rest.map_values(|q: QuestionDesc| desc_query(q)) =~= qs
            .map_values(|q: QuestionDesc| desc_query(q)));
    }
}

/// The round-trip law: any buffer that begins with the well-formed encoding
/// of a message decodes successfully — whatever bytes follow the encoding —
/// and every decoded field equals the encoded value, with exactly
/// `questions.len()` questions.
pub proof fn lemma_message_roundtrip(b: Seq<u8>, d: MessageDesc)
    requires
        wf_message(d),
        encode_message(d).len() <= b.len(),
        b.subrange(0, encode_message(d).len() as int) == encode_message(d),
    ensures
        spec_message(b) == Ok::<SpecMessage, DecodeError>(desc_message(d)),
        desc_message(d).queries.len() == d.questions.len(),
{
    let e = encode_message(d);
    let n: u16 = d.questions.len() as u16;
    let eq = encode_questions(d.questions);
    let eh = encode_u16(d.transaction_id) + encode_u16(encode_flags(d.flags)) + encode_u16(n)
        + encode_u16(d.num_answers) + encode_u16(d.num_authorities) + encode_u16(
        d.num_additionals,
    );
    assert forall|k: int| 0 <= k < e.len() implies b[k] == e[k] by {
        assert(b.subrange(0, e.len() as int)[k] == e[k]);
    }
    assert(e =~= eh + eq);
    assert(eh =~= seq![
        (d.transaction_id / 256) as u8,
        (d.transaction_id % 256) as u8,
        (encode_flags(d.flags) / 256) as u8,
        (encode_flags(d.flags) % 256) as u8,
        (n / 256) as u8,
        (n % 256) as u8,
        (d.num_answers / 256) as u8,
        (d.num_answers % 256) as u8,
        (d.num_authorities / 256) as u8,
        (d.num_authorities % 256) as u8,
        (d.num_additionals / 256) as u8,
        (d.num_additionals % 256) as u8,
    ]);
    lemma_word_roundtrip(b, 0, d.transaction_id);
    lemma_word_roundtrip(b, 2, encode_flags(d.flags));
    lemma_word_roundtrip(b, 4, n);
    lemma_word_roundtrip(b, 6, d.num_answers);
    lemma_word_roundtrip(b, 8, d.num_authorities);
    lemma_word_roundtrip(b, 10, d.num_additionals);
    lemma_flags_roundtrip(d.flags);
    assert(spec_header(b) == Ok::<Header, DecodeError>(desc_message(d).header));
    assert(b.subrange(12, 12 + eq.len() as int) =~= eq) by {
        assert forall|k: int| 0 <= k < eq.len() implies b.subrange(12, 12 + eq.len() as int)[k]
            == eq[k] by {
            assert(b[12 + k] == e[12 + k]);
        }
    }
    lemma_questions_roundtrip(b, 12, d.questions);
    assert(desc_message(d).queries =~= d.questions.map_values(|q: QuestionDesc| desc_query(q)));
}

} // verus!
