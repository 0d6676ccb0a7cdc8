//! The decoded, in-memory form of a DNS message: a header and the question
//! section. All values are immutable once built and compare structurally.

use vstd::prelude::*;

verus! {

/// Whether the message is a query or a response, from bit 15 of the flags
/// word (0 = query, 1 = response).
#[derive(Clone, Copy, Debug, PartialEq, Eq, Structural)]
pub enum QueryResponse {
    Query,
    Response,
}

/// The status carried in the low nibble of the flags word. Only the values
/// 0..=3 are accepted; any other nibble fails the decode.
#[derive(Clone, Copy, Debug, PartialEq, Eq, Structural)]
pub enum ResponseCode {
    NoError,
    FormatError,
    ServerError,
    NameError,
}

/// The bit-level subfields of the 16-bit flags word. The eleven bits between
/// the type bit and the code nibble are reserved and discarded.
#[derive(Clone, Copy, Debug, PartialEq, Eq, Structural)]
pub struct Flags {
    pub message_type: QueryResponse,
    pub response_code: ResponseCode,
}

/// The fixed 12-byte message header. The transaction id is an opaque
/// correlation token; the four counts say how many records of each section
/// follow, of which only `num_questions` is consumed by this decoder.
#[derive(Clone, Copy, Debug, PartialEq, Eq, Structural)]
pub struct Header {
    pub transaction_id: u16,
    pub flags: Flags,
    pub num_questions: u16,
    pub num_answers: u16,
    pub num_authorities: u16,
    pub num_additionals: u16,
}

/// One question record: a domain name rendered as its dot-joined labels,
/// and two opaque 16-bit codes.
#[derive(Debug)]
pub struct Query {
    pub name: String,
    pub resource_type: u16,
    pub class: u16,
}

/// A decoded message: the header and the questions in wire order. After a
/// successful decode, `queries.len() == header.num_questions`.
#[derive(Debug)]
pub struct Message {
    pub header: Header,
    pub queries: Vec<Query>,
}

/// The mathematical value of a question: the name as a character sequence.
pub struct SpecQuery {
    pub name: Seq<char>,
    pub resource_type: u16,
    pub class: u16,
}

/// The mathematical value of a message.
pub struct SpecMessage {
    pub header: Header,
    pub queries: Seq<SpecQuery>,
}

impl View for Query {
    type V = SpecQuery;

    open spec fn view(&self) -> SpecQuery {
        SpecQuery { name: self.name@, resource_type: self.resource_type, class: self.class }
    }
}

impl View for Message {
    type V = SpecMessage;

    open spec fn view(&self) -> SpecMessage {
        SpecMessage {
            header: self.header,
            queries: self.queries@.map_values(|q: Query| q@),
        }
    }
}

impl PartialEq for Query {
    fn eq(&self, other: &Query) -> bool {
        self.name == other.name && self.resource_type == other.resource_type
            && self.class == other.class
    }
}

impl vstd::std_specs::cmp::PartialEqSpecImpl for Query {
    open spec fn obeys_eq_spec() -> bool {
        true
    }

    open spec fn eq_spec(&self, other: &Query) -> bool {
        self@ == other@
    }
}

impl PartialEq for Message {
    fn eq(&self, other: &Message) -> (r: bool) {
        if !(self.header == other.header) {
            return false;
        }
        if self.queries.len() != other.queries.len() {
            return false;
        }
        let n = self.queries.len();
        for i in 0..n
            invariant
                n == self.queries.len() == other.queries.len(),
                forall|j: int| 0 <= j < i ==> self.queries@[j]@ == other.queries@[j]@,
        {
            if !(self.queries[i] == other.queries[i]) {
                proof {
                    assert(self@.queries[i as int] == self.queries@[i as int]@);
                    assert(other@.queries[i as int] == other.queries@[i as int]@);
                }
                return false;
            }
        }
        true
    }
}

impl vstd::std_specs::cmp::PartialEqSpecImpl for Message {
    open spec fn obeys_eq_spec() -> bool {
        true
    }

    open spec fn eq_spec(&self, other: &Message) -> bool {
        self@.header == other@.header && self@.queries =~= other@.queries
    }
}

} // verus!
