use dns_decoder::errors::{DecodeError, ParseError};
use dns_decoder::message::{Flags, Header, Message, Query, QueryResponse, ResponseCode};
use dns_decoder::parser::{byte_pair_to_u16, parse, parse_message, parse_queries, parse_name};

fn get_valid_query() -> &'static [u8] {
    &[
        21, 162, 1, 32, 0, 1, 0, 0, 0, 0, 0, 1, 3, 119, 119, 119, 9, 98, 101, 110, 103, 101, 115,
        111, 102, 102, 2, 117, 107, 3, 116, 108, 100, 3, 99, 111, 109, 0, 0, 1, 0, 1, 0, 0, 41, 16,
    ]
}

fn get_invalid_query() -> &'static [u8] {
    &[
        115, 111, 102, 102, 2, 117, 107, 3, 116, 108, 100, 3, 99, 111, 109, 0, 0, 1, 0, 1, 0, 0,
        41, 16,
    ]
}

fn get_expected_message() -> Message {
    Message {
        header: Header {
            transaction_id: 5538,
            flags: Flags {
                message_type: QueryResponse::Query,
                response_code: ResponseCode::NoError,
            },
            num_questions: 1,
            num_answers: 0,
            num_authorities: 0,
            num_additionals: 1,
        },
        queries: vec![Query {
            name: "www.bengesoff.uk.tld.com".to_string(),
            resource_type: 0,
            class: 256,
        }],
    }
}

#[test]
fn mod_parses_dns_query() {
    let message = parse_message(get_valid_query()).unwrap();
    assert_eq!(message, get_expected_message())
}

#[test]
fn mod_fails_on_invalid_query() {
    let message = parse_message(get_invalid_query()).ok();
    assert_eq!(message, None)
}

#[test]
fn message_parses_dns_query() {
    let message = Message::from_bytes(get_valid_query()).unwrap();
    assert_eq!(message, get_expected_message())
}

#[test]
fn message_fails_on_invalid_query() {
    let message = Message::from_bytes(get_invalid_query()).ok();
    assert_eq!(message, None)
}

#[test]
fn parse_agrees_with_parse_message() {
    let a = parse(get_valid_query()).unwrap();
    let b = parse_message(get_valid_query()).unwrap();
    assert_eq!(a, b);
    assert!(parse(get_invalid_query()).is_err());
}

#[test]
fn decodes_from_identical_bytes_compare_equal() {
    let a = parse(get_valid_query()).unwrap();
    let b = parse(get_valid_query()).unwrap();
    assert_eq!(a, b);
}

#[test]
fn byte_pair_is_big_endian() {
    assert_eq!(byte_pair_to_u16(0x12, 0x34), 0x1234);
    assert_eq!(byte_pair_to_u16(0, 0), 0);
    assert_eq!(byte_pair_to_u16(0xff, 0xff), 0xffff);
}

#[test]
fn header_fields_decode_exactly() {
    let bytes = [0xab, 0xcd, 0x81, 0x03, 0x00, 0x02, 0x00, 0x03, 0x00, 0x04, 0x00, 0x05];
    let header = Header::from_bytes(&bytes).unwrap();
    assert_eq!(header.transaction_id, 0xabcd);
    assert_eq!(header.flags.message_type, QueryResponse::Response);
    assert_eq!(header.flags.response_code, ResponseCode::NameError);
    assert_eq!(header.num_questions, 2);
    assert_eq!(header.num_answers, 3);
    assert_eq!(header.num_authorities, 4);
    assert_eq!(header.num_additionals, 5);
}

#[test]
fn header_shorter_than_twelve_bytes_is_truncated() {
    for len in 0..12 {
        let bytes = vec![0u8; len];
        assert_eq!(Header::from_bytes(&bytes), Err(DecodeError::Truncated));
    }
}

#[test]
fn response_code_nibbles_map_in_order() {
    let expected = [
        ResponseCode::NoError,
        ResponseCode::FormatError,
        ResponseCode::ServerError,
        ResponseCode::NameError,
    ];
    for nibble in 0u8..16 {
        let flags = Flags::from_bytes(&[0x00, nibble]);
        if nibble <= 3 {
            let f = flags.unwrap();
            assert_eq!(f.response_code, expected[nibble as usize]);
            assert_eq!(f.message_type, QueryResponse::Query);
        } else {
            assert_eq!(flags, Err(DecodeError::InvalidFlags));
        }
    }
}

#[test]
fn top_bit_picks_message_type() {
    let query = Flags::from_bytes(&[0x00, 0x00]).unwrap();
    assert_eq!(query.message_type, QueryResponse::Query);
    let response = Flags::from_bytes(&[0x80, 0x00]).unwrap();
    assert_eq!(response.message_type, QueryResponse::Response);
    // The eleven reserved bits are skipped without validation.
    let noisy = Flags::from_bytes(&[0x7f, 0xf0]).unwrap();
    assert_eq!(noisy.message_type, QueryResponse::Query);
    assert_eq!(noisy.response_code, ResponseCode::NoError);
}

#[test]
fn flags_need_two_bytes() {
    assert_eq!(Flags::from_bytes(&[]), Err(DecodeError::Truncated));
    assert_eq!(Flags::from_bytes(&[0x80]), Err(DecodeError::Truncated));
}

#[test]
fn name_decodes_dotted_labels() {
    let bytes = [3, b'w', b'w', b'w', 7, b'e', b'x', b'a', b'm', b'p', b'l', b'e', 0];
    let (name, end) = parse_name(&bytes, 0).unwrap();
    assert_eq!(name, "www.example");
    assert_eq!(end, 12);
}

#[test]
fn name_length_past_buffer_end_is_truncated() {
    let bytes = [5, b'a', b'b'];
    assert_eq!(parse_name(&bytes, 0), Err(DecodeError::Truncated));
}

#[test]
fn name_missing_terminator_is_truncated() {
    let bytes = [2, b'a', b'b'];
    assert_eq!(parse_name(&bytes, 0), Err(DecodeError::Truncated));
}

#[test]
fn bare_zero_name_is_rejected() {
    assert_eq!(parse_name(&[0], 0), Err(DecodeError::InvalidEncoding));
}

#[test]
fn label_with_invalid_utf8_is_rejected() {
    let bytes = [2, 0xff, 0xfe, 0];
    assert_eq!(parse_name(&bytes, 0), Err(DecodeError::InvalidEncoding));
}

#[test]
fn label_with_multibyte_utf8_is_decoded() {
    // 0xc3 0xa9 is the two-byte encoding of 'e' with an acute accent; the
    // name must come back as that one character, not as the raw bytes.
    let bytes = [2, 0xc3, 0xa9, 0];
    let (name, end) = parse_name(&bytes, 0).unwrap();
    assert_eq!(name, "\u{e9}");
    assert_eq!(name.chars().count(), 1);
    assert_eq!(end, 3);
}

#[test]
fn query_reads_type_and_class_at_terminator() {
    // The terminator is not consumed: the resource type is the word made of
    // the zero byte and the byte after it, and the class the next word.
    let bytes = [1, b'a', 0, 7, 1, 2, 9, 9];
    let (query, end) = Query::from_bytes(&bytes, 0).unwrap();
    assert_eq!(query.name, "a");
    assert_eq!(query.resource_type, 7);
    assert_eq!(query.class, 0x0102);
    assert_eq!(end, 6);
}

#[test]
fn query_needs_four_bytes_from_terminator() {
    let bytes = [1, b'a', 0, 7, 1];
    assert_eq!(Query::from_bytes(&bytes, 0), Err(DecodeError::Truncated));
}

#[test]
fn queries_keep_wire_order() {
    let bytes = [1, b'a', 0, 1, 0, 1, 1, b'b', 0, 2, 0, 2];
    let (queries, end) = parse_queries(2, &bytes, 0).unwrap();
    assert_eq!(queries.len(), 2);
    assert_eq!(queries[0].name, "a");
    assert_eq!(queries[0].resource_type, 1);
    assert_eq!(queries[1].name, "b");
    assert_eq!(queries[1].resource_type, 2);
    assert_eq!(end, 12);
}

#[test]
fn message_with_zero_label_name_fails() {
    let mut bytes = vec![0, 1, 0, 0, 0, 1, 0, 0, 0, 0, 0, 0];
    bytes.extend_from_slice(&[0, 0, 1, 0, 1]);
    assert!(parse(&bytes).is_err());
}

#[test]
fn round_trip_of_a_hand_encoded_message() {
    // Encoded by hand following the wire format: header, then one question
    // per name, with the three post-terminator bytes carrying the type's
    // low byte and the class.
    let mut bytes = vec![
        0x13, 0x37, // transaction id
        0x80, 0x02, // flags: response, server error
        0x00, 0x02, // two questions
        0x00, 0x09, 0x00, 0x08, 0x00, 0x07, // remaining counts
    ];
    bytes.extend_from_slice(&[2, b'h', b'i', 3, b'c', b'o', b'm', 0, 42, 0x01, 0x00]);
    bytes.extend_from_slice(&[1, b'x', 0, 7, 0xff, 0xff]);
    let message = parse(&bytes).unwrap();
    assert_eq!(message.header.transaction_id, 0x1337);
    assert_eq!(message.header.flags.message_type, QueryResponse::Response);
    assert_eq!(message.header.flags.response_code, ResponseCode::ServerError);
    assert_eq!(message.header.num_questions, 2);
    assert_eq!(message.header.num_answers, 9);
    assert_eq!(message.header.num_authorities, 8);
    assert_eq!(message.header.num_additionals, 7);
    assert_eq!(message.queries.len(), 2);
    assert_eq!(message.queries[0].name, "hi.com");
    assert_eq!(message.queries[0].resource_type, 42);
    assert_eq!(message.queries[0].class, 0x0100);
    assert_eq!(message.queries[1].name, "x");
    assert_eq!(message.queries[1].resource_type, 7);
    assert_eq!(message.queries[1].class, 0xffff);
}

#[test]
fn truncation_at_every_offset_fails_cleanly() {
    // The canonical fixture needs its first 41 bytes; every shorter prefix
    // must fail (never read out of bounds), and every longer one succeeds,
    // since bytes past the question section are ignored.
    let bytes = get_valid_query();
    for len in 0..41 {
        assert!(parse(&bytes[..len]).is_err(), "prefix of {} bytes", len);
    }
    for len in 41..=bytes.len() {
        assert!(parse(&bytes[..len]).is_ok(), "prefix of {} bytes", len);
    }
}

#[test]
fn trailing_bytes_are_ignored() {
    let mut bytes = get_valid_query().to_vec();
    bytes.extend_from_slice(&[1, 2, 3, 4, 5]);
    assert_eq!(parse(&bytes).unwrap(), get_expected_message());
}

#[test]
fn parse_error_describes_itself() {
    assert_eq!(
        ParseError.describe(),
        "the provided bytes could not be parsed as a DNS message"
    );
}
