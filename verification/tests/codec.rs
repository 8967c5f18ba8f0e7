use dns_codec::error::DnsError;
use dns_codec::message::{DNSHeader, DNSPacket, DNSQuestion};
use dns_codec::name::{NameTable, decode_name, encode_dns_name};
use dns_codec::query::{build_query, build_query_with_id};

fn question_section(name: &[u8], type_: u16, class: u16) -> Vec<u8> {
    let q = DNSQuestion { name: name.to_vec(), type_, class };
    q.to_bytes().expect("question encodes")
}

fn header_bytes(h: &DNSHeader) -> Vec<u8> {
    h.to_bytes()
}

#[test]
fn encode_name_example() {
    // The bytes of "www.example.com" with type 1, class 1, from the wire
    // format definition.
    let expected: Vec<u8> = vec![
        0x03, 0x77, 0x77, 0x77, 0x07, 0x65, 0x78, 0x61, 0x6d, 0x70, 0x6c, 0x65, 0x03, 0x63,
        0x6f, 0x6d, 0x00, 0x00, 0x01, 0x00, 0x01,
    ];
    assert_eq!(question_section(b"www.example.com", 1, 1), expected);
}

#[test]
fn encode_name_alone() {
    let enc = encode_dns_name(&b"www.example.com".to_vec()).expect("name encodes");
    assert_eq!(
        enc,
        vec![
            0x03, 0x77, 0x77, 0x77, 0x07, 0x65, 0x78, 0x61, 0x6d, 0x70, 0x6c, 0x65, 0x03,
            0x63, 0x6f, 0x6d, 0x00
        ]
    );
}

#[test]
fn encode_empty_name() {
    // An empty name splits into one empty label: a zero length byte, then
    // the terminator.
    assert_eq!(encode_dns_name(&Vec::new()).expect("encodes"), vec![0x00, 0x00]);
}

#[test]
fn label_too_long_fails() {
    let mut name: Vec<u8> = Vec::new();
    for _ in 0..64 {
        name.push(b'a');
    }
    assert_eq!(encode_dns_name(&name), Err(DnsError::LabelTooLong));
    assert_eq!(build_query(&name, 1), Err(DnsError::LabelTooLong));
    // 63 bytes is still fine.
    name.pop();
    assert!(encode_dns_name(&name).is_ok());
}

#[test]
fn header_round_trip() {
    let h = DNSHeader {
        id: 0xbeef,
        flags: 0,
        num_questions: 1,
        num_answers: 0,
        num_authorities: 0,
        num_additionals: 0,
    };
    let bytes = header_bytes(&h);
    assert_eq!(bytes.len(), 12);
    let mut idx: usize = 0;
    let back = DNSHeader::from_buffer(&bytes, &mut idx).expect("header decodes");
    assert_eq!(idx, 12);
    assert_eq!(back, h);
}

#[test]
fn header_truncated() {
    let bytes: Vec<u8> = vec![0x12, 0x34, 0x00];
    let mut idx: usize = 0;
    assert_eq!(DNSHeader::from_buffer(&bytes, &mut idx), Err(DnsError::TruncatedInput));
    assert_eq!(idx, 0);
}

#[test]
fn query_round_trip_fixed_id() {
    let bytes = build_query_with_id(&b"www.example.com".to_vec(), 1, 0x8298).expect("builds");
    let packet = DNSPacket::from_buffer(bytes).expect("decodes");
    assert_eq!(packet.header.id, 0x8298);
    assert_eq!(packet.header.flags, 0x0100);
    assert_eq!(packet.header.num_questions, 1);
    assert_eq!(packet.header.num_answers, 0);
    assert_eq!(packet.questions.len(), 1);
    assert_eq!(packet.questions[0].name, b"www.example.com".to_vec());
    assert_eq!(packet.questions[0].type_, 1);
    assert_eq!(packet.questions[0].class, 1);
    assert!(packet.answers.is_empty());
    assert!(packet.authorities.is_empty());
    assert!(packet.additionals.is_empty());
}

#[test]
fn query_round_trip_case_preserved() {
    let bytes = build_query_with_id(&b"WwW.Example.COM".to_vec(), 28, 7).expect("builds");
    let packet = DNSPacket::from_buffer(bytes).expect("decodes");
    assert_eq!(packet.questions[0].name, b"WwW.Example.COM".to_vec());
    assert_eq!(packet.questions[0].type_, 28);
}

#[test]
fn query_random_id_round_trip() {
    let bytes = build_query(&b"example.com".to_vec(), 1).expect("builds");
    let expected_tail = question_section(b"example.com", 1, 1);
    assert_eq!(bytes.len(), 12 + expected_tail.len());
    assert_eq!(&bytes[12..], &expected_tail[..]);
    let packet = DNSPacket::from_buffer(bytes).expect("decodes");
    assert_eq!(packet.questions[0].name, b"example.com".to_vec());
    assert!(packet.header.id < 0xffff);
}

fn two_question_message() -> Vec<u8> {
    // One real name at offset 12, then a second question whose name is a
    // pointer back to it.
    let h = DNSHeader {
        id: 1,
        flags: 0,
        num_questions: 2,
        num_answers: 0,
        num_authorities: 0,
        num_additionals: 0,
    };
    let mut bytes = header_bytes(&h);
    bytes.extend_from_slice(&question_section(b"www.example.com", 1, 1));
    bytes.extend_from_slice(&[0xc0, 0x0c, 0x00, 0x01, 0x00, 0x01]);
    bytes
}

#[test]
fn compressed_name_matches_original() {
    let packet = DNSPacket::from_buffer(two_question_message()).expect("decodes");
    assert_eq!(packet.questions.len(), 2);
    assert_eq!(packet.questions[0].name, packet.questions[1].name);
    assert_eq!(packet.questions[1].name, b"www.example.com".to_vec());
}

#[test]
fn pointer_with_no_prior_name_dangles() {
    let h = DNSHeader {
        id: 1,
        flags: 0,
        num_questions: 1,
        num_answers: 0,
        num_authorities: 0,
        num_additionals: 0,
    };
    let mut bytes = header_bytes(&h);
    // A pointer to offset 12: its own start, but nothing was decoded yet.
    bytes.extend_from_slice(&[0xc0, 0x0c, 0x00, 0x01, 0x00, 0x01]);
    assert_eq!(DNSPacket::from_buffer(bytes), Err(DnsError::DanglingPointer));
}

#[test]
fn dangling_pointer_in_decode_name() {
    let buf: Vec<u8> = vec![0xc0, 0x05];
    let mut idx: usize = 0;
    let mut table = NameTable::new();
    assert_eq!(decode_name(&buf, &mut idx, &mut table), Err(DnsError::DanglingPointer));
    assert_eq!(idx, 0);
}

#[test]
fn decode_root_name() {
    let buf: Vec<u8> = vec![0x00, 0xff];
    let mut idx: usize = 0;
    let mut table = NameTable::new();
    let name = decode_name(&buf, &mut idx, &mut table).expect("decodes");
    assert_eq!(name, Vec::<u8>::new());
    assert_eq!(idx, 1);
}

#[test]
fn invalid_label_text_rejected() {
    let h = DNSHeader {
        id: 1,
        flags: 0,
        num_questions: 1,
        num_answers: 0,
        num_authorities: 0,
        num_additionals: 0,
    };
    let mut bytes = header_bytes(&h);
    // A two-byte label that is not valid UTF-8.
    bytes.extend_from_slice(&[0x02, 0xff, 0xfe, 0x00, 0x00, 0x01, 0x00, 0x01]);
    assert_eq!(DNSPacket::from_buffer(bytes), Err(DnsError::InvalidEncoding));
}

fn message_with_answer() -> Vec<u8> {
    let h = DNSHeader {
        id: 0x1234,
        flags: 0x8180,
        num_questions: 1,
        num_answers: 1,
        num_authorities: 0,
        num_additionals: 0,
    };
    let mut bytes = header_bytes(&h);
    bytes.extend_from_slice(&question_section(b"example.com", 1, 1));
    // Answer: name is a pointer to the question's name, type A, class IN,
    // ttl 300, four bytes of address data.
    bytes.extend_from_slice(&[0xc0, 0x0c, 0x00, 0x01, 0x00, 0x01, 0x00, 0x00, 0x01, 0x2c]);
    bytes.extend_from_slice(&[0x00, 0x04, 93, 184, 216, 34]);
    bytes
}

#[test]
fn decode_answer_record() {
    let packet = DNSPacket::from_buffer(message_with_answer()).expect("decodes");
    assert_eq!(packet.header.num_answers, 1);
    assert_eq!(packet.answers.len(), 1);
    assert_eq!(packet.answers[0].name, b"example.com".to_vec());
    assert_eq!(packet.answers[0].type_, 1);
    assert_eq!(packet.answers[0].class, 1);
    assert_eq!(packet.answers[0].ttl, 300);
    assert_eq!(packet.answers[0].data, vec![93, 184, 216, 34]);
}

#[test]
fn truncation_always_truncated_input() {
    let bytes = message_with_answer();
    // Cutting the message anywhere before its end must give TruncatedInput:
    // never a panic, a partial packet, or another error.
    for cut in 0..bytes.len() {
        let prefix = bytes[..cut].to_vec();
        assert_eq!(DNSPacket::from_buffer(prefix), Err(DnsError::TruncatedInput));
    }
    assert!(DNSPacket::from_buffer(bytes).is_ok());
}

#[test]
fn truncated_query_round_trip() {
    let bytes = build_query_with_id(&b"www.example.com".to_vec(), 1, 9).expect("builds");
    for cut in 0..bytes.len() {
        let prefix = bytes[..cut].to_vec();
        assert_eq!(DNSPacket::from_buffer(prefix), Err(DnsError::TruncatedInput));
    }
}
