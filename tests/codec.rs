use dns_forwarder::{
    decode_name, encode_name, Answer, Header, LabelDecompression, Message, QClass, QRIndicator,
    QType, Question, WireError,
};

fn sample_header() -> Header {
    Header {
        id: 0xABCD,
        qr: QRIndicator::Response,
        opcode: 5,
        authorative_answer: true,
        truncation: false,
        recursion_desired: true,
        recursion_available: true,
        reserved: 3,
        response_code: 9,
        question_count: 0x0102,
        answer_record_count: 3,
        authority_record_count: 0x0400,
        additional_record_count: 0xFFFF,
    }
}

fn question(name: &str, question_type: QType, class: QClass) -> Question {
    Question { name: name.to_string(), question_type, class }
}

/// A query header with the given id, opcode and question count.
fn query_header(id: u16, opcode: u8, question_count: u16) -> Header {
    Header {
        id,
        qr: QRIndicator::Query,
        opcode,
        authorative_answer: false,
        truncation: false,
        recursion_desired: true,
        recursion_available: false,
        reserved: 0,
        response_code: 0,
        question_count,
        answer_record_count: 0,
        authority_record_count: 0,
        additional_record_count: 0,
    }
}

#[test]
fn header_encodes_bit_layout() {
    let bytes = sample_header().as_bytes();
    assert_eq!(
        bytes,
        vec![0xAB, 0xCD, 0b1_0101_1_0_1, 0b1_011_1001, 0x01, 0x02, 0x00, 0x03, 0x04, 0x00, 0xFF, 0xFF]
    );
}

#[test]
fn header_round_trip() {
    let h = sample_header();
    assert_eq!(Header::parse(&h.as_bytes()), Ok(h));
    let d = Header::default();
    assert_eq!(Header::parse(&d.as_bytes()), Ok(d));
}

#[test]
fn header_cuts_wide_fields() {
    let mut h = Header::default();
    h.opcode = 0x1F;
    h.reserved = 0x0F;
    h.response_code = 0x14;
    let bytes = h.as_bytes();
    assert_eq!(bytes[2], 0b1_1111_000);
    assert_eq!(bytes[3], 0b0_111_0100);
}

#[test]
fn header_needs_twelve_bytes() {
    assert_eq!(Header::parse(&[0u8; 11]), Err(WireError::TruncatedBuffer));
    assert!(Header::parse(&[0u8; 12]).is_ok());
}

#[test]
fn header_default_values() {
    let d = Header::default();
    assert_eq!(d.id, 1234);
    assert_eq!(d.qr, QRIndicator::Response);
    assert_eq!(d.question_count, 1);
    assert_eq!(d.answer_record_count, 1);
    assert_eq!(d.response_code, 0);
}

#[test]
fn qr_indicator_from_bit() {
    assert_eq!(QRIndicator::from_uint(0), QRIndicator::Query);
    assert_eq!(QRIndicator::from_uint(1), QRIndicator::Response);
    assert_eq!(QRIndicator::from_uint(7), QRIndicator::Query);
}

#[test]
fn type_and_class_values() {
    assert_eq!(QType::A.as_u16(), 1);
    assert_eq!(QType::CNAME.as_u16(), 5);
    assert_eq!(QType::TXT.as_u16(), 16);
    assert_eq!(QClass::IN.as_u16(), 1);
    assert_eq!(QClass::HS.as_u16(), 4);
    for v in 1..=16u16 {
        assert_eq!(QType::from_u16(v).map(|t| t.as_u16()), Some(v));
    }
    for v in 1..=4u16 {
        assert_eq!(QClass::from_u16(v).map(|c| c.as_u16()), Some(v));
    }
    assert_eq!(QType::from_u16(0), None);
    assert_eq!(QType::from_u16(17), None);
    assert_eq!(QClass::from_u16(0), None);
    assert_eq!(QClass::from_u16(5), None);
}

#[test]
fn name_encodes_as_labels() {
    let mut out = vec![9u8];
    encode_name("codecrafters.io", &mut out);
    let mut expected = vec![9u8, 12];
    expected.extend_from_slice(b"codecrafters");
    expected.push(2);
    expected.extend_from_slice(b"io");
    expected.push(0);
    assert_eq!(out, expected);
}

#[test]
fn empty_name_encodes_as_empty_label() {
    let mut out = Vec::new();
    encode_name("", &mut out);
    assert_eq!(out, vec![0, 0]);
}

#[test]
fn name_decodes_with_next_offset() {
    let mut buf = vec![0u8; 3];
    encode_name("a.example.com", &mut buf);
    buf.push(0xEE);
    let (name, next) = decode_name(&buf, 3).unwrap();
    assert_eq!(name, "a.example.com");
    assert_eq!(next, buf.len() - 1);
}

#[test]
fn non_ascii_name_round_trip() {
    let mut buf = Vec::new();
    encode_name("café.fr", &mut buf);
    assert_eq!(buf[0], 5);
    let (name, next) = decode_name(&buf, 0).unwrap();
    assert_eq!(name, "café.fr");
    assert_eq!(next, buf.len());
}

#[test]
fn immediate_terminator_is_empty_name() {
    let buf = [7u8, 0, 7];
    assert_eq!(decode_name(&buf, 1), Ok((String::new(), 2)));
}

#[test]
fn pointer_follows_earlier_name() {
    // "abc.com" at offset 2, then a name that is only a pointer to it.
    let mut buf = vec![0xAA, 0xBB];
    encode_name("abc.com", &mut buf);
    let a = buf.len();
    buf.extend_from_slice(&[0xC0, 0x02, 0x55]);
    let at_b = decode_name(&buf, 2).unwrap();
    let at_a = decode_name(&buf, a).unwrap();
    assert_eq!(at_a.0, at_b.0);
    assert_eq!(at_a.0, "abc.com");
    assert_eq!(at_a.1, a + 2);
}

#[test]
fn labels_then_pointer() {
    let mut buf = vec![0u8; 12];
    encode_name("example.com", &mut buf);
    let a = buf.len();
    buf.extend_from_slice(&[3, b'w', b'w', b'w', 0xC0, 12]);
    assert_eq!(decode_name(&buf, a), Ok(("www.example.com".to_string(), a + 6)));
}

#[test]
fn pointer_to_suffix_of_earlier_name() {
    let mut buf = vec![0u8; 12];
    encode_name("mail.example.com", &mut buf);
    let a = buf.len();
    // Offset 17 is where "example.com" starts inside the first name.
    buf.extend_from_slice(&[2, b'm', b'x', 0xC0, 17]);
    assert_eq!(decode_name(&buf, a), Ok(("mx.example.com".to_string(), a + 5)));
}

#[test]
fn chained_pointers() {
    let mut buf = vec![0u8; 12];
    encode_name("org", &mut buf);
    let b = buf.len();
    buf.extend_from_slice(&[4, b'w', b'i', b'k', b'i', 0xC0, 12]);
    let c = buf.len();
    buf.extend_from_slice(&[2, b'e', b'n', 0xC0, b as u8]);
    assert_eq!(decode_name(&buf, c), Ok(("en.wiki.org".to_string(), c + 5)));
}

#[test]
fn pointer_to_itself_is_malformed() {
    let buf = [0u8, 0, 0xC0, 0x02];
    assert_eq!(decode_name(&buf, 2), Err(WireError::MalformedPointer));
}

#[test]
fn forward_pointer_is_malformed() {
    let buf = [0xC0u8, 0x03, 0, 1, b'a', 0];
    assert_eq!(decode_name(&buf, 0), Err(WireError::MalformedPointer));
}

#[test]
fn pointer_loop_is_malformed() {
    // The name at 4 points back to 0, whose name runs into the pointer at 4.
    let buf = [3u8, b'a', b'b', b'c', 0xC0, 0x00];
    assert_eq!(decode_name(&buf, 4), Err(WireError::MalformedPointer));
}

#[test]
fn pointer_missing_second_byte() {
    let buf = [0u8, 0xC0];
    assert_eq!(decode_name(&buf, 1), Err(WireError::TruncatedBuffer));
}

#[test]
fn label_past_end_is_truncated() {
    let buf = [5u8, b'a', b'b'];
    assert_eq!(decode_name(&buf, 0), Err(WireError::TruncatedBuffer));
}

#[test]
fn missing_terminator_is_truncated() {
    let buf = [2u8, b'a', b'b'];
    assert_eq!(decode_name(&buf, 0), Err(WireError::TruncatedBuffer));
    assert_eq!(decode_name(&buf, 3), Err(WireError::TruncatedBuffer));
}

#[test]
fn invalid_utf8_label() {
    let buf = [2u8, 0xFF, 0xFE, 0];
    assert_eq!(decode_name(&buf, 0), Err(WireError::InvalidEncoding));
}

#[test]
fn parse_label_defaults_to_offset_twelve() {
    let mut buf = vec![0u8; 12];
    encode_name("x.y", &mut buf);
    assert_eq!(Question::parse_label(&buf, None), Ok(("x.y".to_string(), buf.len())));
    assert_eq!(Answer::parse_label(&buf, Some(12)), Ok(("x.y".to_string(), buf.len())));
}

#[test]
fn question_encoding_bytes() {
    let q = question("a.bc", QType::MX, QClass::CH);
    assert_eq!(q.as_bytes(), vec![1, b'a', 2, b'b', b'c', 0, 0, 15, 0, 3]);
}

#[test]
fn question_round_trip() {
    let qs = [
        question("codecrafters.io", QType::A, QClass::IN),
        question("example.org", QType::TXT, QClass::HS),
    ];
    let mut buf = query_header(1, 0, 2).as_bytes();
    for q in &qs {
        buf.extend(q.as_bytes());
    }
    let (parsed, pos) = Question::parse(&buf, 2).unwrap();
    assert_eq!(pos, buf.len());
    assert_eq!(parsed.len(), 2);
    for (p, q) in parsed.iter().zip(qs.iter()) {
        assert_eq!(p.name, q.name);
        assert_eq!(p.question_type, q.question_type);
        assert_eq!(p.class, q.class);
    }
}

#[test]
fn zero_questions_stop_after_header() {
    let mut buf = query_header(7, 0, 0).as_bytes();
    buf.extend_from_slice(&[1, 2, 3]);
    let (qs, pos) = Question::parse(&buf, 0).unwrap();
    assert!(qs.is_empty());
    assert_eq!(pos, 12);
    let m = Message::parse_request(&buf).unwrap();
    assert!(m.questions.is_empty());
    assert!(m.answer.is_empty());
}

fn question_with_values(t: u16, c: u16) -> Vec<u8> {
    let mut buf = query_header(1, 0, 1).as_bytes();
    encode_name("a.b", &mut buf);
    buf.extend_from_slice(&t.to_be_bytes());
    buf.extend_from_slice(&c.to_be_bytes());
    buf
}

#[test]
fn unknown_question_type_or_class() {
    assert_eq!(Question::parse(&question_with_values(0, 1), 1).err(), Some(WireError::UnknownEnumValue));
    assert_eq!(Question::parse(&question_with_values(17, 1), 1).err(), Some(WireError::UnknownEnumValue));
    assert_eq!(Question::parse(&question_with_values(1, 5), 1).err(), Some(WireError::UnknownEnumValue));
    assert_eq!(Question::parse(&question_with_values(1, 0), 1).err(), Some(WireError::UnknownEnumValue));
    assert!(Question::parse(&question_with_values(16, 4), 1).is_ok());
}

#[test]
fn question_fields_truncated() {
    let mut buf = question_with_values(1, 1);
    buf.pop();
    assert_eq!(Question::parse(&buf, 1).err(), Some(WireError::TruncatedBuffer));
}

fn answer(name: &str, data: Vec<u8>) -> Answer {
    Answer {
        name: name.to_string(),
        answer_type: QType::A,
        class: QClass::IN,
        ttl: 0x01020304,
        length: data.len() as u16,
        data,
    }
}

#[test]
fn answer_encoding_bytes() {
    let a = answer("a", vec![10, 0, 0, 1]);
    assert_eq!(
        a.as_bytes(),
        vec![1, b'a', 0, 0, 1, 0, 1, 1, 2, 3, 4, 0, 4, 10, 0, 0, 1]
    );
}

#[test]
fn answer_round_trip() {
    let a = answer("host.example.net", vec![1, 2, 3, 4, 5, 6]);
    let mut buf = vec![0u8; 5];
    buf.extend(a.as_bytes());
    let parsed = Answer::parse(&buf, 5, 1).unwrap();
    assert_eq!(parsed.len(), 1);
    assert_eq!(parsed[0].name, a.name);
    assert_eq!(parsed[0].answer_type, a.answer_type);
    assert_eq!(parsed[0].class, a.class);
    assert_eq!(parsed[0].ttl, a.ttl);
    assert_eq!(parsed[0].length, a.length);
    assert_eq!(parsed[0].data, a.data);
}

#[test]
fn answer_data_truncated() {
    let mut buf = answer("a", vec![1, 2, 3, 4]).as_bytes();
    buf.pop();
    assert_eq!(Answer::parse(&buf, 0, 1).err(), Some(WireError::TruncatedBuffer));
    buf.truncate(8);
    assert_eq!(Answer::parse(&buf, 0, 1).err(), Some(WireError::TruncatedBuffer));
}

#[test]
fn unknown_answer_type_or_class() {
    let mut buf = answer("a", vec![1]).as_bytes();
    buf[3] = 0;
    buf[4] = 17;
    assert_eq!(Answer::parse(&buf, 0, 1).err(), Some(WireError::UnknownEnumValue));
    buf[4] = 0;
    assert_eq!(Answer::parse(&buf, 0, 1).err(), Some(WireError::UnknownEnumValue));
    buf[4] = 1;
    buf[6] = 5;
    assert_eq!(Answer::parse(&buf, 0, 1).err(), Some(WireError::UnknownEnumValue));
}

#[test]
fn answer_default_values() {
    let a = Answer::default();
    assert_eq!(a.name, "codecrafters.io");
    assert_eq!(a.ttl, 60);
    assert_eq!(a.data, vec![8, 8, 8, 8]);
    let q = Question::default();
    assert_eq!(q.name, "codecrafters.io");
    assert_eq!(q.question_type, QType::A);
    assert_eq!(q.class, QClass::IN);
}
