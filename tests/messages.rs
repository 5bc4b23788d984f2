use dns_forwarder::{
    Answer, Forwarding, Header, Message, QClass, QRIndicator, QType, Question, WireError,
};

fn query(id: u16, opcode: u8, names: &[&str]) -> Message {
    let header = Header {
        id,
        qr: QRIndicator::Query,
        opcode,
        authorative_answer: false,
        truncation: false,
        recursion_desired: true,
        recursion_available: false,
        reserved: 0,
        response_code: 0,
        question_count: names.len() as u16,
        answer_record_count: 0,
        authority_record_count: 0,
        additional_record_count: 0,
    };
    let questions = names
        .iter()
        .map(|n| Question { name: n.to_string(), question_type: QType::A, class: QClass::IN })
        .collect();
    Message { header, questions, answer: vec![] }
}

fn a_record(name: &str, addr: [u8; 4], ttl: u32) -> Answer {
    Answer {
        name: name.to_string(),
        answer_type: QType::A,
        class: QClass::IN,
        ttl,
        length: 4,
        data: addr.to_vec(),
    }
}

/// The reply a resolver gives to a single-question request.
fn reply_to(request: &[u8], answers: Vec<Answer>) -> Vec<u8> {
    let asked = Message::parse_request(request).unwrap();
    let mut header = asked.header;
    header.qr = QRIndicator::Response;
    header.answer_record_count = answers.len() as u16;
    Message { header, questions: asked.questions, answer: answers }.as_bytes()
}

#[test]
fn local_response_for_one_question() {
    let request = query(1234, 0, &["codecrafters.io"]).as_bytes();
    let parsed = Message::parse_request(&request).unwrap();
    let response = parsed.create_response();
    assert_eq!(response.header.id, 1234);
    assert_eq!(response.header.qr, QRIndicator::Response);
    assert_eq!(response.header.answer_record_count, 1);
    assert_eq!(response.header.response_code, 0);
    assert_eq!(response.questions.len(), 1);
    assert_eq!(response.answer.len(), 1);
    let a = &response.answer[0];
    assert_eq!(a.name, "codecrafters.io");
    assert_eq!(a.answer_type, QType::A);
    assert_eq!(a.class, QClass::IN);
    assert_eq!(a.ttl, 60);
    assert_eq!(a.length, 4);
    assert_eq!(a.data, vec![192, 168, 0, 1]);
}

#[test]
fn local_response_bytes() {
    let response = query(0x0102, 0, &["a.b"]).create_response().as_bytes();
    let mut expected = vec![0x01, 0x02, 0b1000_0001, 0, 0, 1, 0, 1, 0, 0, 0, 0];
    expected.extend_from_slice(&[1, b'a', 1, b'b', 0, 0, 1, 0, 1]);
    expected.extend_from_slice(&[1, b'a', 1, b'b', 0, 0, 1, 0, 1, 0, 0, 0, 60, 0, 4, 192, 168, 0, 1]);
    assert_eq!(response, expected);
}

#[test]
fn non_standard_opcode_is_not_implemented() {
    let request = query(99, 1, &["a.com", "b.com"]).as_bytes();
    let response = Message::parse_request(&request).unwrap().create_response();
    assert_eq!(response.header.response_code, 4);
    assert_eq!(response.header.opcode, 1);
    assert_eq!(response.header.answer_record_count, response.header.question_count);
    assert_eq!(response.header.answer_record_count, 2);
    assert_eq!(response.answer.len(), 2);
}

#[test]
fn answerless_response_keeps_questions() {
    let q = query(42, 0, &["one.net", "two.net"]);
    let r = q.create_answerless_response();
    assert_eq!(r.header.id, 42);
    assert_eq!(r.header.qr, QRIndicator::Response);
    assert!(r.header.recursion_desired);
    assert_eq!(r.header.question_count, 2);
    assert_eq!(r.header.answer_record_count, 2);
    assert!(r.answer.is_empty());
    assert_eq!(r.questions[0].name, "one.net");
    assert_eq!(r.questions[1].name, "two.net");
}

#[test]
fn split_gives_one_request_per_question() {
    let q = query(7, 0, &["one.net", "two.net"]);
    let parts = q.split_as_bytes();
    assert_eq!(parts.len(), 2);
    for (part, name) in parts.iter().zip(["one.net", "two.net"]) {
        let m = Message::parse_request(part).unwrap();
        assert_eq!(m.header.id, 7);
        assert_eq!(m.header.question_count, 1);
        assert_eq!(m.questions.len(), 1);
        assert_eq!(m.questions[0].name, name);
    }
    let mut first = q.header;
    first.question_count = 1;
    let mut expected = first.as_bytes();
    expected.extend(q.questions[0].as_bytes());
    assert_eq!(parts[0], expected);
}

#[test]
fn short_request_is_truncated() {
    assert_eq!(Message::parse_request(&[0u8; 5]).err(), Some(WireError::TruncatedBuffer));
    assert_eq!(Message::parse_resolver_response(&[]).err(), Some(WireError::TruncatedBuffer));
}

#[test]
fn resolver_response_reads_answers() {
    let request = query(5, 0, &["x.org"]).split_as_bytes().remove(0);
    let reply = reply_to(&request, vec![a_record("x.org", [1, 2, 3, 4], 30)]);
    let m = Message::parse_resolver_response(&reply).unwrap();
    assert_eq!(m.questions.len(), 1);
    assert_eq!(m.answer.len(), 1);
    assert_eq!(m.answer[0].data, vec![1, 2, 3, 4]);
    assert_eq!(m.answer[0].ttl, 30);
}

#[test]
fn forwarding_two_questions_in_order() {
    let q = query(321, 0, &["first.io", "second.io"]);
    let request = q.as_bytes();
    let parsed = Message::parse_request(&request).unwrap();
    let mut fwd = Forwarding::start(&parsed);
    let mut sent: Vec<Vec<u8>> = Vec::new();
    let addrs = [[10, 0, 0, 1], [10, 0, 0, 2]];
    let mut round = 0;
    while let Some(req) = fwd.pending_request() {
        let req = req.clone();
        let m = Message::parse_request(&req).unwrap();
        assert_eq!(m.header.question_count, 1);
        let name = m.questions[0].name.clone();
        let reply = reply_to(&req, vec![a_record(&name, addrs[round], 100)]);
        sent.push(req);
        fwd.on_reply(&reply).unwrap();
        round += 1;
    }
    assert!(fwd.is_done());
    assert_eq!(sent, parsed.split_as_bytes());
    let expected = Message {
        header: parsed.create_answerless_response().header,
        questions: parsed.create_answerless_response().questions,
        answer: vec![a_record("first.io", addrs[0], 100), a_record("second.io", addrs[1], 100)],
    }
    .as_bytes();
    assert_eq!(fwd.response(), &expected);
    let merged = Message::parse_resolver_response(fwd.response()).unwrap();
    assert_eq!(merged.header.id, 321);
    assert_eq!(merged.questions[0].name, "first.io");
    assert_eq!(merged.questions[1].name, "second.io");
    assert_eq!(merged.answer[0].data, vec![10, 0, 0, 1]);
    assert_eq!(merged.answer[1].data, vec![10, 0, 0, 2]);
}

#[test]
fn forwarding_starts_from_answerless_response() {
    let q = query(9, 0, &["a.io"]);
    let fwd = Forwarding::start(&q);
    assert!(!fwd.is_done());
    assert_eq!(fwd.response(), &q.create_answerless_response().as_bytes());
    assert_eq!(fwd.pending_request(), Some(&q.split_as_bytes()[0]));
}

#[test]
fn forwarding_bad_reply_changes_nothing() {
    let q = query(9, 0, &["a.io"]);
    let mut fwd = Forwarding::start(&q);
    let before = fwd.response().clone();
    assert_eq!(fwd.on_reply(&[1, 2, 3]), Err(WireError::TruncatedBuffer));
    assert_eq!(fwd.response(), &before);
    assert!(!fwd.is_done());
}

#[test]
fn forwarding_without_questions_is_done() {
    let q = query(9, 0, &[]);
    let fwd = Forwarding::start(&q);
    assert!(fwd.is_done());
    assert_eq!(fwd.pending_request(), None);
}

#[test]
fn message_default_shape() {
    let m = Message::default();
    assert_eq!(m.header, Header::default());
    assert_eq!(m.questions.len(), 1);
    assert_eq!(m.answer.len(), 1);
}

#[test]
fn forwarded_answer_count_follows_questions() {
    // The response header counts one answer per question, whatever the
    // replies hold; a reply is read for as many answers as it has questions.
    let q = query(11, 0, &["multi.io"]);
    let mut fwd = Forwarding::start(&q);
    let req = fwd.pending_request().unwrap().clone();
    let reply = reply_to(
        &req,
        vec![a_record("multi.io", [1, 1, 1, 1], 5), a_record("multi.io", [2, 2, 2, 2], 5)],
    );
    fwd.on_reply(&reply).unwrap();
    assert!(fwd.is_done());
    let merged = Message::parse_resolver_response(fwd.response()).unwrap();
    assert_eq!(merged.header.answer_record_count, 1);
    assert_eq!(merged.answer.len(), 1);
    assert_eq!(merged.answer[0].data, vec![1, 1, 1, 1]);
}

#[test]
fn reply_without_answers_aborts_round() {
    let q = query(12, 0, &["none.io"]);
    let mut fwd = Forwarding::start(&q);
    let req = fwd.pending_request().unwrap().clone();
    let reply = reply_to(&req, vec![]);
    assert_eq!(fwd.on_reply(&reply), Err(WireError::TruncatedBuffer));
    assert!(!fwd.is_done());
}
