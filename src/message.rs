//! Whole messages: header, questions and answers, and the transformations
//! that build responses and per-question requests.
use vstd::prelude::*;

use crate::answer::{answer_views, read_answers, Answer, AnswerView};
use crate::bytes::append_bytes;
use crate::header::{lemma_header_round_trip, Header, HEADER_LEN};
use crate::labels::plain_name;
use crate::question::{
    lemma_question_round_trip, question_views, read_questions, Question,
    QuestionView,
};
use crate::types::{QClass, QType, WireError};

verus! {

/// Time to live of a locally made answer, in seconds.
pub const LOCAL_TTL: u32 = 60;

/// A DNS message. Authority and additional sections are not modelled.
#[derive(Debug)]
pub struct Message {
    pub header: Header,
    pub questions: Vec<Question>,
    pub answer: Vec<Answer>,
}

/// What a message holds.
pub struct MessageView {
    pub header: Header,
    pub questions: Seq<QuestionView>,
    pub answers: Seq<AnswerView>,
}

impl View for Message {
    type V = MessageView;

    open spec fn view(&self) -> MessageView {
        MessageView {
            header: self.header,
            questions: question_views(self.questions@),
            answers: answer_views(self.answer@),
        }
    }
}

/// The wire forms of the questions, one after another.
pub open spec fn questions_wire(qs: Seq<QuestionView>) -> Seq<u8>
    decreases qs.len(),
{
    if qs.len() == 0 {
        Seq::empty()
    } else {
        questions_wire(qs.drop_last()) + qs.last().wire()
    }
}

/// The wire forms of the answers, one after another.
pub open spec fn answers_wire(a: Seq<AnswerView>) -> Seq<u8>
    decreases a.len(),
{
    if a.len() == 0 {
        Seq::empty()
    } else {
        answers_wire(a.drop_last()) + a.last().wire()
    }
}

impl MessageView {
    /// The wire form: header, questions, answers.
    pub open spec fn wire(self) -> Seq<u8> {
        self.header.wire() + questions_wire(self.questions) + answers_wire(self.answers)
    }
}

/// A request read from `buf`: its header and as many questions as the header
/// counts, no answers.
pub open spec fn read_request(buf: Seq<u8>) -> Result<MessageView, WireError> {
    if buf.len() < HEADER_LEN {
        Err(WireError::TruncatedBuffer)
    } else {
        let h = Header::from_wire(buf);
        match read_questions(buf, HEADER_LEN as int, h.question_count as nat) {
            Ok((qs, _)) => Ok(MessageView { header: h, questions: qs, answers: Seq::empty() }),
            Err(e) => Err(e),
        }
    }
}

/// A resolver's reply read from `buf`: its header, then as many questions
/// and as many answers as the header's question count.
pub open spec fn read_resolver_response(buf: Seq<u8>) -> Result<MessageView, WireError> {
    if buf.len() < HEADER_LEN {
        Err(WireError::TruncatedBuffer)
    } else {
        let h = Header::from_wire(buf);
        match read_questions(buf, HEADER_LEN as int, h.question_count as nat) {
            Ok((qs, p)) => match read_answers(buf, p, h.question_count as nat) {
                Ok((a, _)) => Ok(MessageView { header: h, questions: qs, answers: a }),
                Err(e) => Err(e),
            },
            Err(e) => Err(e),
        }
    }
}

/// The header of a response to a query with header `q`: the default header
/// with the query's id, opcode, recursion-desired flag and question count,
/// as many answers counted as questions, and response code 0 for a standard
/// query, 4 (not implemented) otherwise.
pub open spec fn response_header(q: Header) -> Header {
    Header {
        id: q.id,
        opcode: q.opcode,
        recursion_desired: q.recursion_desired,
        question_count: q.question_count,
        answer_record_count: q.question_count,
        response_code: if q.opcode == 0 {
            0
        } else {
            4
        },
        ..Header::spec_default()
    }
}

/// The answer made locally for a question: an `A` record of class `IN` for
/// its name, address 192.168.0.1, ttl 60.
pub open spec fn local_answer(q: QuestionView) -> AnswerView {
    AnswerView {
        name: q.name,
        answer_type: QType::A,
        class: QClass::IN,
        ttl: LOCAL_TTL,
        length: 4,
        data: seq![192u8, 168u8, 0u8, 1u8],
    }
}

/// The request that asks only question `q`, under header `h` with its
/// question count set to 1.
pub open spec fn single_question_wire(h: Header, q: QuestionView) -> Seq<u8> {
    Header { question_count: 1, ..h }.wire() + q.wire()
}

/// Copies of the questions.
fn copy_questions(qs: &Vec<Question>) -> (r: Vec<Question>)
    ensures
        question_views(r@) == question_views(qs@),
{
    let mut r: Vec<Question> = Vec::new();
    let mut i: usize = 0;
    while i < qs.len()
        invariant
            i <= qs@.len(),
            r@.len() == i,
            forall|j: int| 0 <= j < i ==> (#[trigger] r@[j])@ == qs@[j]@,
        decreases qs.len() - i,
    {
        r.push(qs[i].duplicate());
        i += 1;
    }
    assert(question_views(r@) =~= question_views(qs@));
    r
}

/// The header of a response to a query with header `q`.
fn make_response_header(q: &Header) -> (r: Header)
    ensures
        r == response_header(*q),
{
    let mut header = Header::default();
    header.id = q.id;
    header.opcode = q.opcode;
    header.recursion_desired = q.recursion_desired;
    header.question_count = q.question_count;
    header.answer_record_count = q.question_count;
    header.response_code = if q.opcode == 0 {
        0
    } else {
        4
    };
    header
}

impl Message {
    /// Encodes the message: header, then each question, then each answer.
    pub fn as_bytes(&self) -> (r: Vec<u8>)
        ensures
            r@ == self@.wire(),
    {
        let mut out = self.header.as_bytes();
        let mut i: usize = 0;
        while i < self.questions.len()
            invariant
                i <= self.questions@.len(),
                out@ == self.header.wire() + questions_wire(
                    question_views(self.questions@.subrange(0, i as int)),
                ),
            decreases self.questions.len() - i,
        {
            let b = self.questions[i].as_bytes();
            append_bytes(&mut out, b.as_slice());
            proof {
                let vs = question_views(self.questions@.subrange(0, i + 1));
                assert(vs.drop_last() =~= question_views(self.questions@.subrange(0, i as int)));
            }
            i += 1;
        }
        assert(self.questions@.subrange(0, i as int) =~= self.questions@);
        let ghost head = out@;
        let mut j: usize = 0;
        assert(head + answers_wire(answer_views(self.answer@.subrange(0, 0))) =~= head);
        while j < self.answer.len()
            invariant
                j <= self.answer@.len(),
                out@ == head + answers_wire(answer_views(self.answer@.subrange(0, j as int))),
            decreases self.answer.len() - j,
        {
            let b = self.answer[j].as_bytes();
            append_bytes(&mut out, b.as_slice());
            proof {
                let vs = answer_views(self.answer@.subrange(0, j + 1));
                assert(vs.drop_last() =~= answer_views(self.answer@.subrange(0, j as int)));
            }
            j += 1;
        }
        assert(self.answer@.subrange(0, j as int) =~= self.answer@);
        out
    }

    /// Decodes a client query: the header, then the questions it counts.
    pub fn parse_request(buf: &[u8]) -> (r: Result<Message, WireError>)
        ensures
            match r {
                Ok(m) => read_request(buf@) == Ok::<MessageView, WireError>(m@),
                Err(e) => read_request(buf@) == Err::<MessageView, WireError>(e),
            },
    {
        let header = match Header::parse(buf) {
            Ok(h) => h,
            Err(e) => {
                return Err(e);
            },
        };
        let (questions, _) = match Question::parse(buf, header.question_count) {
            Ok(x) => x,
            Err(e) => {
                return Err(e);
            },
        };
        let m = Message { header, questions, answer: Vec::new() };
        assert(m@.answers =~= Seq::<AnswerView>::empty());
        Ok(m)
    }

    /// Decodes a resolver's reply: the header, the questions it counts, and
    /// as many answers as questions.
    pub fn parse_resolver_response(buf: &[u8]) -> (r: Result<Message, WireError>)
        ensures
            match r {
                Ok(m) => read_resolver_response(buf@) == Ok::<MessageView, WireError>(m@),
                Err(e) => read_resolver_response(buf@) == Err::<MessageView, WireError>(e),
            },
    {
        let header = match Header::parse(buf) {
            Ok(h) => h,
            Err(e) => {
                return Err(e);
            },
        };
        let (questions, pos) = match Question::parse(buf, header.question_count) {
            Ok(x) => x,
            Err(e) => {
                return Err(e);
            },
        };
        let answers = match Answer::parse(buf, pos, header.question_count) {
            Ok(a) => a,
            Err(e) => {
                return Err(e);
            },
        };
        Ok(Message { header, questions, answer: answers })
    }

    /// The response to this query without answers: the response header and
    /// the query's questions. Forwarding appends the answers to its bytes.
    pub fn create_answerless_response(&self) -> (r: Message)
        ensures
            r@ == (MessageView {
                header: response_header(self.header),
                questions: self@.questions,
                answers: Seq::empty(),
            }),
    {
        let header = make_response_header(&self.header);
        let r = Message { header, questions: copy_questions(&self.questions), answer: Vec::new() };
        assert(r@.answers =~= Seq::<AnswerView>::empty());
        r
    }

    /// The response made locally: the response header, the query's
    /// questions, and one answer made for each question.
    pub fn create_response(&self) -> (r: Message)
        ensures
            r@ == (MessageView {
                header: response_header(self.header),
                questions: self@.questions,
                answers: self@.questions.map_values(|q: QuestionView| local_answer(q)),
            }),
    {
        let mut answers: Vec<Answer> = Vec::new();
        let mut i: usize = 0;
        while i < self.questions.len()
            invariant
                i <= self.questions@.len(),
                answers@.len() == i,
                forall|j: int|
                    0 <= j < i ==> (#[trigger] answers@[j])@ == local_answer(
                        self.questions@[j]@,
                    ),
            decreases self.questions.len() - i,
        {
            let q = &self.questions[i];
            let answer = Answer {
                name: q.name.clone(),
                answer_type: QType::A,
                class: QClass::IN,
                ttl: LOCAL_TTL,
                length: 4,
                data: vec![192, 168, 0, 1],
            };
            assert(answer@.data =~= seq![192u8, 168u8, 0u8, 1u8]);
            answers.push(answer);
            i += 1;
        }
        let header = make_response_header(&self.header);
        let r = Message { header, questions: copy_questions(&self.questions), answer: answers };
        assert(r@.answers =~= self@.questions.map_values(|q: QuestionView| local_answer(q)));
        r
    }

    /// One request per question, in order: this message's header with a
    /// question count of 1, then that question.
    pub fn split_as_bytes(&self) -> (r: Vec<Vec<u8>>)
        ensures
            r@.len() == self.questions@.len(),
            forall|i: int|
                0 <= i < r@.len() ==> (#[trigger] r@[i])@ == single_question_wire(
                    self.header,
                    self.questions@[i]@,
                ),
    {
        let mut result: Vec<Vec<u8>> = Vec::new();
        let mut header = self.header;
        header.question_count = 1;
        let mut i: usize = 0;
        while i < self.questions.len()
            invariant
                i <= self.questions@.len(),
                header == (Header { question_count: 1, ..self.header }),
                result@.len() == i,
                forall|j: int|
                    0 <= j < i ==> (#[trigger] result@[j])@ == single_question_wire(
                        self.header,
                        self.questions@[j]@,
                    ),
            decreases self.questions.len() - i,
        {
            let mut bytes = header.as_bytes();
            let q = self.questions[i].as_bytes();
            append_bytes(&mut bytes, q.as_slice());
            result.push(bytes);
            i += 1;
        }
        result
    }
}

impl Default for Message {
    /// One default question and one default answer under the default header.
    fn default() -> (r: Message)
        ensures
            r.header == Header::spec_default(),
            r.questions@.len() == 1,
            r.answer@.len() == 1,
    {
        Message {
            questions: vec![Question::default()],
            answer: vec![Answer::default()],
            header: Header::default(),
        }
    }
}

/// A request whose header counts no question has no questions, and its
/// question section ends right after the twelve header bytes.
pub proof fn lemma_no_questions(buf: Seq<u8>)
    requires
        buf.len() >= HEADER_LEN,
        Header::from_wire(buf).question_count == 0,
    ensures
        read_questions(buf, HEADER_LEN as int, 0) == Ok::<(Seq<QuestionView>, int), WireError>(
            (Seq::empty(), HEADER_LEN as int),
        ),
        read_request(buf) == Ok::<MessageView, WireError>(
            MessageView {
                header: Header::from_wire(buf),
                questions: Seq::empty(),
                answers: Seq::empty(),
            },
        ),
{
}

/// The header read from a buffer depends only on its first twelve bytes.
proof fn lemma_header_prefix(buf: Seq<u8>, h: Header)
    requires
        buf.len() >= HEADER_LEN,
        buf.subrange(0, HEADER_LEN as int) == h.wire(),
    ensures
        Header::from_wire(buf) == Header::from_wire(h.wire()),
{
    let w = h.wire();
    assert forall|i: int| 0 <= i < 12 implies buf[i] == w[i] by {
        assert(buf.subrange(0, 12)[i] == buf[i]);
    }
}

/// A request made by splitting a query decodes, when the header is valid and
/// the question's name has labels of 1 to 63 bytes, to the query's header
/// with a question count of 1 and that one question.
pub proof fn lemma_split_request_decodes(h: Header, q: QuestionView)
    requires
        h.valid(),
        plain_name(q.name),
    ensures
        read_request(single_question_wire(h, q)) == Ok::<MessageView, WireError>(
            MessageView {
                header: Header { question_count: 1, ..h },
                questions: seq![q],
                answers: Seq::empty(),
            },
        ),
{
    let h1 = Header { question_count: 1, ..h };
    let buf = single_question_wire(h, q);
    assert(buf.subrange(0, HEADER_LEN as int) =~= h1.wire());
    lemma_header_prefix(buf, h1);
    lemma_header_round_trip(h1);
    assert(buf.subrange(12, 12 + q.wire().len() as int) =~= q.wire());
    lemma_question_round_trip(buf, 12, q);
    let end = 12 + q.wire().len() as int;
    assert(read_questions(buf, end, 0nat) == Ok::<(Seq<QuestionView>, int), WireError>(
        (Seq::empty(), end),
    ));
    assert(seq![q] + Seq::<QuestionView>::empty() =~= seq![q]);
}

} // verus!
