//! Question records: a name, a record type and a class.
use vstd::prelude::*;

use crate::bytes::{be16, lemma_u16_at_be16, push_be16, read_u16, u16_at};
use crate::header::HEADER_LEN;
use crate::labels::{
    decode_name, encode_name, lemma_name_round_trip, name_wire, plain_name, read_name,
    LabelDecompression,
};
use crate::types::{lemma_qclass_round_trip, lemma_qtype_round_trip, QClass, QType, WireError};

verus! {

/// A question of a message.
#[derive(Debug, Clone)]
pub struct Question {
    /// Dotted domain name, case preserved.
    pub name: String,
    pub question_type: QType,
    pub class: QClass,
}

/// What a question holds: its name as text, its type and its class.
pub struct QuestionView {
    pub name: Seq<char>,
    pub question_type: QType,
    pub class: QClass,
}

impl View for Question {
    type V = QuestionView;

    open spec fn view(&self) -> QuestionView {
        QuestionView { name: self.name@, question_type: self.question_type, class: self.class }
    }
}

impl QuestionView {
    /// The wire form: the name, then type and class as big-endian 16-bit values.
    pub open spec fn wire(self) -> Seq<u8> {
        name_wire(self.name) + be16(self.question_type.value()) + be16(self.class.value())
    }
}

/// The views of a sequence of questions.
pub open spec fn question_views(qs: Seq<Question>) -> Seq<QuestionView> {
    qs.map_values(|q: Question| q@)
}

/// Reads the question at `pos`: its name, then four bytes of type and class.
/// Gives the question and the offset after it.
pub open spec fn read_question(buf: Seq<u8>, pos: int) -> Result<(QuestionView, int), WireError> {
    match read_name(buf, pos) {
        Err(e) => Err(e),
        Ok((name, p)) => if p + 4 > buf.len() {
            Err(WireError::TruncatedBuffer)
        } else {
            match (QType::spec_from_u16(u16_at(buf, p)), QClass::spec_from_u16(u16_at(buf, p + 2))) {
                (Some(t), Some(c)) => Ok(
                    (QuestionView { name, question_type: t, class: c }, p + 4),
                ),
                _ => Err(WireError::UnknownEnumValue),
            }
        },
    }
}

/// Reads `count` questions one after another from `pos`; gives them and the
/// offset after the last. The first failure is the result.
pub open spec fn read_questions(buf: Seq<u8>, pos: int, count: nat) -> Result<
    (Seq<QuestionView>, int),
    WireError,
>
    decreases count,
{
    if count == 0 {
        Ok((Seq::empty(), pos))
    } else {
        match read_question(buf, pos) {
            Err(e) => Err(e),
            Ok((q, p)) => match read_questions(buf, p, (count - 1) as nat) {
                Err(e) => Err(e),
                Ok((qs, end)) => Ok((seq![q] + qs, end)),
            },
        }
    }
}

impl LabelDecompression for Question {

}

impl Question {
    /// A copy of the question.
    pub fn duplicate(&self) -> (r: Question)
        ensures
            r@ == self@,
    {
        Question { name: self.name.clone(), question_type: self.question_type, class: self.class }
    }

    /// Encodes the question: its name without compression, then type and class.
    pub fn as_bytes(&self) -> (r: Vec<u8>)
        ensures
            r@ == self@.wire(),
    {
        let mut out: Vec<u8> = Vec::new();
        encode_name(self.name.as_str(), &mut out);
        push_be16(&mut out, self.question_type.as_u16());
        push_be16(&mut out, self.class.as_u16());
        assert(out@ =~= self@.wire());
        out
    }

    /// Decodes one question at `pos`.
    pub fn parse_one(buf: &[u8], pos: usize) -> (r: Result<(Question, usize), WireError>)
        ensures
            match r {
                Ok((q, n)) => read_question(buf@, pos as int) == Ok::<(QuestionView, int), WireError>(
                    (q@, n as int),
                ),
                Err(e) => read_question(buf@, pos as int) == Err::<(QuestionView, int), WireError>(e),
            },
    {
        let (name, p) = match decode_name(buf, pos) {
            Ok(x) => x,
            Err(e) => {
                return Err(e);
            },
        };
        if p > buf.len() || buf.len() - p < 4 {
            return Err(WireError::TruncatedBuffer);
        }
        let question_type = match QType::from_u16(read_u16(buf, p)) {
            Some(t) => t,
            None => {
                return Err(WireError::UnknownEnumValue);
            },
        };
        let class = match QClass::from_u16(read_u16(buf, p + 2)) {
            Some(c) => c,
            None => {
                return Err(WireError::UnknownEnumValue);
            },
        };
        Ok((Question { name, question_type, class }, p + 4))
    }

    /// Decodes `q_count` questions, the first right after the header; gives
    /// them and the offset after the last.
    pub fn parse(buf: &[u8], q_count: u16) -> (r: Result<(Vec<Question>, usize), WireError>)
        ensures
            match r {
                Ok((qs, n)) => read_questions(buf@, HEADER_LEN as int, q_count as nat) == Ok::<
                    (Seq<QuestionView>, int),
                    WireError,
                >((question_views(qs@), n as int)),
                Err(e) => read_questions(buf@, HEADER_LEN as int, q_count as nat) == Err::<
                    (Seq<QuestionView>, int),
                    WireError,
                >(e),
            },
    {
        let mut res: Vec<Question> = Vec::new();
        let mut pos: usize = HEADER_LEN;
        let mut i: u16 = 0;
        proof {
            match read_questions(buf@, pos as int, q_count as nat) {
                Ok((rest, end)) => {
                    assert(question_views(res@) + rest =~= rest);
                },
                Err(_) => {},
            }
        }
        while i < q_count
            invariant
                i <= q_count,
                read_questions(buf@, HEADER_LEN as int, q_count as nat) == match read_questions(
                    buf@,
                    pos as int,
                    (q_count - i) as nat,
                ) {
                    Ok((rest, end)) => Ok((question_views(res@) + rest, end)),
                    Err(e) => Err(e),
                },
            decreases q_count - i,
        {
            let (q, p) = match Question::parse_one(buf, pos) {
                Ok(x) => x,
                Err(e) => {
                    return Err(e);
                },
            };
            let ghost before = res@;
            res.push(q);
            proof {
                assert(question_views(res@) =~= question_views(before).push(q@));
                match read_questions(buf@, p as int, (q_count - i - 1) as nat) {
                    Ok((rest, end)) => {
                        assert(question_views(before) + (seq![q@] + rest) =~= question_views(res@)
                            + rest);
                    },
                    Err(_) => {},
                }
            }
            pos = p;
            i += 1;
        }
        proof {
            assert(question_views(res@) + Seq::<QuestionView>::empty() =~= question_views(res@));
        }
        Ok((res, pos))
    }
}

/// A question whose name has labels of 1 to 63 bytes decodes, from wherever
/// its encoding stands in a buffer, to itself, and decoding ends right after
/// it.
pub proof fn lemma_question_round_trip(buf: Seq<u8>, pos: int, q: QuestionView)
    requires
        plain_name(q.name),
        0 <= pos,
        pos + q.wire().len() <= buf.len(),
        buf.subrange(pos, pos + q.wire().len()) == q.wire(),
    ensures
        read_question(buf, pos) == Ok::<(QuestionView, int), WireError>(
            (q, pos + q.wire().len()),
        ),
{
    let w = q.wire();
    let nw = name_wire(q.name);
    let p = pos + nw.len();
    assert(buf.subrange(pos, p) =~= nw) by {
        assert forall|k: int| 0 <= k < nw.len() implies buf.subrange(pos, p)[k] == nw[k] by {
            assert(buf.subrange(pos, pos + w.len())[k] == w[k]);
        }
    }
    lemma_name_round_trip(buf, pos, q.name);
    assert(buf.subrange(p, p + 2) =~= be16(q.question_type.value())) by {
        assert forall|k: int| 0 <= k < 2 implies buf.subrange(p, p + 2)[k] == be16(
            q.question_type.value(),
        )[k] by {
            assert(buf.subrange(pos, pos + w.len())[nw.len() + k] == w[nw.len() + k]);
        }
    }
    assert(buf.subrange(p + 2, p + 4) =~= be16(q.class.value())) by {
        assert forall|k: int| 0 <= k < 2 implies buf.subrange(p + 2, p + 4)[k] == be16(
            q.class.value(),
        )[k] by {
            assert(buf.subrange(pos, pos + w.len())[nw.len() + 2 + k] == w[nw.len() + 2 + k]);
        }
    }
    lemma_u16_at_be16(buf, p, q.question_type.value());
    lemma_u16_at_be16(buf, p + 2, q.class.value());
    lemma_qtype_round_trip(q.question_type);
    lemma_qclass_round_trip(q.class);
}

/// A question whose name decodes but whose type value is outside 1..=16, or
/// whose class value is outside 1..=4, fails with `UnknownEnumValue`.
pub proof fn lemma_question_unknown_value(buf: Seq<u8>, pos: int)
    requires
        read_name(buf, pos) matches Ok((_, p)) && p + 4 <= buf.len() && !(1 <= u16_at(buf, p)
            <= 16 && 1 <= u16_at(buf, p + 2) <= 4),
    ensures
        read_question(buf, pos) == Err::<(QuestionView, int), WireError>(
            WireError::UnknownEnumValue,
        ),
{
}

impl Default for Question {
    /// `codecrafters.io`, type `A`, class `IN`.
    fn default() -> (r: Question)
        ensures
            r.name@ == "codecrafters.io"@,
            r.question_type == QType::A,
            r.class == QClass::IN,
    {
        Question { name: "codecrafters.io".to_string(), class: QClass::IN, question_type: QType::A }
    }
}

} // verus!
