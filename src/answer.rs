//! Answer records: name, type, class, time to live and resource data.
use vstd::prelude::*;

use crate::bytes::{
    append_bytes, be16, be32, lemma_u16_at_be16, lemma_u32_at_be32, push_be16, push_be32, read_u16,
    read_u32, u16_at, u32_at,
};
use crate::labels::{
    decode_name, encode_name, lemma_name_round_trip, name_wire, plain_name, read_name,
    LabelDecompression,
};
use crate::types::{lemma_qclass_round_trip, lemma_qtype_round_trip, QClass, QType, WireError};
use vstd::slice::slice_to_vec;

verus! {

/// An answer (resource record) of a message.
#[derive(Debug, Clone)]
pub struct Answer {
    /// Dotted domain name.
    pub name: String,
    pub answer_type: QType,
    pub class: QClass,
    /// Time to live in seconds.
    pub ttl: u32,
    /// Length of the resource data as written on the wire.
    pub length: u16,
    /// Resource data, read according to the record type.
    pub data: Vec<u8>,
}

/// What an answer holds.
pub struct AnswerView {
    pub name: Seq<char>,
    pub answer_type: QType,
    pub class: QClass,
    pub ttl: u32,
    pub length: u16,
    pub data: Seq<u8>,
}

impl View for Answer {
    type V = AnswerView;

    open spec fn view(&self) -> AnswerView {
        AnswerView {
            name: self.name@,
            answer_type: self.answer_type,
            class: self.class,
            ttl: self.ttl,
            length: self.length,
            data: self.data@,
        }
    }
}

impl AnswerView {
    /// The wire form: name, type, class, ttl, data length, data.
    pub open spec fn wire(self) -> Seq<u8> {
        name_wire(self.name) + be16(self.answer_type.value()) + be16(self.class.value()) + be32(
            self.ttl,
        ) + be16(self.length) + self.data
    }
}

/// The views of a sequence of answers.
pub open spec fn answer_views(a: Seq<Answer>) -> Seq<AnswerView> {
    a.map_values(|x: Answer| x@)
}

/// Reads the answer at `pos`: its name, ten bytes of fixed fields, then as
/// many data bytes as the length field says. Gives the answer and the offset
/// after it.
pub open spec fn read_answer(buf: Seq<u8>, pos: int) -> Result<(AnswerView, int), WireError> {
    match read_name(buf, pos) {
        Err(e) => Err(e),
        Ok((name, p)) => if p + 10 > buf.len() {
            Err(WireError::TruncatedBuffer)
        } else {
            let length = u16_at(buf, p + 8);
            let end = p + 10 + length;
            if end > buf.len() {
                Err(WireError::TruncatedBuffer)
            } else {
                match (
                    QType::spec_from_u16(u16_at(buf, p)),
                    QClass::spec_from_u16(u16_at(buf, p + 2)),
                ) {
                    (Some(t), Some(c)) => Ok(
                        (
                            AnswerView {
                                name,
                                answer_type: t,
                                class: c,
                                ttl: u32_at(buf, p + 4),
                                length,
                                data: buf.subrange(p + 10, end),
                            },
                            end,
                        ),
                    ),
                    _ => Err(WireError::UnknownEnumValue),
                }
            }
        },
    }
}

/// Reads `count` answers one after another from `pos`; gives them and the
/// offset after the last. The first failure is the result.
pub open spec fn read_answers(buf: Seq<u8>, pos: int, count: nat) -> Result<
    (Seq<AnswerView>, int),
    WireError,
>
    decreases count,
{
    if count == 0 {
        Ok((Seq::empty(), pos))
    } else {
        match read_answer(buf, pos) {
            Err(e) => Err(e),
            Ok((a, p)) => match read_answers(buf, p, (count - 1) as nat) {
                Err(e) => Err(e),
                Ok((rest, end)) => Ok((seq![a] + rest, end)),
            },
        }
    }
}

impl LabelDecompression for Answer {

}

impl Answer {
    /// Encodes the answer: its name without compression, then the fixed
    /// fields and the data.
    pub fn as_bytes(&self) -> (r: Vec<u8>)
        ensures
            r@ == self@.wire(),
    {
        let mut out: Vec<u8> = Vec::new();
        encode_name(self.name.as_str(), &mut out);
        push_be16(&mut out, self.answer_type.as_u16());
        push_be16(&mut out, self.class.as_u16());
        push_be32(&mut out, self.ttl);
        push_be16(&mut out, self.length);
        append_bytes(&mut out, self.data.as_slice());
        assert(out@ =~= self@.wire());
        out
    }

    /// Decodes one answer at `pos`.
    pub fn parse_one(buf: &[u8], pos: usize) -> (r: Result<(Answer, usize), WireError>)
        ensures
            match r {
                Ok((a, n)) => read_answer(buf@, pos as int) == Ok::<(AnswerView, int), WireError>(
                    (a@, n as int),
                ),
                Err(e) => read_answer(buf@, pos as int) == Err::<(AnswerView, int), WireError>(e),
            },
    {
        let (name, p) = match decode_name(buf, pos) {
            Ok(x) => x,
            Err(e) => {
                return Err(e);
            },
        };
        if p > buf.len() || buf.len() - p < 10 {
            return Err(WireError::TruncatedBuffer);
        }
        let length = read_u16(buf, p + 8);
        if buf.len() - p - 10 < length as usize {
            return Err(WireError::TruncatedBuffer);
        }
        let end = p + 10 + length as usize;
        let data = slice_to_vec(&buf[p + 10..end]);
        let answer_type = match QType::from_u16(read_u16(buf, p)) {
            Some(t) => t,
            None => {
                return Err(WireError::UnknownEnumValue);
            },
        };
        let class = match QClass::from_u16(read_u16(buf, p + 2)) {
            Some(c) => c,
            None => {
                return Err(WireError::UnknownEnumValue);
            },
        };
        let ttl = read_u32(buf, p + 4);
        Ok((Answer { name, answer_type, class, ttl, length, data }, end))
    }

    /// Decodes `a_count` answers, the first at `start_pos`.
    pub fn parse(buf: &[u8], start_pos: usize, a_count: u16) -> (r: Result<Vec<Answer>, WireError>)
        ensures
            match r {
                Ok(a) => read_answers(buf@, start_pos as int, a_count as nat) matches Ok((v, _))
                    && v == answer_views(a@),
                Err(e) => read_answers(buf@, start_pos as int, a_count as nat) == Err::<
                    (Seq<AnswerView>, int),
                    WireError,
                >(e),
            },
    {
        let mut answers: Vec<Answer> = Vec::new();
        let mut pos: usize = start_pos;
        let mut i: u16 = 0;
        proof {
            match read_answers(buf@, pos as int, a_count as nat) {
                Ok((rest, end)) => {
                    assert(answer_views(answers@) + rest =~= rest);
                },
                Err(_) => {},
            }
        }
        while i < a_count
            invariant
                i <= a_count,
                read_answers(buf@, start_pos as int, a_count as nat) == match read_answers(
                    buf@,
                    pos as int,
                    (a_count - i) as nat,
                ) {
                    Ok((rest, end)) => Ok((answer_views(answers@) + rest, end)),
                    Err(e) => Err(e),
                },
            decreases a_count - i,
        {
            let (a, p) = match Answer::parse_one(buf, pos) {
                Ok(x) => x,
                Err(e) => {
                    return Err(e);
                },
            };
            let ghost before = answers@;
            answers.push(a);
            proof {
                assert(answer_views(answers@) =~= answer_views(before).push(a@));
                match read_answers(buf@, p as int, (a_count - i - 1) as nat) {
                    Ok((rest, end)) => {
                        assert(answer_views(before) + (seq![a@] + rest) =~= answer_views(answers@)
                            + rest);
                    },
                    Err(_) => {},
                }
            }
            pos = p;
            i += 1;
        }
        proof {
            assert(answer_views(answers@) + Seq::<AnswerView>::empty() =~= answer_views(answers@));
        }
        Ok(answers)
    }
}

/// An answer whose name has labels of 1 to 63 bytes and whose length field
/// is the length of its data decodes, from wherever its encoding stands in a
/// buffer, to itself, and decoding ends right after it.
pub proof fn lemma_answer_round_trip(buf: Seq<u8>, pos: int, a: AnswerView)
    requires
        plain_name(a.name),
        a.length == a.data.len(),
        0 <= pos,
        pos + a.wire().len() <= buf.len(),
        buf.subrange(pos, pos + a.wire().len()) == a.wire(),
    ensures
        read_answer(buf, pos) == Ok::<(AnswerView, int), WireError>((a, pos + a.wire().len())),
{
    let w = a.wire();
    let nw = name_wire(a.name);
    let p = pos + nw.len();
    assert forall|k: int| 0 <= k < w.len() implies buf[pos + k] == w[k] by {
        assert(buf.subrange(pos, pos + w.len())[k] == w[k]);
    }
    assert(buf.subrange(pos, p) =~= nw) by {
        assert forall|k: int| 0 <= k < nw.len() implies buf.subrange(pos, p)[k] == nw[k] by {
            assert(buf[pos + k] == w[k]);
        }
    }
    lemma_name_round_trip(buf, pos, a.name);
    assert(buf.subrange(p, p + 2) =~= be16(a.answer_type.value())) by {
        assert forall|k: int| 0 <= k < 2 implies buf.subrange(p, p + 2)[k] == be16(
            a.answer_type.value(),
        )[k] by {
            assert(buf[pos + nw.len() + k] == w[nw.len() + k]);
        }
    }
    assert(buf.subrange(p + 2, p + 4) =~= be16(a.class.value())) by {
        assert forall|k: int| 0 <= k < 2 implies buf.subrange(p + 2, p + 4)[k] == be16(
            a.class.value(),
        )[k] by {
            assert(buf[pos + nw.len() + 2 + k] == w[nw.len() + 2 + k]);
        }
    }
    assert(buf.subrange(p + 4, p + 8) =~= be32(a.ttl)) by {
        assert forall|k: int| 0 <= k < 4 implies buf.subrange(p + 4, p + 8)[k] == be32(a.ttl)[k] by {
            assert(buf[pos + nw.len() + 4 + k] == w[nw.len() + 4 + k]);
        }
    }
    assert(buf.subrange(p + 8, p + 10) =~= be16(a.length)) by {
        assert forall|k: int| 0 <= k < 2 implies buf.subrange(p + 8, p + 10)[k] == be16(
            a.length,
        )[k] by {
            assert(buf[pos + nw.len() + 8 + k] == w[nw.len() + 8 + k]);
        }
    }
    let end = p + 10 + a.length;
    assert(buf.subrange(p + 10, end) =~= a.data) by {
        assert forall|k: int| 0 <= k < a.data.len() implies buf.subrange(p + 10, end)[k]
            == a.data[k] by {
            assert(buf[pos + nw.len() + 10 + k] == w[nw.len() + 10 + k]);
        }
    }
    lemma_u16_at_be16(buf, p, a.answer_type.value());
    lemma_u16_at_be16(buf, p + 2, a.class.value());
    lemma_u32_at_be32(buf, p + 4, a.ttl);
    lemma_u16_at_be16(buf, p + 8, a.length);
    lemma_qtype_round_trip(a.answer_type);
    lemma_qclass_round_trip(a.class);
}

/// An answer whose name and fixed fields are present but whose type value is
/// outside 1..=16, or whose class value is outside 1..=4, fails with
/// `UnknownEnumValue`.
pub proof fn lemma_answer_unknown_value(buf: Seq<u8>, pos: int)
    requires
        read_name(buf, pos) matches Ok((_, p)) && p + 10 <= buf.len() && p + 10 + u16_at(
            buf,
            p + 8,
        ) <= buf.len() && !(1 <= u16_at(buf, p) <= 16 && 1 <= u16_at(buf, p + 2) <= 4),
    ensures
        read_answer(buf, pos) == Err::<(AnswerView, int), WireError>(WireError::UnknownEnumValue),
{
}

impl Default for Answer {
    /// `codecrafters.io`, type `A`, class `IN`, ttl 60, address 8.8.8.8.
    fn default() -> (r: Answer)
        ensures
            r.name@ == "codecrafters.io"@,
            r.answer_type == QType::A,
            r.class == QClass::IN,
            r.ttl == 60,
            r.length == 4,
            r.data@ == seq![8u8, 8u8, 8u8, 8u8],
    {
        let r = Answer {
            name: "codecrafters.io".to_string(),
            answer_type: QType::A,
            class: QClass::IN,
            ttl: 60,
            length: 4,
            data: vec![8, 8, 8, 8],
        };
        assert(r.data@ =~= seq![8u8, 8u8, 8u8, 8u8]);
        r
    }
}

} // verus!
