//! The fixed twelve-byte message header.
use vstd::prelude::*;

use crate::bytes::{be16, lemma_be16_round_trip, u16_at};
use crate::types::{QRIndicator, WireError};

verus! {

/// Length in bytes of an encoded header.
pub const HEADER_LEN: usize = 12;

/// A DNS message header.
#[derive(Debug, Clone, Copy, PartialEq, Eq, Structural)]
pub struct Header {
    /// Transaction identifier, echoed in responses.
    pub id: u16,
    /// Query/response indicator.
    pub qr: QRIndicator,
    /// Kind of query (four bits); 0 is a standard query.
    pub opcode: u8,
    /// Set when the responding server owns the queried domain.
    pub authorative_answer: bool,
    /// Set when the message was truncated.
    pub truncation: bool,
    /// Set by the sender when the query should be resolved recursively.
    pub recursion_desired: bool,
    /// Set by the server when recursion is available.
    pub recursion_available: bool,
    /// Reserved bits (three bits).
    pub reserved: u8,
    /// Response code (four bits): 0 no error, 4 not implemented.
    pub response_code: u8,
    pub question_count: u16,
    pub answer_record_count: u16,
    pub authority_record_count: u16,
    pub additional_record_count: u16,
}

/// 1 for a set flag, 0 otherwise.
pub open spec fn flag(b: bool) -> int {
    if b {
        1
    } else {
        0
    }
}

impl Header {
    /// The sub-byte fields fit their widths.
    pub open spec fn valid(self) -> bool {
        &&& self.opcode < 16
        &&& self.reserved < 8
        &&& self.response_code < 16
    }

    /// The third header byte: qr, opcode, aa, tc, rd from the high bit down.
    pub open spec fn flags_hi(self) -> u8 {
        (self.qr.bit() * 128 + (self.opcode % 16) * 8 + flag(self.authorative_answer) * 4 + flag(
            self.truncation,
        ) * 2 + flag(self.recursion_desired)) as u8
    }

    /// The fourth header byte: ra, reserved, response code from the high bit down.
    pub open spec fn flags_lo(self) -> u8 {
        (flag(self.recursion_available) * 128 + (self.reserved % 8) * 16 + self.response_code
            % 16) as u8
    }

    /// The wire form of the header; fields wider than their bit width are
    /// cut to it.
    pub open spec fn wire(self) -> Seq<u8> {
        be16(self.id) + seq![self.flags_hi(), self.flags_lo()] + be16(self.question_count) + be16(
            self.answer_record_count,
        ) + be16(self.authority_record_count) + be16(self.additional_record_count)
    }

    /// The header that the first twelve bytes of `buf` encode.
    pub open spec fn from_wire(buf: Seq<u8>) -> Header {
        Header {
            id: u16_at(buf, 0),
            qr: QRIndicator::spec_from_uint(buf[2] / 128),
            opcode: (buf[2] / 8 % 16) as u8,
            authorative_answer: buf[2] / 4 % 2 == 1,
            truncation: buf[2] / 2 % 2 == 1,
            recursion_desired: buf[2] % 2 == 1,
            recursion_available: buf[3] / 128 == 1,
            reserved: (buf[3] / 16 % 8) as u8,
            response_code: (buf[3] % 16) as u8,
            question_count: u16_at(buf, 4),
            answer_record_count: u16_at(buf, 6),
            authority_record_count: u16_at(buf, 8),
            additional_record_count: u16_at(buf, 10),
        }
    }

    /// The header every response starts from: id 1234, a response with no
    /// flags set, one question and one answer.
    pub open spec fn spec_default() -> Header {
        Header {
            id: 1234,
            qr: QRIndicator::Response,
            opcode: 0,
            authorative_answer: false,
            truncation: false,
            recursion_desired: false,
            recursion_available: false,
            reserved: 0,
            response_code: 0,
            question_count: 1,
            answer_record_count: 1,
            authority_record_count: 0,
            additional_record_count: 0,
        }
    }

    /// Encodes the header in its twelve wire bytes.
    pub fn as_bytes(&self) -> (r: Vec<u8>)
        ensures
            r@ == self.wire(),
            r@.len() == HEADER_LEN,
    {
        let qr = self.qr.as_u8();
        let aa: u8 = if self.authorative_answer {
            1
        } else {
            0
        };
        let tc: u8 = if self.truncation {
            1
        } else {
            0
        };
        let rd: u8 = if self.recursion_desired {
            1
        } else {
            0
        };
        let ra: u8 = if self.recursion_available {
            1
        } else {
            0
        };
        let hi: u8 = qr * 128 + (self.opcode % 16) * 8 + aa * 4 + tc * 2 + rd;
        let lo: u8 = ra * 128 + (self.reserved % 8) * 16 + self.response_code % 16;
        let r = vec![
            (self.id / 256) as u8,
            (self.id % 256) as u8,
            hi,
            lo,
            (self.question_count / 256) as u8,
            (self.question_count % 256) as u8,
            (self.answer_record_count / 256) as u8,
            (self.answer_record_count % 256) as u8,
            (self.authority_record_count / 256) as u8,
            (self.authority_record_count % 256) as u8,
            (self.additional_record_count / 256) as u8,
            (self.additional_record_count % 256) as u8,
        ];
        assert(r@ =~= self.wire());
        r
    }

    /// Decodes the header at the start of `buf`; any twelve bytes decode.
    pub fn parse(buf: &[u8]) -> (r: Result<Header, WireError>)
        ensures
            buf@.len() < HEADER_LEN ==> r == Err::<Header, WireError>(WireError::TruncatedBuffer),
            buf@.len() >= HEADER_LEN ==> r == Ok::<Header, WireError>(Header::from_wire(buf@)),
    {
        if buf.len() < HEADER_LEN {
            return Err(WireError::TruncatedBuffer);
        }
        Ok(
            Header {
                id: (buf[0] as u16) * 256 + buf[1] as u16,
                qr: QRIndicator::from_uint(buf[2] / 128),
                opcode: buf[2] / 8 % 16,
                authorative_answer: buf[2] / 4 % 2 == 1,
                truncation: buf[2] / 2 % 2 == 1,
                recursion_desired: buf[2] % 2 == 1,
                recursion_available: buf[3] / 128 == 1,
                reserved: buf[3] / 16 % 8,
                response_code: buf[3] % 16,
                question_count: (buf[4] as u16) * 256 + buf[5] as u16,
                answer_record_count: (buf[6] as u16) * 256 + buf[7] as u16,
                authority_record_count: (buf[8] as u16) * 256 + buf[9] as u16,
                additional_record_count: (buf[10] as u16) * 256 + buf[11] as u16,
            },
        )
    }
}

impl Default for Header {
    fn default() -> (r: Header)
        ensures
            r == Header::spec_default(),
    {
        Header {
            id: 1234,
            qr: QRIndicator::Response,
            opcode: 0,
            authorative_answer: false,
            truncation: false,
            recursion_desired: false,
            recursion_available: false,
            reserved: 0,
            response_code: 0,
            question_count: 1,
            answer_record_count: 1,
            authority_record_count: 0,
            additional_record_count: 0,
        }
    }
}

/// Decoding the encoding of a valid header gives the header back.
pub proof fn lemma_header_round_trip(h: Header)
    requires
        h.valid(),
    ensures
        Header::from_wire(h.wire()) == h,
{
    let w = h.wire();
    lemma_be16_round_trip(h.id);
    lemma_be16_round_trip(h.question_count);
    lemma_be16_round_trip(h.answer_record_count);
    lemma_be16_round_trip(h.authority_record_count);
    lemma_be16_round_trip(h.additional_record_count);
    assert(w.subrange(0, 2) =~= be16(h.id));
    assert(w.subrange(4, 6) =~= be16(h.question_count));
    assert(w.subrange(6, 8) =~= be16(h.answer_record_count));
    assert(w.subrange(8, 10) =~= be16(h.authority_record_count));
    assert(w.subrange(10, 12) =~= be16(h.additional_record_count));
    let q = h.qr.bit() as int;
    let o = h.opcode as int;
    let a = flag(h.authorative_answer);
    let t = flag(h.truncation);
    let d = flag(h.recursion_desired);
    let b2 = q * 128 + o * 8 + a * 4 + t * 2 + d;
    assert(0 <= q <= 1 && 0 <= a <= 1 && 0 <= t <= 1 && 0 <= d <= 1);
    assert(b2 / 128 == q && b2 / 8 % 16 == o && b2 / 4 % 2 == a && b2 / 2 % 2 == t && b2 % 2
        == d) by (nonlinear_arith)
        requires
            0 <= q <= 1,
            0 <= a <= 1,
            0 <= t <= 1,
            0 <= d <= 1,
            0 <= o < 16,
            b2 == q * 128 + o * 8 + a * 4 + t * 2 + d,
    ;
    let v = flag(h.recursion_available);
    let s = h.reserved as int;
    let c = h.response_code as int;
    let b3 = v * 128 + s * 16 + c;
    assert(b3 / 128 == v && b3 / 16 % 8 == s && b3 % 16 == c) by (nonlinear_arith)
        requires
            0 <= v <= 1,
            0 <= s < 8,
            0 <= c < 16,
            b3 == v * 128 + s * 16 + c,
    ;
    assert(h.qr == QRIndicator::spec_from_uint(h.qr.bit()));
}

} // verus!
