//! Closed enumerations of the wire format and their numeric values.
use vstd::prelude::*;

verus! {

/// Why a buffer could not be decoded.
#[derive(Debug, Clone, Copy, PartialEq, Eq, Structural)]
pub enum WireError {
    /// A declared length or a fixed field runs past the end of the buffer.
    TruncatedBuffer,
    /// The bytes of a label are not valid UTF-8.
    InvalidEncoding,
    /// A record type or class outside the known set.
    UnknownEnumValue,
    /// A compression pointer that does not point before the name holding it.
    MalformedPointer,
}

/// Query/response indicator of a header.
#[derive(Debug, Clone, Copy, PartialEq, Eq, Structural)]
pub enum QRIndicator {
    Query,
    Response,
}

impl QRIndicator {
    /// The value of the indicator bit.
    pub open spec fn bit(self) -> u8 {
        match self {
            QRIndicator::Query => 0,
            QRIndicator::Response => 1,
        }
    }

    pub open spec fn spec_from_uint(value: u8) -> QRIndicator {
        if value == 1 {
            QRIndicator::Response
        } else {
            QRIndicator::Query
        }
    }

    pub fn as_u8(self) -> (r: u8)
        ensures
            r == self.bit(),
    {
        match self {
            QRIndicator::Query => 0,
            QRIndicator::Response => 1,
        }
    }

    /// `1` is a response; every other value reads as a query.
    pub fn from_uint(value: u8) -> (r: QRIndicator)
        ensures
            r == Self::spec_from_uint(value),
    {
        match value {
            1 => QRIndicator::Response,
            _ => QRIndicator::Query,
        }
    }
}

/// Record types (the TYPE values of resource records).
#[derive(Debug, Clone, Copy, PartialEq, Eq, Structural)]
pub enum QType {
    /// A host address
    A,
    /// An authoritative name server
    NS,
    /// A mail destination (obsolete, use MX)
    MD,
    /// A mail forwarder (obsolete, use MX)
    MF,
    /// The canonical name for an alias
    CNAME,
    /// Marks the start of a zone of authority
    SOA,
    /// A mailbox domain name (experimental)
    MB,
    /// A mail group member (experimental)
    MG,
    /// A mail rename domain name (experimental)
    MR,
    /// A null RR (experimental)
    NULL,
    /// A well known service description
    WKS,
    /// A domain name pointer
    PTR,
    /// Host information
    HINFO,
    /// Mailbox or mail list information
    MINFO,
    /// Mail exchange
    MX,
    /// Text strings
    TXT,
}

impl QType {
    /// The wire value of each record type.
    pub open spec fn value(self) -> u16 {
        match self {
            QType::A => 1,
            QType::NS => 2,
            QType::MD => 3,
            QType::MF => 4,
            QType::CNAME => 5,
            QType::SOA => 6,
            QType::MB => 7,
            QType::MG => 8,
            QType::MR => 9,
            QType::NULL => 10,
            QType::WKS => 11,
            QType::PTR => 12,
            QType::HINFO => 13,
            QType::MINFO => 14,
            QType::MX => 15,
            QType::TXT => 16,
        }
    }

    /// The record type whose wire value is `value`, if any.
    pub open spec fn spec_from_u16(value: u16) -> Option<QType> {
        match value {
            1 => Some(QType::A),
            2 => Some(QType::NS),
            3 => Some(QType::MD),
            4 => Some(QType::MF),
            5 => Some(QType::CNAME),
            6 => Some(QType::SOA),
            7 => Some(QType::MB),
            8 => Some(QType::MG),
            9 => Some(QType::MR),
            10 => Some(QType::NULL),
            11 => Some(QType::WKS),
            12 => Some(QType::PTR),
            13 => Some(QType::HINFO),
            14 => Some(QType::MINFO),
            15 => Some(QType::MX),
            16 => Some(QType::TXT),
            _ => None,
        }
    }

    pub fn as_u16(self) -> (r: u16)
        ensures
            r == self.value(),
            1 <= r <= 16,
    {
        match self {
            QType::A => 1,
            QType::NS => 2,
            QType::MD => 3,
            QType::MF => 4,
            QType::CNAME => 5,
            QType::SOA => 6,
            QType::MB => 7,
            QType::MG => 8,
            QType::MR => 9,
            QType::NULL => 10,
            QType::WKS => 11,
            QType::PTR => 12,
            QType::HINFO => 13,
            QType::MINFO => 14,
            QType::MX => 15,
            QType::TXT => 16,
        }
    }

    pub fn from_u16(value: u16) -> (r: Option<QType>)
        ensures
            r == QType::spec_from_u16(value),
            r is Some <==> 1 <= value <= 16,
            r matches Some(t) ==> t.value() == value,
    {
        match value {
            1 => Some(QType::A),
            2 => Some(QType::NS),
            3 => Some(QType::MD),
            4 => Some(QType::MF),
            5 => Some(QType::CNAME),
            6 => Some(QType::SOA),
            7 => Some(QType::MB),
            8 => Some(QType::MG),
            9 => Some(QType::MR),
            10 => Some(QType::NULL),
            11 => Some(QType::WKS),
            12 => Some(QType::PTR),
            13 => Some(QType::HINFO),
            14 => Some(QType::MINFO),
            15 => Some(QType::MX),
            16 => Some(QType::TXT),
            _ => None,
        }
    }
}

/// Every record type decodes from its own wire value.
pub proof fn lemma_qtype_round_trip(t: QType)
    ensures
        QType::spec_from_u16(t.value()) == Some(t),
{
}

/// Record classes.
#[derive(Debug, Clone, Copy, PartialEq, Eq, Structural)]
pub enum QClass {
    /// The Internet
    IN,
    /// The CSNET class (obsolete)
    CS,
    /// The CHAOS class
    CH,
    /// Hesiod
    HS,
}

impl QClass {
    /// The wire value of each class.
    pub open spec fn value(self) -> u16 {
        match self {
            QClass::IN => 1,
            QClass::CS => 2,
            QClass::CH => 3,
            QClass::HS => 4,
        }
    }

    /// The class whose wire value is `value`, if any.
    pub open spec fn spec_from_u16(value: u16) -> Option<QClass> {
        match value {
            1 => Some(QClass::IN),
            2 => Some(QClass::CS),
            3 => Some(QClass::CH),
            4 => Some(QClass::HS),
            _ => None,
        }
    }

    pub fn as_u16(self) -> (r: u16)
        ensures
            r == self.value(),
            1 <= r <= 4,
    {
        match self {
            QClass::IN => 1,
            QClass::CS => 2,
            QClass::CH => 3,
            QClass::HS => 4,
        }
    }

    pub fn from_u16(value: u16) -> (r: Option<QClass>)
        ensures
            r == QClass::spec_from_u16(value),
            r is Some <==> 1 <= value <= 4,
            r matches Some(c) ==> c.value() == value,
    {
        match value {
            1 => Some(QClass::IN),
            2 => Some(QClass::CS),
            3 => Some(QClass::CH),
            4 => Some(QClass::HS),
            _ => None,
        }
    }
}

/// Every class decodes from its own wire value.
pub proof fn lemma_qclass_round_trip(c: QClass)
    ensures
        QClass::spec_from_u16(c.value()) == Some(c),
{
}

} // verus!
