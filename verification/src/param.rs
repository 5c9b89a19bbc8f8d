//! Optional parameters of chunks.

use bytes::{Bytes, BytesMut};
use vstd::prelude::*;

use crate::buf::{
    bytes_as_slice, bytes_content, bytes_mut_content, bytes_mut_extend,
    bytes_mut_put_u16, bytes_slice,
};
use crate::error::Error;

verus! {

/// How many bytes the header of a parameter takes: its type and its length, two bytes each.
pub const PARAM_HEADER_LENGTH: usize = 4;

/// The type of a parameter.
#[derive(Debug, Clone, Copy, PartialEq, Eq, Structural)]
pub enum ParamType {
    /// A type by its number.
    Unknown { param_type: u16 },
}

/// The header of a parameter: its type, and how many bytes of value follow.
#[derive(Debug, Clone, Copy, PartialEq, Eq, Structural)]
pub struct ParamHeader {
    pub typ: ParamType,
    pub value_length: u16,
}

/// A parameter that is passed on as it is.
#[derive(Debug, Clone, PartialEq)]
pub struct ParamUnknown {
    pub typ: u16,
    pub value: Bytes,
}

/// The mathematical value of a [`ParamUnknown`].
#[verifier::ext_equal]
pub struct ParamValue {
    pub typ: u16,
    pub value: Seq<u8>,
}

impl View for ParamUnknown {
    type V = ParamValue;

    open spec fn view(&self) -> ParamValue {
        ParamValue { typ: self.typ, value: bytes_content(self.value) }
    }
}

/// A number in two bytes, the high one first.
pub open spec fn be16(n: int) -> Seq<u8> {
    seq![(n / 256) as u8, (n % 256) as u8]
}

/// The number that two bytes make, the high one first.
pub open spec fn number_at(raw: Seq<u8>, i: int) -> int {
    raw[i] * 256 + raw[i + 1]
}

/// What is wrong with the header at the start of `raw`, if anything is: it is cut off, it announces
/// less than itself, or it announces more than there is.
pub open spec fn header_error(raw: Seq<u8>) -> Option<Error> {
    if raw.len() < PARAM_HEADER_LENGTH {
        Some(Error::ErrParamHeaderTooShort)
    } else if number_at(raw, 2) < PARAM_HEADER_LENGTH {
        Some(Error::ErrParamHeaderSelfReportedLengthShorter)
    } else if raw.len() < number_at(raw, 2) {
        Some(Error::ErrParamHeaderSelfReportedLengthLonger)
    } else {
        None
    }
}

/// The parameter at the start of `raw`.
pub open spec fn param_at(raw: Seq<u8>) -> ParamValue {
    ParamValue {
        typ: number_at(raw, 0) as u16,
        value: raw.subrange(PARAM_HEADER_LENGTH as int, number_at(raw, 2)),
    }
}

/// The bytes of a parameter.
pub open spec fn param_bytes(p: ParamValue) -> Seq<u8> {
    be16(p.typ as int) + be16((p.value.len() % 0x1_0000) + PARAM_HEADER_LENGTH) + p.value
}

impl ParamType {
    /// The number of the type.
    pub fn number(&self) -> (r: u16)
        ensures
            r == self->param_type,
    {
        match self {
            ParamType::Unknown { param_type } => *param_type,
        }
    }
}

impl ParamHeader {
    /// Reads the header at the start of `raw`. What it announces has to be there.
    pub fn unmarshal(raw: &Bytes) -> (r: Result<Self, Error>)
        ensures
            match r {
                Ok(header) => {
                    &&& header_error(bytes_content(*raw)) is None
                    &&& header.typ->param_type == number_at(bytes_content(*raw), 0)
                    &&& header.value_length + PARAM_HEADER_LENGTH == number_at(
                        bytes_content(*raw),
                        2,
                    )
                },
                Err(e) => header_error(bytes_content(*raw)) == Some(e),
            },
    {
        if raw.len() < PARAM_HEADER_LENGTH {
            return Err(Error::ErrParamHeaderTooShort);
        }
        let bytes: &[u8] = bytes_as_slice(raw);
        let param_type: u16 = bytes[0] as u16 * 256 + bytes[1] as u16;
        let len: u16 = bytes[2] as u16 * 256 + bytes[3] as u16;
        if (len as usize) < PARAM_HEADER_LENGTH {
            return Err(Error::ErrParamHeaderSelfReportedLengthShorter);
        }
        if raw.len() < len as usize {
            return Err(Error::ErrParamHeaderSelfReportedLengthLonger);
        }
        Ok(
            ParamHeader {
                typ: ParamType::Unknown { param_type },
                value_length: len - PARAM_HEADER_LENGTH as u16,
            },
        )
    }

    /// Appends the header to a buffer. Yields how much is in the buffer then.
    pub fn marshal_to(&self, buf: &mut BytesMut) -> (r: Result<usize, Error>)
        requires
            self.value_length + PARAM_HEADER_LENGTH <= u16::MAX,
            bytes_mut_content(*old(buf)).len() + PARAM_HEADER_LENGTH <= usize::MAX,
        ensures
            bytes_mut_content(*final(buf)) == bytes_mut_content(*old(buf)) + be16(
                self.typ->param_type as int,
            ) + be16(self.value_length + PARAM_HEADER_LENGTH),
            r == Ok::<usize, Error>(bytes_mut_content(*final(buf)).len() as usize),
    {
        let ghost before = bytes_mut_content(*buf);
        bytes_mut_put_u16(buf, self.typ.number());
        bytes_mut_put_u16(buf, self.value_length + PARAM_HEADER_LENGTH as u16);
        assert(bytes_mut_content(*buf) =~= before + be16(self.typ->param_type as int) + be16(
            self.value_length + PARAM_HEADER_LENGTH,
        ));
        Ok(buf.len())
    }

    /// How many bytes of value follow the header.
    pub fn value_length(&self) -> (r: usize)
        ensures
            r == self.value_length,
    {
        self.value_length as usize
    }
}

impl ParamUnknown {
    /// The header of the parameter. Of the length of the value, it has the low sixteen bits.
    pub fn header(&self) -> (r: ParamHeader)
        ensures
            r.typ->param_type == self@.typ,
            r.value_length == self@.value.len() % 0x1_0000,
    {
        let n: usize = self.value.len();
        ParamHeader {
            typ: ParamType::Unknown { param_type: self.typ },
            value_length: (n % 0x1_0000) as u16,
        }
    }

    /// Reads the parameter at the start of `raw`.
    pub fn unmarshal(raw: &Bytes) -> (r: Result<Self, Error>)
        ensures
            match r {
                Ok(p) => header_error(bytes_content(*raw)) is None && p@ == param_at(
                    bytes_content(*raw),
                ),
                Err(e) => header_error(bytes_content(*raw)) == Some(e),
            },
    {
        let header: ParamHeader = match ParamHeader::unmarshal(raw) {
            Ok(header) => header,
            Err(e) => {
                return Err(e);
            },
        };
        let value: Bytes = bytes_slice(
            raw,
            PARAM_HEADER_LENGTH,
            PARAM_HEADER_LENGTH + header.value_length(),
        );
        Ok(ParamUnknown { typ: header.typ.number(), value })
    }

    /// Appends the parameter to a buffer. Yields how much is in the buffer then.
    pub fn marshal_to(&self, buf: &mut BytesMut) -> (r: Result<usize, Error>)
        requires
            self@.value.len() % 0x1_0000 + PARAM_HEADER_LENGTH <= u16::MAX,
            bytes_mut_content(*old(buf)).len() + PARAM_HEADER_LENGTH + self@.value.len()
                <= usize::MAX,
        ensures
            bytes_mut_content(*final(buf)) == bytes_mut_content(*old(buf)) + param_bytes(self@),
            r == Ok::<usize, Error>(bytes_mut_content(*final(buf)).len() as usize),
    {
        let ghost before = bytes_mut_content(*buf);
        if let Err(e) = self.header().marshal_to(buf) {
            return Err(e);
        }
        bytes_mut_extend(buf, self.value.clone());
        assert(bytes_mut_content(*buf) =~= before + param_bytes(self@));
        Ok(buf.len())
    }

    /// The number of bytes of the value.
    pub fn value_length(&self) -> (r: usize)
        ensures
            r == self@.value.len(),
    {
        self.value.len()
    }

    /// The parameter once more.
    pub fn clone_to(&self) -> (r: Box<Self>)
        ensures
            r@ == self@,
    {
        Box::new(ParamUnknown { typ: self.typ, value: self.value.clone() })
    }
}

/// Reading back the bytes of a parameter, whatever follows them, gives the parameter, provided that
/// its length fits its header.
pub proof fn law_param_round_trip(p: ParamValue, rest: Seq<u8>)
    requires
        p.value.len() + PARAM_HEADER_LENGTH <= u16::MAX,
    ensures
        header_error(param_bytes(p) + rest) is None,
        param_at(param_bytes(p) + rest) == p,
{
    let raw = param_bytes(p) + rest;
    let len = p.value.len() + PARAM_HEADER_LENGTH;
    assert(raw[0] == (p.typ / 256) as u8 && raw[1] == (p.typ % 256) as u8);
    assert(raw[2] == (len / 256) as u8 && raw[3] == (len % 256) as u8);
    assert(number_at(raw, 0) == p.typ);
    assert(number_at(raw, 2) == len);
    assert(raw.subrange(PARAM_HEADER_LENGTH as int, len as int) =~= p.value);
}

/// A parameter takes four bytes more than its value: two for its type and two for how many bytes it
/// takes, the high ones first, and then the value.
pub proof fn law_param_layout(p: ParamValue, i: int)
    requires
        p.value.len() + 4 <= u16::MAX,
    ensures
        param_bytes(p).len() == p.value.len() + 4,
        param_bytes(p)[0] * 256 + param_bytes(p)[1] == p.typ,
        param_bytes(p)[2] * 256 + param_bytes(p)[3] == p.value.len() + 4,
        0 <= i < p.value.len() ==> param_bytes(p)[4 + i] == p.value[i],
{
}

/// A number in two bytes.
pub proof fn law_number_in_two_bytes(n: int)
    requires
        0 <= n <= u16::MAX,
    ensures
        be16(n).len() == 2,
        be16(n)[0] * 256 + be16(n)[1] == n,
{
}

/// What is wrong with a header: fewer than four bytes are none; one that announces fewer bytes than
/// itself is wrong, and so is one that announces more than there are; nothing else is. Then the type
/// is in the first two bytes, and the value is what follows up to what is announced.
pub proof fn law_header_outcome(raw: Seq<u8>, i: int)
    ensures
        raw.len() < 4 ==> header_error(raw) == Some(Error::ErrParamHeaderTooShort),
        raw.len() >= 4 && raw[2] * 256 + raw[3] < 4 ==> header_error(raw) == Some(
            Error::ErrParamHeaderSelfReportedLengthShorter,
        ),
        raw.len() >= 4 && raw[2] * 256 + raw[3] >= 4 && raw[2] * 256 + raw[3] > raw.len()
            ==> header_error(raw) == Some(Error::ErrParamHeaderSelfReportedLengthLonger),
        raw.len() >= 4 && 4 <= raw[2] * 256 + raw[3] <= raw.len() ==> {
            &&& header_error(raw) is None
            &&& param_at(raw).typ == raw[0] * 256 + raw[1]
            &&& param_at(raw).value.len() + 4 == raw[2] * 256 + raw[3]
            &&& 0 <= i < param_at(raw).value.len() ==> param_at(raw).value[i] == raw[4 + i]
            &&& number_at(raw, 0) == raw[0] * 256 + raw[1]
            &&& number_at(raw, 2) == raw[2] * 256 + raw[3]
        },
{
}

/// The value of a parameter is that of its parts.
pub proof fn law_value_of_a_param(p: ParamUnknown)
    ensures
        p@.typ == p.typ,
        p@.value == bytes_content(p.value),
{
}

} // verus!
