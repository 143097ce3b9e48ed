//! The fixed twelve-octet header.
//!
//! ```text
//!                                 1  1  1  1  1  1
//!   0  1  2  3  4  5  6  7  8  9  0  1  2  3  4  5
//! +--+--+--+--+--+--+--+--+--+--+--+--+--+--+--+--+
//! |                      ID                       |
//! +--+--+--+--+--+--+--+--+--+--+--+--+--+--+--+--+
//! |QR|   Opcode  |AA|TC|RD|RA|   Z    |   RCODE   |
//! +--+--+--+--+--+--+--+--+--+--+--+--+--+--+--+--+
//! |                    QDCOUNT                    |
//! +--+--+--+--+--+--+--+--+--+--+--+--+--+--+--+--+
//! |                    ANCOUNT                    |
//! +--+--+--+--+--+--+--+--+--+--+--+--+--+--+--+--+
//! |                    NSCOUNT                    |
//! +--+--+--+--+--+--+--+--+--+--+--+--+--+--+--+--+
//! |                    ARCOUNT                    |
//! +--+--+--+--+--+--+--+--+--+--+--+--+--+--+--+--+
//! ```

pub mod flags;
pub mod id;

pub use crate::header::flags::message_kind::{MessageKind, QueryResponse};
pub use crate::header::flags::opcode::Opcode;
pub use crate::header::flags::response_code::ResponseCode;

use crate::error::DecodeError;
use crate::wire::{be16, be16_at, be16_octets};
use vstd::prelude::*;

verus! {

/// The number of octets a header takes.
pub const HEADER_LEN: usize = 12;

/// What the header of a message says.
#[derive(Clone, Copy, Debug, PartialEq, Eq, Structural)]
pub struct Header {
    /// The number by which a response is matched to its query.
    pub id: u16,
    /// Whether the message is a query or a response.
    pub message_kind: MessageKind,
    /// The kind of query.
    pub opcode: Opcode,
    /// Whether the responding server is an authority for the name.
    pub authoritative_answer: bool,
    /// Whether the message was cut short to fit its transport.
    pub truncated: bool,
    /// Whether the server is asked to pursue the query recursively.
    pub recursion_desired: bool,
    /// Whether the server offers recursive queries.
    pub recursion_available: bool,
    /// How the query fared.
    pub response_code: ResponseCode,
    /// How many questions the header announces.
    pub question_count: u16,
    /// How many answer records the header announces.
    pub answer_count: u16,
    /// How many authority records the header announces.
    pub authority_count: u16,
    /// How many additional records the header announces.
    pub additional_count: u16,
}

/// Bit 7 of the first flag octet: the message kind.
pub open spec fn qr_bit(octet: u8) -> bool {
    octet >= 128
}

/// Bits 6 to 3 of the first flag octet: the opcode.
pub open spec fn opcode_bits(octet: u8) -> u8 {
    (octet / 8) % 16
}

/// Bit 2 of the first flag octet: authoritative answer.
pub open spec fn aa_bit(octet: u8) -> bool {
    (octet / 4) % 2 == 1
}

/// Bit 1 of the first flag octet: truncated.
pub open spec fn tc_bit(octet: u8) -> bool {
    (octet / 2) % 2 == 1
}

/// Bit 0 of the first flag octet: recursion desired.
pub open spec fn rd_bit(octet: u8) -> bool {
    octet % 2 == 1
}

/// Bit 7 of the second flag octet: recursion available.
pub open spec fn ra_bit(octet: u8) -> bool {
    octet >= 128
}

/// Bits 6 to 4 of the second flag octet: the reserved field.
pub open spec fn z_bits(octet: u8) -> u8 {
    (octet / 16) % 8
}

/// Bits 3 to 0 of the second flag octet: the response code.
pub open spec fn rcode_bits(octet: u8) -> u8 {
    octet % 16
}

/// One flag as the number that its bit adds to an octet.
pub open spec fn flag(set: bool, weight: int) -> int {
    if set {
        weight
    } else {
        0
    }
}

/// The first flag octet of a header.
pub open spec fn first_flag_octet(header: Header) -> u8 {
    (flag(header.message_kind.spec_bit(), 128) + header.opcode.spec_value() * 8 + flag(
        header.authoritative_answer,
        4,
    ) + flag(header.truncated, 2) + flag(header.recursion_desired, 1)) as u8
}

/// The second flag octet of a header; its reserved field is zero.
pub open spec fn second_flag_octet(header: Header) -> u8 {
    (flag(header.recursion_available, 128) + header.response_code.spec_value()) as u8
}

/// What the first twelve octets of `bytes` say as a header.
pub open spec fn decode_header(bytes: Seq<u8>) -> Result<Header, DecodeError> {
    if bytes.len() < 12 {
        Err(DecodeError::Truncated)
    } else if z_bits(bytes[3]) != 0 {
        Err(DecodeError::ReservedFieldNonZero)
    } else {
        Ok(
            Header {
                id: be16_at(bytes, 0),
                message_kind: MessageKind::of_bit(qr_bit(bytes[2])),
                opcode: Opcode::of_value(opcode_bits(bytes[2])),
                authoritative_answer: aa_bit(bytes[2]),
                truncated: tc_bit(bytes[2]),
                recursion_desired: rd_bit(bytes[2]),
                recursion_available: ra_bit(bytes[3]),
                response_code: ResponseCode::of_value(rcode_bits(bytes[3])),
                question_count: be16_at(bytes, 4),
                answer_count: be16_at(bytes, 6),
                authority_count: be16_at(bytes, 8),
                additional_count: be16_at(bytes, 10),
            },
        )
    }
}

/// The twelve octets that say `header`.
pub open spec fn encode_header(header: Header) -> Seq<u8> {
    be16_octets(header.id) + seq![first_flag_octet(header), second_flag_octet(header)]
        + be16_octets(header.question_count) + be16_octets(header.answer_count) + be16_octets(
        header.authority_count,
    ) + be16_octets(header.additional_count)
}

impl Header {
    /// A header is well formed when its opcode and its response code are.
    pub open spec fn wf(self) -> bool {
        self.opcode.wf() && self.response_code.wf()
    }

    /// Whether this header is well formed.
    pub fn is_well_formed(&self) -> (ok: bool)
        ensures
            ok == self.wf(),
    {
        self.opcode.is_well_formed() && self.response_code.is_well_formed()
    }

    /// Reads a header from the first twelve octets of `input`.
    ///
    /// A shorter input is `Truncated`. Of twelve octets or more, those whose
    /// reserved field is zero are a header, and the others are
    /// `ReservedFieldNonZero`.
    pub fn parse(input: &[u8]) -> (parsed: Result<Header, DecodeError>)
        ensures
            parsed == decode_header(input@),
            input@.len() < 12 ==> parsed == Err::<Header, DecodeError>(DecodeError::Truncated),
            input@.len() >= 12 ==> (parsed is Ok <==> z_bits(input@[3]) == 0),
            input@.len() >= 12 && z_bits(input@[3]) != 0 ==> parsed == Err::<Header, DecodeError>(
                DecodeError::ReservedFieldNonZero,
            ),
            parsed matches Ok(header) ==> header.wf(),
    {
        if input.len() < HEADER_LEN {
            return Err(DecodeError::Truncated);
        }
        let id: u16 = Self::id(vstd::slice::slice_subrange(input, 0, 2));
        let flag_byte_one: &u8 = &input[2];
        let qr: MessageKind = Self::qr(flag_byte_one);
        let opcode: Opcode = Self::opcode(flag_byte_one);
        let aa: bool = Self::aa(flag_byte_one);
        let tc: bool = Self::tc(flag_byte_one);
        let rd: bool = Self::rd(flag_byte_one);
        let flag_byte_two: &u8 = &input[3];
        let ra: bool = Self::ra(flag_byte_two);
        match Self::z(flag_byte_two) {
            Err(e) => {
                return Err(e);
            },
            Ok(_) => {},
        }
        let rcode: ResponseCode = Self::rcode(flag_byte_two);
        let qdcount: u16 = Self::qdcount(vstd::slice::slice_subrange(input, 4, 6));
        let ancount: u16 = Self::ancount(vstd::slice::slice_subrange(input, 6, 8));
        let nscount: u16 = Self::nscount(vstd::slice::slice_subrange(input, 8, 10));
        let arcount: u16 = Self::arcount(vstd::slice::slice_subrange(input, 10, 12));
        Ok(
            Header {
                id,
                message_kind: qr,
                opcode,
                authoritative_answer: aa,
                truncated: tc,
                recursion_desired: rd,
                recursion_available: ra,
                response_code: rcode,
                question_count: qdcount,
                answer_count: ancount,
                authority_count: nscount,
                additional_count: arcount,
            },
        )
    }

    /// Writes this header as its twelve octets; the reserved field is zero.
    pub fn encode(&self) -> (bytes: [u8; 12])
        requires
            self.wf(),
        ensures
            bytes@ == encode_header(*self),
    {
        let kind: u8 = if self.message_kind.bit() {
            128
        } else {
            0
        };
        let aa: u8 = if self.authoritative_answer {
            4
        } else {
            0
        };
        let tc: u8 = if self.truncated {
            2
        } else {
            0
        };
        let rd: u8 = if self.recursion_desired {
            1
        } else {
            0
        };
        let ra: u8 = if self.recursion_available {
            128
        } else {
            0
        };
        let first: u8 = kind + self.opcode.value() * 8 + aa + tc + rd;
        let second: u8 = ra + self.response_code.value();
        let bytes: [u8; 12] = [
            (self.id / 256) as u8,
            (self.id % 256) as u8,
            first,
            second,
            (self.question_count / 256) as u8,
            (self.question_count % 256) as u8,
            (self.answer_count / 256) as u8,
            (self.answer_count % 256) as u8,
            (self.authority_count / 256) as u8,
            (self.authority_count % 256) as u8,
            (self.additional_count / 256) as u8,
            (self.additional_count % 256) as u8,
        ];
        assert(bytes@ =~= encode_header(*self));
        bytes
    }

    /// The big-endian integer in the first two octets of `input`.
    pub fn parse_two_bytes(input: &[u8]) -> (value: u16)
        requires
            input@.len() >= 2,
        ensures
            value == be16(input@[0], input@[1]),
    {
        crate::wire::read_u16(input, 0)
    }

    /// The message id that two octets hold.
    pub fn id(input: &[u8]) -> (value: u16)
        requires
            input@.len() >= 2,
        ensures
            value == be16(input@[0], input@[1]),
    {
        Self::parse_two_bytes(input)
    }

    /// The message kind in the first flag octet.
    pub fn qr(input: &u8) -> (kind: QueryResponse)
        ensures
            kind == MessageKind::of_bit(qr_bit(*input)),
    {
        let octet: u8 = *input;
        assert(((octet & 0b1000_0000) != 0) == (octet >= 128)) by (bit_vector);
        MessageKind::from((octet & 0b1000_0000) != 0)
    }

    /// The opcode in the first flag octet.
    pub fn opcode(input: &u8) -> (opcode: Opcode)
        ensures
            opcode == Opcode::of_value(opcode_bits(*input)),
            opcode.wf(),
    {
        let octet: u8 = *input;
        assert((octet & 0b0111_1000) >> 3 == (octet / 8) % 16) by (bit_vector);
        Opcode::from((octet & 0b0111_1000) >> 3)
    }

    /// The authoritative-answer flag in the first flag octet.
    pub fn aa(input: &u8) -> (set: bool)
        ensures
            set == aa_bit(*input),
    {
        let octet: u8 = *input;
        assert(((octet & 0b0000_0100) != 0) == ((octet / 4) % 2 == 1)) by (bit_vector);
        (octet & 0b0000_0100) != 0
    }

    /// The truncation flag in the first flag octet.
    pub fn tc(input: &u8) -> (set: bool)
        ensures
            set == tc_bit(*input),
    {
        let octet: u8 = *input;
        assert(((octet & 0b0000_0010) != 0) == ((octet / 2) % 2 == 1)) by (bit_vector);
        (octet & 0b0000_0010) != 0
    }

    /// The recursion-desired flag in the first flag octet.
    pub fn rd(input: &u8) -> (set: bool)
        ensures
            set == rd_bit(*input),
    {
        let octet: u8 = *input;
        assert(((octet & 0b0000_0001) != 0) == (octet % 2 == 1)) by (bit_vector);
        (octet & 0b0000_0001) != 0
    }

    /// The recursion-available flag in the second flag octet.
    pub fn ra(input: &u8) -> (set: bool)
        ensures
            set == ra_bit(*input),
    {
        let octet: u8 = *input;
        assert(((octet & 0b1000_0000) != 0) == (octet >= 128)) by (bit_vector);
        (octet & 0b1000_0000) != 0
    }

    /// The reserved field in the second flag octet, which has to be zero.
    pub fn z(input: &u8) -> (field: Result<u8, DecodeError>)
        ensures
            field is Ok <==> z_bits(*input) == 0,
            field matches Ok(z) ==> z == 0,
            field matches Err(e) ==> e == DecodeError::ReservedFieldNonZero,
    {
        let octet: u8 = *input;
        assert((octet & 0b0111_0000) >> 4 == (octet / 16) % 8) by (bit_vector);
        let z: u8 = (octet & 0b0111_0000) >> 4;
        if z == 0 {
            Ok(z)
        } else {
            Err(DecodeError::ReservedFieldNonZero)
        }
    }

    /// The response code in the second flag octet.
    pub fn rcode(input: &u8) -> (code: ResponseCode)
        ensures
            code == ResponseCode::of_value(rcode_bits(*input)),
            code.wf(),
    {
        let octet: u8 = *input;
        assert(octet & 0b0000_1111 == octet % 16) by (bit_vector);
        ResponseCode::from(octet & 0b0000_1111)
    }

    /// The question count that two octets hold.
    pub fn qdcount(input: &[u8]) -> (value: u16)
        requires
            input@.len() >= 2,
        ensures
            value == be16(input@[0], input@[1]),
    {
        Self::parse_two_bytes(input)
    }

    /// The answer count that two octets hold.
    pub fn ancount(input: &[u8]) -> (value: u16)
        requires
            input@.len() >= 2,
        ensures
            value == be16(input@[0], input@[1]),
    {
        Self::parse_two_bytes(input)
    }

    /// The authority count that two octets hold.
    pub fn nscount(input: &[u8]) -> (value: u16)
        requires
            input@.len() >= 2,
        ensures
            value == be16(input@[0], input@[1]),
    {
        Self::parse_two_bytes(input)
    }

    /// The additional count that two octets hold.
    pub fn arcount(input: &[u8]) -> (value: u16)
        requires
            input@.len() >= 2,
        ensures
            value == be16(input@[0], input@[1]),
    {
        Self::parse_two_bytes(input)
    }
}

/// An octet is the first flag octet of the fields read from it.
proof fn lemma_first_flag_octet_rebuilt(octet: u8)
    ensures
        flag(qr_bit(octet), 128) + opcode_bits(octet) * 8 + flag(aa_bit(octet), 4) + flag(
            tc_bit(octet),
            2,
        ) + flag(rd_bit(octet), 1) == octet,
        opcode_bits(octet) <= 15,
{
    assert((if octet >= 128 {
        128u8
    } else {
        0u8
    }) + ((octet / 8) % 16) * 8 + (if (octet / 4) % 2 == 1 {
        4u8
    } else {
        0u8
    }) + (if (octet / 2) % 2 == 1 {
        2u8
    } else {
        0u8
    }) + (if octet % 2 == 1 {
        1u8
    } else {
        0u8
    }) == octet) by (bit_vector);
}

/// An octet whose reserved field is zero is the second flag octet of the
/// fields read from it.
proof fn lemma_second_flag_octet_rebuilt(octet: u8)
    requires
        z_bits(octet) == 0,
    ensures
        flag(ra_bit(octet), 128) + rcode_bits(octet) == octet,
        rcode_bits(octet) <= 15,
{
    assert((octet / 16) % 8 == 0 ==> (if octet >= 128 {
        128u8
    } else {
        0u8
    }) + octet % 16 == octet) by (bit_vector);
}

/// The fields of the first flag octet are those it was built from.
proof fn lemma_first_flag_octet_fields(kind: bool, opcode: u8, aa: bool, tc: bool, rd: bool)
    requires
        opcode <= 15,
    ensures
        ({
            let sum = flag(kind, 128) + opcode * 8 + flag(aa, 4) + flag(tc, 2) + flag(rd, 1);
            &&& 0 <= sum < 256
            &&& qr_bit(sum as u8) == kind
            &&& opcode_bits(sum as u8) == opcode
            &&& aa_bit(sum as u8) == aa
            &&& tc_bit(sum as u8) == tc
            &&& rd_bit(sum as u8) == rd
        }),
{
}

/// The fields of the second flag octet are those it was built from, and its
/// reserved field is zero.
proof fn lemma_second_flag_octet_fields(ra: bool, rcode: u8)
    requires
        rcode <= 15,
    ensures
        ({
            let sum = flag(ra, 128) + rcode;
            &&& 0 <= sum < 256
            &&& ra_bit(sum as u8) == ra
            &&& z_bits(sum as u8) == 0
            &&& rcode_bits(sum as u8) == rcode
        }),
{
}

/// Writing a header that was read gives back the twelve octets it was read
/// from.
pub proof fn lemma_encode_decoded_header(bytes: Seq<u8>)
    requires
        decode_header(bytes) is Ok,
    ensures
        encode_header(decode_header(bytes)->Ok_0) == bytes.subrange(0, 12),
{
    let header = decode_header(bytes)->Ok_0;
    assert(first_flag_octet(header) == bytes[2]) by {
        lemma_first_flag_octet_rebuilt(bytes[2]);
        Opcode::lemma_value_of_value(opcode_bits(bytes[2]));
    }
    assert(second_flag_octet(header) == bytes[3]) by {
        lemma_second_flag_octet_rebuilt(bytes[3]);
        ResponseCode::lemma_value_of_value(rcode_bits(bytes[3]));
    }
    assert(be16_octets(header.id) == seq![bytes[0], bytes[1]]) by {
        crate::wire::lemma_octets_of_be16(bytes[0], bytes[1]);
    }
    assert(be16_octets(header.question_count) == seq![bytes[4], bytes[5]]) by {
        crate::wire::lemma_octets_of_be16(bytes[4], bytes[5]);
    }
    assert(be16_octets(header.answer_count) == seq![bytes[6], bytes[7]]) by {
        crate::wire::lemma_octets_of_be16(bytes[6], bytes[7]);
    }
    assert(be16_octets(header.authority_count) == seq![bytes[8], bytes[9]]) by {
        crate::wire::lemma_octets_of_be16(bytes[8], bytes[9]);
    }
    assert(be16_octets(header.additional_count) == seq![bytes[10], bytes[11]]) by {
        crate::wire::lemma_octets_of_be16(bytes[10], bytes[11]);
    }
    assert(encode_header(header) =~= bytes.subrange(0, 12));
}

/// Reading the octets of a well-formed header gives the header back.
pub proof fn lemma_decode_encoded_header(header: Header)
    requires
        header.wf(),
    ensures
        encode_header(header).len() == 12,
        decode_header(encode_header(header)) == Ok::<Header, DecodeError>(header),
{
    let bytes = encode_header(header);
    assert(bytes.len() == 12);
    assert(bytes[2] == first_flag_octet(header));
    assert(bytes[3] == second_flag_octet(header));
    Opcode::lemma_of_value_value(header.opcode);
    ResponseCode::lemma_of_value_value(header.response_code);
    lemma_first_flag_octet_fields(
        header.message_kind.spec_bit(),
        header.opcode.spec_value(),
        header.authoritative_answer,
        header.truncated,
        header.recursion_desired,
    );
    lemma_second_flag_octet_fields(header.recursion_available, header.response_code.spec_value());
    assert(be16_at(bytes, 0) == header.id) by {
        crate::wire::lemma_be16_of_octets(header.id);
        assert(bytes[0] == be16_octets(header.id)[0]);
        assert(bytes[1] == be16_octets(header.id)[1]);
    }
    assert(be16_at(bytes, 4) == header.question_count) by {
        crate::wire::lemma_be16_of_octets(header.question_count);
        assert(bytes[4] == be16_octets(header.question_count)[0]);
        assert(bytes[5] == be16_octets(header.question_count)[1]);
    }
    assert(be16_at(bytes, 6) == header.answer_count) by {
        crate::wire::lemma_be16_of_octets(header.answer_count);
        assert(bytes[6] == be16_octets(header.answer_count)[0]);
        assert(bytes[7] == be16_octets(header.answer_count)[1]);
    }
    assert(be16_at(bytes, 8) == header.authority_count) by {
        crate::wire::lemma_be16_of_octets(header.authority_count);
        assert(bytes[8] == be16_octets(header.authority_count)[0]);
        assert(bytes[9] == be16_octets(header.authority_count)[1]);
    }
    assert(be16_at(bytes, 10) == header.additional_count) by {
        crate::wire::lemma_be16_of_octets(header.additional_count);
        assert(bytes[10] == be16_octets(header.additional_count)[0]);
        assert(bytes[11] == be16_octets(header.additional_count)[1]);
    }
}

} // verus!
