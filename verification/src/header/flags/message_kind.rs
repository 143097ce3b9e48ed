//! The header's QR bit: is the message a query or a response?

use crate::error::DecodeError;
use crate::header::flags::first_octet;
use crate::trusted::{bits_bool, bits_of};
use vstd::prelude::*;

verus! {

/// The place of the QR bit in the first flag octet, counted from the most
/// significant bit.
pub const INDEX: usize = 0;

/// Whether a message asks or answers.
#[derive(Clone, Copy, Debug, PartialEq, Eq, Structural)]
pub enum MessageKind {
    /// The QR bit is clear.
    Query,
    /// The QR bit is set.
    Response,
}

/// The name the wire format gives the same field.
pub type QueryResponse = MessageKind;

impl MessageKind {
    /// The kind that a QR bit stands for.
    pub open spec fn of_bit(bit: bool) -> MessageKind {
        if bit {
            MessageKind::Response
        } else {
            MessageKind::Query
        }
    }

    /// The QR bit that stands for this kind.
    pub open spec fn spec_bit(self) -> bool {
        self is Response
    }

    /// Reads the message kind from the first bit of `input`, and gives the
    /// input with the place of the next bit.
    ///
    /// No whole octet is used up, so the input given back is the input. An
    /// empty input is `Truncated`.
    pub fn nom_parse<'a>(input: &'a [u8]) -> (parsed: Result<
        ((&'a [u8], usize), MessageKind),
        DecodeError,
    >)
        ensures
            parsed is Ok <==> input@.len() > 0,
            parsed matches Ok(((rest, next), kind)) ==> rest@ == input@ && next == INDEX + 1
                && kind == MessageKind::of_bit(input@[0] >= 128),
            parsed matches Err(e) ==> e == DecodeError::Truncated,
    {
        // The bit is in the first octet, and `nom` counts its input in bits:
        // it is handed no more than that octet.
        let head: &[u8] = first_octet(input);
        match bits_bool(head, INDEX) {
            Ok(((_, next), bit)) => {
                assert(bits_of(input@[0], 0, 1) == 1 <==> input@[0] >= 128);
                Ok(((input, next), MessageKind::from(bit)))
            },
            Err(_) => Err(DecodeError::Truncated),
        }
    }

    /// Reads the message kind from the first bit of `input`, and gives the
    /// input back with it.
    ///
    /// An empty input is `Truncated`.
    pub fn parse<'a>(input: &'a [u8]) -> (parsed: Result<(&'a [u8], MessageKind), DecodeError>)
        ensures
            parsed is Ok <==> input@.len() > 0,
            parsed matches Ok((rest, kind)) ==> rest@ == input@ && kind == MessageKind::of_bit(
                input@[0] >= 128,
            ),
            parsed matches Err(e) ==> e == DecodeError::Truncated,
    {
        match Self::nom_parse(input) {
            Ok(((remaining, _index), qr)) => Ok((remaining, qr)),
            Err(e) => Err(e),
        }
    }

    /// The QR bit that stands for this kind.
    pub fn bit(&self) -> (bit: bool)
        ensures
            bit == self.spec_bit(),
            MessageKind::of_bit(bit) == *self,
    {
        match self {
            MessageKind::Query => false,
            MessageKind::Response => true,
        }
    }
}

impl From<bool> for MessageKind {
    fn from(value: bool) -> (kind: MessageKind) {
        match value {
            true => MessageKind::Response,
            false => MessageKind::Query,
        }
    }
}

impl vstd::std_specs::convert::FromSpecImpl<bool> for MessageKind {
    open spec fn obeys_from_spec() -> bool {
        true
    }

    open spec fn from_spec(value: bool) -> MessageKind {
        MessageKind::of_bit(value)
    }
}

} // verus!
