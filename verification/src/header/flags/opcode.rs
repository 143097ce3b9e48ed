//! The header's four-bit OPCODE field: what kind of query the message carries.

use crate::error::DecodeError;
use crate::header::flags::first_octet;
use crate::trusted::{bits_of, bits_take};
use vstd::prelude::*;

verus! {

/// The place of the first opcode bit in the first flag octet, counted from
/// the most significant bit.
pub const INDEX: usize = 1;

/// The number of bits of the opcode.
pub const WIDTH: usize = 4;

/// The kind of query.
#[derive(Clone, Copy, Debug, PartialEq, Eq, Structural)]
pub enum Opcode {
    /// `0`: a standard query, from a name to its records.
    Query,
    /// `1`: an inverse query, from a record to its name.
    InverseQuery,
    /// `2`: a request for the server's status.
    ServerStatusRequest,
    /// `3` to `15`: kept for later use, and carried as found.
    Reserved(u8),
}

impl Opcode {
    /// A reserved opcode holds a value that has no variant of its own and fits
    /// in four bits.
    pub open spec fn wf(self) -> bool {
        self matches Opcode::Reserved(n) ==> 3 <= n <= 15
    }

    /// The opcode that a field value stands for.
    pub open spec fn of_value(value: u8) -> Opcode {
        if value == 0 {
            Opcode::Query
        } else if value == 1 {
            Opcode::InverseQuery
        } else if value == 2 {
            Opcode::ServerStatusRequest
        } else {
            Opcode::Reserved(value)
        }
    }

    /// The field value that stands for this opcode.
    pub open spec fn spec_value(self) -> u8 {
        match self {
            Opcode::Query => 0,
            Opcode::InverseQuery => 1,
            Opcode::ServerStatusRequest => 2,
            Opcode::Reserved(n) => n,
        }
    }

    /// Reads the opcode from bits 1 to 4 of `input`, and gives the input with
    /// the place of the next bit.
    ///
    /// No whole octet is used up, so the input given back is the input. An
    /// empty input is `Truncated`.
    pub fn nom_parse<'a>(input: &'a [u8]) -> (parsed: Result<
        ((&'a [u8], usize), Opcode),
        DecodeError,
    >)
        ensures
            parsed is Ok <==> input@.len() > 0,
            parsed matches Ok(((rest, next), opcode)) ==> rest@ == input@ && next == INDEX + WIDTH
                && opcode == Opcode::of_value(((input@[0] / 8) % 16) as u8) && opcode.wf(),
            parsed matches Err(e) ==> e == DecodeError::Truncated,
    {
        // The bits are in the first octet, and `nom` counts its input in bits:
        // it is handed no more than that octet.
        let head: &[u8] = first_octet(input);
        match bits_take(head, INDEX, WIDTH) {
            Ok(((_, next), value)) => {
                assert(bits_of(input@[0], 1, 4) == (input@[0] / 8) % 16);
                Ok(((input, next), Opcode::from(value)))
            },
            Err(_) => Err(DecodeError::Truncated),
        }
    }

    /// The opcode that a four-bit field value stands for.
    pub fn from(value: u8) -> (opcode: Opcode)
        requires
            value <= 15,
        ensures
            opcode == Opcode::of_value(value),
            opcode.wf(),
    {
        match value {
            0 => Opcode::Query,
            1 => Opcode::InverseQuery,
            2 => Opcode::ServerStatusRequest,
            x => Opcode::Reserved(x),
        }
    }

    /// The field value that stands for this opcode.
    pub fn value(&self) -> (value: u8)
        ensures
            value == self.spec_value(),
    {
        match self {
            Opcode::Query => 0,
            Opcode::InverseQuery => 1,
            Opcode::ServerStatusRequest => 2,
            Opcode::Reserved(n) => *n,
        }
    }

    /// Whether this opcode is one that a header can hold.
    pub fn is_well_formed(&self) -> (ok: bool)
        ensures
            ok == self.wf(),
    {
        match self {
            Opcode::Reserved(n) => 3 <= *n && *n <= 15,
            _ => true,
        }
    }

    /// Every four-bit value is the value of the opcode it stands for, and that
    /// opcode is well formed.
    pub proof fn lemma_value_of_value(value: u8)
        requires
            value <= 15,
        ensures
            Opcode::of_value(value).wf(),
            Opcode::of_value(value).spec_value() == value,
    {
    }

    /// A well-formed opcode is the one its own value stands for, and that value
    /// fits in four bits.
    pub proof fn lemma_of_value_value(opcode: Opcode)
        requires
            opcode.wf(),
        ensures
            opcode.spec_value() <= 15,
            Opcode::of_value(opcode.spec_value()) == opcode,
    {
    }
}

} // verus!
