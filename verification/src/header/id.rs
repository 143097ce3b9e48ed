//! The header's ID field.

use crate::error::DecodeError;
use crate::trusted::be_u16;
use crate::wire::be16;
use vstd::prelude::*;

verus! {

/// The number by which a response is matched to its query.
#[derive(Clone, Copy, Debug, PartialEq, Eq, Structural)]
pub struct Id(pub u16);

impl Id {
    /// Reads an id from the head of `input`, and gives the input after it.
    ///
    /// Fewer than two octets are `Truncated`.
    pub fn parse<'a>(input: &'a [u8]) -> (parsed: Result<(&'a [u8], u16), DecodeError>)
        ensures
            parsed is Ok <==> input@.len() >= 2,
            parsed matches Ok((rest, id)) ==> rest@ == input@.subrange(2, input@.len() as int)
                && id == be16(input@[0], input@[1]),
            parsed matches Err(e) ==> e == DecodeError::Truncated,
    {
        match be_u16(input) {
            Ok((rest, id)) => Ok((rest, id)),
            Err(_) => Err(DecodeError::Truncated),
        }
    }
}

} // verus!
