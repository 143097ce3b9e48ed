//! The fields packed into the header's two flag octets.

pub mod message_kind;
pub mod opcode;
pub mod response_code;

use vstd::prelude::*;

verus! {

/// The first octet of `input`, or nothing if it has none: the part that holds
/// every bit of the first flag octet, and whose length in bits fits.
pub(crate) fn first_octet<'a>(input: &'a [u8]) -> (head: &'a [u8])
    ensures
        head@.len() <= 1,
        head@ == input@.take(head@.len() as int),
        head@.len() == 0 <==> input@.len() == 0,
{
    if input.len() == 0 {
        assert(input@.take(0) =~= input@);
        input
    } else {
        vstd::slice::slice_subrange(input, 0, 1)
    }
}

} // verus!
