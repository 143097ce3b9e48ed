//! What the codec calls of `nom` without proof: each function with the
//! contract that the verified code relies on. Verus takes these contracts on
//! trust.

use crate::wire::be16;
use vstd::prelude::*;

verus! {

/// `nom::Err`: why a parser of `nom` did not succeed. Nothing is read from it.
#[verifier::external_type_specification]
#[verifier::external_body]
#[verifier::reject_recursive_types(E)]
pub struct ExNomErr<E>(nom::Err<E>);

/// `nom::error::Error`: the input and the kind of a failure. Nothing is read
/// from it.
#[verifier::external_type_specification]
#[verifier::external_body]
#[verifier::reject_recursive_types(I)]
pub struct ExNomError<I>(nom::error::Error<I>);

/// Two to the power `exponent`, for the exponents that a bit count within an
/// octet can take.
pub open spec fn weight(exponent: int) -> int
    recommends
        0 <= exponent <= 8,
{
    if exponent <= 0 {
        1
    } else if exponent == 1 {
        2
    } else if exponent == 2 {
        4
    } else if exponent == 3 {
        8
    } else if exponent == 4 {
        16
    } else if exponent == 5 {
        32
    } else if exponent == 6 {
        64
    } else if exponent == 7 {
        128
    } else {
        256
    }
}

/// The number that the `count` bits of `octet` from bit `from` on spell, with
/// bit 0 the most significant bit of the octet.
pub open spec fn bits_of(octet: u8, from: int, count: int) -> int
    recommends
        0 <= from,
        0 <= count,
        from + count <= 8,
{
    (octet as int % weight(8 - from)) / weight(8 - from - count)
}

/// `nom::number::complete::be_u16`: fails on fewer than two octets; otherwise
/// gives the big-endian integer in the first two and the input after them.
#[verifier::external_body]
pub(crate) fn be_u16<'a>(input: &'a [u8]) -> (parsed: Result<
    (&'a [u8], u16),
    nom::Err<nom::error::Error<&'a [u8]>>,
>)
    ensures
        parsed is Ok <==> input@.len() >= 2,
        parsed matches Ok((rest, value)) ==> rest@ == input@.subrange(2, input@.len() as int)
            && value == be16(input@[0], input@[1]),
{
    nom::number::complete::be_u16(input)
}

/// `nom::bits::complete::bool` on `(input, bit_offset)`: fails on an empty
/// input; otherwise says whether the bit at `bit_offset` of the first octet is
/// set, and gives the input from the octet of the next bit on with that bit's
/// place in it.
///
/// `nom` multiplies the length of the input by eight, so the length has to
/// leave room for that.
#[verifier::external_body]
pub(crate) fn bits_bool<'a>(input: &'a [u8], bit_offset: usize) -> (parsed: Result<
    ((&'a [u8], usize), bool),
    nom::Err<nom::error::Error<(&'a [u8], usize)>>,
>)
    requires
        bit_offset < 8,
        input@.len() * 8 <= usize::MAX,
    ensures
        parsed is Ok <==> input@.len() > 0,
        parsed matches Ok(((rest, next), bit)) ==> {
            &&& rest@ == input@.subrange((bit_offset + 1) / 8, input@.len() as int)
            &&& next == (bit_offset + 1) % 8
            &&& bit == (bits_of(input@[0], bit_offset as int, 1) == 1)
        },
{
    nom::bits::complete::bool((input, bit_offset))
}

/// `nom::bits::complete::take(count)` on `(input, bit_offset)`, for bits that
/// all lie in the first octet: fails on an empty input; otherwise gives the
/// number that the `count` bits from `bit_offset` on spell, and the input from
/// the octet of the next bit on with that bit's place in it.
///
/// `nom` multiplies the length of the input by eight, so the length has to
/// leave room for that.
#[verifier::external_body]
pub(crate) fn bits_take<'a>(input: &'a [u8], bit_offset: usize, count: usize) -> (parsed: Result<
    ((&'a [u8], usize), u8),
    nom::Err<nom::error::Error<(&'a [u8], usize)>>,
>)
    requires
        1 <= count,
        bit_offset + count <= 8,
        input@.len() * 8 <= usize::MAX,
    ensures
        parsed is Ok <==> input@.len() > 0,
        parsed matches Ok(((rest, next), value)) ==> {
            &&& rest@ == input@.subrange((bit_offset + count) / 8, input@.len() as int)
            &&& next == (bit_offset + count) % 8
            &&& value == bits_of(input@[0], bit_offset as int, count as int)
        },
{
    nom::bits::complete::take(count)((input, bit_offset))
}

} // verus!
