//! Big-endian integers, as every field of a message carries them.

use vstd::arithmetic::div_mod::lemma_fundamental_div_mod_converse;
use vstd::prelude::*;

verus! {

/// The 16-bit integer whose big-endian form is `hi`, `lo`.
pub open spec fn be16(hi: u8, lo: u8) -> u16 {
    (hi as int * 256 + lo as int) as u16
}

/// The 32-bit integer whose big-endian form is `b0`, `b1`, `b2`, `b3`.
pub open spec fn be32(b0: u8, b1: u8, b2: u8, b3: u8) -> u32 {
    (b0 as int * 16777216 + b1 as int * 65536 + b2 as int * 256 + b3 as int) as u32
}

/// The big-endian form of a 16-bit integer.
pub open spec fn be16_octets(value: u16) -> Seq<u8> {
    seq![(value / 256) as u8, (value % 256) as u8]
}

/// The big-endian form of a 32-bit integer.
pub open spec fn be32_octets(value: u32) -> Seq<u8> {
    seq![
        (value / 16777216) as u8,
        ((value / 65536) % 256) as u8,
        ((value / 256) % 256) as u8,
        (value % 256) as u8,
    ]
}

/// The 16-bit integer that `bytes` holds at `at`.
pub open spec fn be16_at(bytes: Seq<u8>, at: int) -> u16 {
    be16(bytes[at], bytes[at + 1])
}

/// The 32-bit integer that `bytes` holds at `at`.
pub open spec fn be32_at(bytes: Seq<u8>, at: int) -> u32 {
    be32(bytes[at], bytes[at + 1], bytes[at + 2], bytes[at + 3])
}

/// Reads the 16-bit integer at `at`.
pub fn read_u16(bytes: &[u8], at: usize) -> (value: u16)
    requires
        at + 2 <= bytes@.len(),
    ensures
        value == be16_at(bytes@, at as int),
{
    let hi: u16 = bytes[at] as u16;
    let lo: u16 = bytes[at + 1] as u16;
    hi * 256 + lo
}

/// Reads the 32-bit integer at `at`.
pub fn read_u32(bytes: &[u8], at: usize) -> (value: u32)
    requires
        at + 4 <= bytes@.len(),
    ensures
        value == be32_at(bytes@, at as int),
{
    let b0: u32 = bytes[at] as u32;
    let b1: u32 = bytes[at + 1] as u32;
    let b2: u32 = bytes[at + 2] as u32;
    let b3: u32 = bytes[at + 3] as u32;
    b0 * 16777216 + b1 * 65536 + b2 * 256 + b3
}

/// Appends the big-endian form of a 16-bit integer.
pub fn push_u16(out: &mut Vec<u8>, value: u16)
    ensures
        final(out)@ == old(out)@ + be16_octets(value),
{
    out.push((value / 256) as u8);
    out.push((value % 256) as u8);
}

/// Appends the big-endian form of a 32-bit integer.
pub fn push_u32(out: &mut Vec<u8>, value: u32)
    ensures
        final(out)@ == old(out)@ + be32_octets(value),
{
    out.push((value / 16777216) as u8);
    out.push(((value / 65536) % 256) as u8);
    out.push(((value / 256) % 256) as u8);
    out.push((value % 256) as u8);
}

/// Appends `bytes`.
pub fn push_bytes(out: &mut Vec<u8>, bytes: &[u8])
    ensures
        final(out)@ == old(out)@ + bytes@,
{
    let mut i: usize = 0;
    while i < bytes.len()
        invariant
            i <= bytes@.len(),
            out@ == old(out)@ + bytes@.take(i as int),
        decreases bytes@.len() - i,
    {
        out.push(bytes[i]);
        i = i + 1;
        assert(bytes@.take(i as int) =~= bytes@.take(i as int - 1).push(bytes@[i as int - 1]));
    }
    assert(bytes@.take(i as int) =~= bytes@);
}

/// A 16-bit integer is what its big-endian form holds.
pub proof fn lemma_be16_of_octets(value: u16)
    ensures
        be16_octets(value).len() == 2,
        be16_at(be16_octets(value), 0) == value,
{
    let v = value as int;
    assert(v == (v / 256) * 256 + v % 256);
}

/// Two octets are the big-endian form of the integer they hold.
pub proof fn lemma_octets_of_be16(hi: u8, lo: u8)
    ensures
        be16_octets(be16(hi, lo)) == seq![hi, lo],
{
    let v = hi as int * 256 + lo as int;
    lemma_fundamental_div_mod_converse(v, 256, hi as int, lo as int);
    assert(be16_octets(be16(hi, lo)) =~= seq![hi, lo]);
}

/// A 32-bit integer is what its big-endian form holds.
pub proof fn lemma_be32_of_octets(value: u32)
    ensures
        be32_octets(value).len() == 4,
        be32_at(be32_octets(value), 0) == value,
{
    let v = value as int;
    let top = v / 16777216;
    let third = v / 65536;
    let second = v / 256;
    assert(v == second * 256 + v % 256);
    assert(second == third * 256 + second % 256) by {
        lemma_fundamental_div_mod_converse(v, 65536, third, (second % 256) * 256 + v % 256);
        assert(second / 256 == third) by {
            lemma_fundamental_div_mod_converse(second, 256, third, second % 256);
        }
    }
    assert(third == top * 256 + third % 256) by {
        lemma_fundamental_div_mod_converse(
            v,
            16777216,
            top,
            (third % 256) * 65536 + (second % 256) * 256 + v % 256,
        );
        assert(third / 256 == top) by {
            lemma_fundamental_div_mod_converse(third, 256, top, third % 256);
        }
    }
    assert(0 <= top < 256);
    assert(v == top * 16777216 + (third % 256) * 65536 + (second % 256) * 256 + v % 256);
}

} // verus!
