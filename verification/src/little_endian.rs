//! Little-endian layouts of the fixed-width integers, as sequences of bytes,
//! and the number that such a sequence spells when it is read back.
use vstd::prelude::*;

verus! {

/// The two bytes of `x`, least significant first.
pub open spec fn u16_le(x: u16) -> Seq<u8> {
    seq![(x % 256) as u8, (x / 256) as u8]
}

/// The four bytes of `x`, least significant first.
pub open spec fn u32_le(x: u32) -> Seq<u8> {
    seq![
        (x % 256) as u8,
        (x / 256 % 256) as u8,
        (x / 65536 % 256) as u8,
        (x / 16777216) as u8,
    ]
}

/// The unsigned number with the bit pattern of `x` in two's complement.
pub open spec fn i16_bits(x: i16) -> u16 {
    if x < 0 {
        (x + 65536) as u16
    } else {
        x as u16
    }
}

/// The two bytes of `x` in two's complement, least significant first.
pub open spec fn i16_le(x: i16) -> Seq<u8> {
    u16_le(i16_bits(x))
}

/// The number that `bytes` spell when the first byte is the least significant.
pub open spec fn le_value(bytes: Seq<u8>) -> nat
    decreases bytes.len(),
{
    if bytes.len() == 0 {
        0
    } else {
        bytes[0] as nat + 256 * le_value(bytes.skip(1))
    }
}

/// Reading the two bytes of a `u16` back gives the number.
pub proof fn lemma_u16_le_value(x: u16)
    ensures
        u16_le(x).len() == 2,
        le_value(u16_le(x)) == x,
{
    let b = u16_le(x);
    reveal_with_fuel(le_value, 3);
    assert(b.skip(1) =~= seq![(x / 256) as u8]);
    assert(b.skip(1).skip(1) =~= Seq::<u8>::empty());
}

/// Reading the four bytes of a `u32` back gives the number.
pub proof fn lemma_u32_le_value(x: u32)
    ensures
        u32_le(x).len() == 4,
        le_value(u32_le(x)) == x,
{
    let b = u32_le(x);
    let b1 = b.skip(1);
    let b2 = b1.skip(1);
    let b3 = b2.skip(1);
    reveal_with_fuel(le_value, 5);
    assert(b1 =~= seq![b[1], b[2], b[3]]);
    assert(b2 =~= seq![b[2], b[3]]);
    assert(b3 =~= seq![b[3]]);
    assert(b3.skip(1) =~= Seq::<u8>::empty());
    assert(le_value(b3) == x / 16777216);
    assert(le_value(b2) == x / 65536);
    assert(le_value(b1) == x / 256);
}

/// Reading the two bytes of an `i16` back gives its bit pattern: the number
/// itself where it is not negative, and 65536 more where it is.
pub proof fn lemma_i16_le_value(x: i16)
    ensures
        i16_le(x).len() == 2,
        le_value(i16_le(x)) == i16_bits(x),
        x >= 0 ==> le_value(i16_le(x)) == x,
        x < 0 ==> le_value(i16_le(x)) == x + 65536,
{
    lemma_u16_le_value(i16_bits(x));
}

} // verus!
