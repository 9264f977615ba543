//! Big-endian integers as they lie in a block file.

use vstd::prelude::*;

verus! {

/// The value of four bytes read as a big-endian unsigned integer.
pub open spec fn u32_from_be(b: Seq<u8>) -> u32
    recommends
        b.len() == 4,
{
    (b[0] as int * 0x100_0000 + b[1] as int * 0x1_0000 + b[2] as int * 0x100 + b[3] as int) as u32
}

/// The four bytes that hold `x` in big-endian order.
pub open spec fn u32_to_be(x: u32) -> Seq<u8> {
    seq![
        (x as int / 0x100_0000) as u8,
        (x as int / 0x1_0000 % 0x100) as u8,
        (x as int / 0x100 % 0x100) as u8,
        (x as int % 0x100) as u8,
    ]
}

/// The value of eight bytes read as a big-endian unsigned integer.
pub open spec fn u64_from_be(b: Seq<u8>) -> u64
    recommends
        b.len() == 8,
{
    (u32_from_be(b.subrange(0, 4)) as int * 0x1_0000_0000 + u32_from_be(b.subrange(4, 8)) as int) as u64
}

/// The eight bytes that hold `x` in big-endian order.
pub open spec fn u64_to_be(x: u64) -> Seq<u8> {
    u32_to_be((x as int / 0x1_0000_0000) as u32) + u32_to_be((x as int % 0x1_0000_0000) as u32)
}

/// Decoding undoes encoding for 32-bit values.
pub proof fn lemma_u32_be_round_trip(x: u32)
    ensures
        u32_to_be(x).len() == 4,
        u32_from_be(u32_to_be(x)) == x,
{
}

/// Decoding undoes encoding for 64-bit values.
pub proof fn lemma_u64_be_round_trip(x: u64)
    ensures
        u64_to_be(x).len() == 8,
        u64_from_be(u64_to_be(x)) == x,
{
    let hi = (x as int / 0x1_0000_0000) as u32;
    let lo = (x as int % 0x1_0000_0000) as u32;
    lemma_u32_be_round_trip(hi);
    lemma_u32_be_round_trip(lo);
    assert(u64_to_be(x).subrange(0, 4) =~= u32_to_be(hi));
    assert(u64_to_be(x).subrange(4, 8) =~= u32_to_be(lo));
}

/// Reads four bytes as a big-endian integer.
pub fn decode_u32(b0: u8, b1: u8, b2: u8, b3: u8) -> (x: u32)
    ensures
        x == u32_from_be(seq![b0, b1, b2, b3]),
{
    (b0 as u32) * 0x100_0000 + (b1 as u32) * 0x1_0000 + (b2 as u32) * 0x100 + (b3 as u32)
}

/// Splits a 32-bit value into its big-endian bytes.
pub fn encode_u32(x: u32) -> (b: [u8; 4])
    ensures
        b@ == u32_to_be(x),
{
    let b: [u8; 4] = [
        (x / 0x100_0000) as u8,
        (x / 0x1_0000 % 0x100) as u8,
        (x / 0x100 % 0x100) as u8,
        (x % 0x100) as u8,
    ];
    assert(b@ =~= u32_to_be(x));
    b
}

} // verus!
