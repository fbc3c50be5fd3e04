//! Little- and big-endian byte encodings of fixed-width integers, and the
//! appending helpers that every writer in this crate is built from.

use vstd::prelude::*;

verus! {

/// The two bytes of `x`, least significant first.
pub open spec fn u16_le(x: u16) -> Seq<u8> {
    seq![(x % 256) as u8, (x / 256) as u8]
}

/// The four bytes of `x`, least significant first.
pub open spec fn u32_le(x: u32) -> Seq<u8> {
    seq![(x % 256) as u8, ((x / 256) % 256) as u8, ((x / 65536) % 256) as u8, (x / 16777216) as u8]
}

/// The four bytes of `x`, most significant first.
pub open spec fn u32_be(x: u32) -> Seq<u8> {
    seq![(x / 16777216) as u8, ((x / 65536) % 256) as u8, ((x / 256) % 256) as u8, (x % 256) as u8]
}

/// `count` zero bytes.
pub open spec fn zeros(count: nat) -> Seq<u8> {
    Seq::new(count, |_i: int| 0u8)
}

/// Appends one byte.
pub fn push_byte(output: &mut Vec<u8>, byte: u8)
    ensures
        final(output)@ == old(output)@ + seq![byte],
{
    output.push(byte);
}

/// Appends the little-endian encoding of `x`.
pub fn push_u16_le(output: &mut Vec<u8>, x: u16)
    ensures
        final(output)@ == old(output)@ + u16_le(x),
{
    output.push((x % 256) as u8);
    output.push((x / 256) as u8);
}

/// Appends the little-endian encoding of `x`.
pub fn push_u32_le(output: &mut Vec<u8>, x: u32)
    ensures
        final(output)@ == old(output)@ + u32_le(x),
{
    output.push((x % 256) as u8);
    output.push(((x / 256) % 256) as u8);
    output.push(((x / 65536) % 256) as u8);
    output.push((x / 16777216) as u8);
}

/// Appends the big-endian encoding of `x`.
pub fn push_u32_be(output: &mut Vec<u8>, x: u32)
    ensures
        final(output)@ == old(output)@ + u32_be(x),
{
    output.push((x / 16777216) as u8);
    output.push(((x / 65536) % 256) as u8);
    output.push(((x / 256) % 256) as u8);
    output.push((x % 256) as u8);
}

/// Appends `bytes[start..end]`.
pub fn push_range(output: &mut Vec<u8>, bytes: &[u8], start: usize, end: usize)
    requires
        start <= end <= bytes@.len(),
    ensures
        final(output)@ == old(output)@ + bytes@.subrange(start as int, end as int),
{
    let mut i = start;
    while i < end
        invariant
            start <= i <= end <= bytes@.len(),
            output@ == old(output)@ + bytes@.subrange(start as int, i as int),
        decreases end - i,
    {
        output.push(bytes[i]);
        i = i + 1;
        assert(output@ == old(output)@ + bytes@.subrange(start as int, i as int));
    }
}

/// Appends all of `bytes`.
pub fn push_bytes(output: &mut Vec<u8>, bytes: &[u8])
    ensures
        final(output)@ == old(output)@ + bytes@,
{
    push_range(output, bytes, 0, bytes.len());
    assert(bytes@.subrange(0, bytes@.len() as int) == bytes@);
}

/// Appends `count` copies of `byte`.
pub fn push_repeated(output: &mut Vec<u8>, byte: u8, count: usize)
    ensures
        final(output)@ == old(output)@ + Seq::new(count as nat, |_i: int| byte),
{
    let mut i: usize = 0;
    while i < count
        invariant
            i <= count,
            output@ == old(output)@ + Seq::new(i as nat, |_i: int| byte),
        decreases count - i,
    {
        output.push(byte);
        i = i + 1;
        assert(output@ == old(output)@ + Seq::new(i as nat, |_i: int| byte));
    }
}

} // verus!
