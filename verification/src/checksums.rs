//! CRC-32 (as used by PNG and ZIP) and Adler-32 (as used by zlib).

use vstd::prelude::*;

verus! {

/// The reflected CRC-32 polynomial used by PNG, ZIP and gzip.
pub const CRC32_POLYNOMIAL: u32 = 0xEDB8_8320;

/// The modulus of the Adler-32 sums.
pub const ADLER32_MODULUS: u32 = 65521;

/// One bit of the reflected CRC-32 shift register.
pub open spec fn crc32_shift(c: u32) -> u32 {
    if c & 1 == 1 {
        (c >> 1u32) ^ CRC32_POLYNOMIAL
    } else {
        c >> 1u32
    }
}

/// The register after feeding it one byte, least significant bit first.
pub open spec fn crc32_feed(c: u32, byte: u8) -> u32 {
    let c = c ^ (byte as u32);
    crc32_shift(
        crc32_shift(crc32_shift(crc32_shift(crc32_shift(crc32_shift(crc32_shift(crc32_shift(c))))))),
    )
}

/// The CRC-32 register after feeding it all of `data`, starting from all ones.
pub open spec fn crc32_register(data: Seq<u8>) -> u32
    decreases data.len(),
{
    if data.len() == 0 {
        0xFFFF_FFFFu32
    } else {
        crc32_feed(crc32_register(data.drop_last()), data.last())
    }
}

/// The CRC-32 checksum of `data`: the final register, inverted.
pub open spec fn spec_crc32(data: Seq<u8>) -> u32 {
    crc32_register(data) ^ 0xFFFF_FFFFu32
}

/// The two running Adler-32 sums of `data`, each reduced modulo 65521.
pub open spec fn adler32_sums(data: Seq<u8>) -> (int, int)
    decreases data.len(),
{
    if data.len() == 0 {
        (1, 0)
    } else {
        let (a, b) = adler32_sums(data.drop_last());
        let a2 = (a + data.last()) % (ADLER32_MODULUS as int);
        (a2, (b + a2) % (ADLER32_MODULUS as int))
    }
}

/// The Adler-32 checksum of `data`: the second sum in the high 16 bits and
/// the first in the low 16 bits.
pub open spec fn spec_adler32(data: Seq<u8>) -> u32 {
    (adler32_sums(data).1 * 65536 + adler32_sums(data).0) as u32
}

proof fn lemma_adler32_sums_bounded(data: Seq<u8>)
    ensures
        0 <= adler32_sums(data).0 < ADLER32_MODULUS,
        0 <= adler32_sums(data).1 < ADLER32_MODULUS,
    decreases data.len(),
{
    if data.len() > 0 {
        lemma_adler32_sums_bounded(data.drop_last());
    }
}

fn crc32_shift_exec(c: u32) -> (r: u32)
    ensures
        r == crc32_shift(c),
{
    if c & 1 == 1 {
        (c >> 1u32) ^ CRC32_POLYNOMIAL
    } else {
        c >> 1u32
    }
}

/// Computes the CRC-32 checksum of `data`.
pub fn crc32(data: &[u8]) -> (checksum: u32)
    ensures
        checksum == spec_crc32(data@),
{
    let mut register: u32 = 0xFFFF_FFFF;
    let mut i: usize = 0;
    while i < data.len()
        invariant
            i <= data.len(),
            register == crc32_register(data@.subrange(0, i as int)),
        decreases data.len() - i,
    {
        let c: u32 = register ^ (data[i] as u32);
        let c = crc32_shift_exec(c);
        let c = crc32_shift_exec(c);
        let c = crc32_shift_exec(c);
        let c = crc32_shift_exec(c);
        let c = crc32_shift_exec(c);
        let c = crc32_shift_exec(c);
        let c = crc32_shift_exec(c);
        let c = crc32_shift_exec(c);
        assert(data@.subrange(0, i + 1).drop_last() == data@.subrange(0, i as int));
        register = c;
        i = i + 1;
    }
    assert(data@.subrange(0, data.len() as int) == data@);
    register ^ 0xFFFF_FFFF
}

/// Computes the Adler-32 checksum of `data`.
pub fn adler32(data: &[u8]) -> (checksum: u32)
    ensures
        checksum == spec_adler32(data@),
{
    let mut a: u32 = 1;
    let mut b: u32 = 0;
    let mut i: usize = 0;
    while i < data.len()
        invariant
            i <= data.len(),
            a == adler32_sums(data@.subrange(0, i as int)).0,
            b == adler32_sums(data@.subrange(0, i as int)).1,
        decreases data.len() - i,
    {
        proof {
            lemma_adler32_sums_bounded(data@.subrange(0, i as int));
        }
        assert(data@.subrange(0, i + 1).drop_last() == data@.subrange(0, i as int));
        a = (a + data[i] as u32) % ADLER32_MODULUS;
        b = (b + a) % ADLER32_MODULUS;
        i = i + 1;
    }
    assert(data@.subrange(0, data.len() as int) == data@);
    proof {
        lemma_adler32_sums_bounded(data@);
    }
    b * 65536 + a
}

} // verus!
