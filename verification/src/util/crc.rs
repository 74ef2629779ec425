//! CRC-32C (Castagnoli), the checksum guarding SSTable blocks.
use vstd::prelude::*;

verus! {

/// The reflected Castagnoli polynomial.
pub const CRC32C_POLY: u32 = 0x82f6_3b78;

/// `n` rounds of the bitwise CRC shift register.
pub open spec fn crc_shift(c: u32, n: nat) -> u32
    decreases n,
{
    if n == 0 {
        c
    } else {
        let c1: u32 = if c & 1 == 1 { (c >> 1u32) ^ CRC32C_POLY } else { c >> 1u32 };
        crc_shift(c1, (n - 1) as nat)
    }
}

/// The register after feeding the bytes of `s`, starting from `c`.
pub open spec fn crc_update(c: u32, s: Seq<u8>) -> u32
    decreases s.len(),
{
    if s.len() == 0 {
        c
    } else {
        crc_update(crc_shift(c ^ (s[0] as u32), 8), s.drop_first())
    }
}

/// CRC-32C of `s`: register preset to all ones, output complemented.
pub open spec fn spec_crc32c(s: Seq<u8>) -> u32 {
    !crc_update(0xffff_ffffu32, s)
}

/// CRC-32C of `data`.
pub fn crc32c(data: &[u8]) -> (r: u32)
    ensures
        r == spec_crc32c(data@),
{
    let mut c: u32 = 0xffff_ffff;
    let mut i: usize = 0;
    assert(data@.skip(0) =~= data@);
    while i < data.len()
        invariant
            i <= data@.len(),
            crc_update(c, data@.skip(i as int)) == crc_update(0xffff_ffffu32, data@),
        decreases data@.len() - i,
    {
        let mut x: u32 = c ^ (data[i] as u32);
        let mut k: usize = 0;
        while k < 8
            invariant
                k <= 8,
                crc_shift(x, (8 - k) as nat) == crc_shift(c ^ (data@[i as int] as u32), 8),
            decreases 8 - k,
        {
            x = if x & 1 == 1 { (x >> 1u32) ^ CRC32C_POLY } else { x >> 1u32 };
            k = k + 1;
        }
        proof {
            assert(data@.skip(i as int).drop_first() =~= data@.skip(i + 1));
            assert(data@.skip(i as int)[0] == data@[i as int]);
        }
        c = x;
        i = i + 1;
    }
    !c
}

} // verus!
