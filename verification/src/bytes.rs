//! Little-endian integers in byte sequences.

use byteorder::{ByteOrder, LittleEndian};
use vstd::prelude::*;

verus! {

/// The 32-bit value whose little-endian encoding is the first four bytes of `s`.
pub open spec fn le_u32(s: Seq<u8>) -> u32
    recommends
        s.len() >= 4,
{
    (s[0] as int + s[1] as int * 0x100 + s[2] as int * 0x1_0000 + s[3] as int * 0x100_0000) as u32
}

/// The 64-bit value whose little-endian encoding is the first eight bytes of `s`.
pub open spec fn le_u64(s: Seq<u8>) -> u64
    recommends
        s.len() >= 8,
{
    (le_u32(s) as int + le_u32(s.subrange(4, 8)) as int * 0x1_0000_0000) as u64
}

/// The four bytes that encode `n`, least significant first.
pub open spec fn le_bytes_u32(n: u32) -> Seq<u8> {
    seq![
        (n as int % 0x100) as u8,
        (n as int / 0x100 % 0x100) as u8,
        (n as int / 0x1_0000 % 0x100) as u8,
        (n as int / 0x100_0000 % 0x100) as u8,
    ]
}

/// The eight bytes that encode `n`, least significant first.
pub open spec fn le_bytes_u64(n: u64) -> Seq<u8> {
    le_bytes_u32((n as int % 0x1_0000_0000) as u32) + le_bytes_u32(
        (n as int / 0x1_0000_0000) as u32,
    )
}

/// Decoding the encoding of a 32-bit value gives the value back.
pub proof fn lemma_le_u32_roundtrip(n: u32)
    ensures
        le_bytes_u32(n).len() == 4,
        le_u32(le_bytes_u32(n)) == n,
{
}

/// Decoding the encoding of a 64-bit value gives the value back.
pub proof fn lemma_le_u64_roundtrip(n: u64)
    ensures
        le_bytes_u64(n).len() == 8,
        le_u64(le_bytes_u64(n)) == n,
{
    let lo = (n as int % 0x1_0000_0000) as u32;
    let hi = (n as int / 0x1_0000_0000) as u32;
    lemma_le_u32_roundtrip(lo);
    lemma_le_u32_roundtrip(hi);
    let s = le_bytes_u64(n);
    assert(s.subrange(4, 8) =~= le_bytes_u32(hi));
    assert(le_u32(s) == le_u32(le_bytes_u32(lo)));
}

/// `byteorder::LittleEndian::read_u32`: reads the first four bytes of `buf`
/// as a little-endian 32-bit integer. It panics on a shorter buffer, which
/// the precondition rules out.
#[verifier::external_body]
pub(crate) fn read_u32_le(buf: &[u8]) -> (n: u32)
    requires
        buf@.len() >= 4,
    ensures
        n == le_u32(buf@),
{
    LittleEndian::read_u32(buf)
}

/// `byteorder::LittleEndian::read_u64`: reads the first eight bytes of `buf`
/// as a little-endian 64-bit integer. It panics on a shorter buffer, which
/// the precondition rules out.
#[verifier::external_body]
pub(crate) fn read_u64_le(buf: &[u8]) -> (n: u64)
    requires
        buf@.len() >= 8,
    ensures
        n == le_u64(buf@),
{
    LittleEndian::read_u64(buf)
}

/// `byteorder::LittleEndian::write_u32`: the four bytes it stores for `n`,
/// least significant byte first.
#[verifier::external_body]
pub(crate) fn u32_le_bytes(n: u32) -> (bytes: Vec<u8>)
    ensures
        bytes@ == le_bytes_u32(n),
{
    let mut bytes = vec![0u8; 4];
    LittleEndian::write_u32(&mut bytes, n);
    bytes
}

/// `byteorder::LittleEndian::write_u64`: the eight bytes it stores for `n`,
/// least significant byte first.
#[verifier::external_body]
pub(crate) fn u64_le_bytes(n: u64) -> (bytes: Vec<u8>)
    ensures
        bytes@ == le_bytes_u64(n),
{
    let mut bytes = vec![0u8; 8];
    LittleEndian::write_u64(&mut bytes, n);
    bytes
}

/// Appends `src` to `out`.
pub fn append_bytes(out: &mut Vec<u8>, src: &[u8])
    ensures
        final(out)@ == old(out)@ + src@,
{
    let mut i: usize = 0;
    while i < src.len()
        invariant
            i <= src@.len(),
            out@ == old(out)@ + src@.subrange(0, i as int),
        decreases src@.len() - i,
    {
        out.push(src[i]);
        i += 1;
        assert(out@ =~= old(out)@ + src@.subrange(0, i as int));
    }
    assert(src@.subrange(0, i as int) =~= src@);
}

} // verus!
