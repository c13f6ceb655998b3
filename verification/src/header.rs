//! The fixed 24-byte container header.

use crate::bytes::{
    append_bytes, le_bytes_u32, le_bytes_u64, le_u32, le_u64, lemma_le_u32_roundtrip,
    lemma_le_u64_roundtrip, read_u32_le, read_u64_le, u32_le_bytes, u64_le_bytes,
};
use vstd::prelude::*;
use vstd::slice::slice_subrange;

verus! {

/// Magic constant at the start of every container: the bytes `ZISO`.
pub const ZISO_MAGIC: u32 = 0x4F53495A;

/// Size of the header in bytes, which the header itself declares.
pub const HEADER_SIZE: u32 = 24;

/// Size of one sector block in bytes.
pub const BLOCK_SIZE: u32 = 2048;

/// Highest format version that is understood.
pub const VERSION: i8 = 1;

/// The decoded fields of a container header.
#[derive(Clone, Copy, Debug, PartialEq, Eq, Structural)]
pub struct Header {
    /// Length of the uncompressed image in bytes.
    pub total_bytes: u64,
    /// Length of one block in bytes.
    pub block_size: u32,
    /// Format version.
    pub version: i8,
    /// Alignment shift: stored offsets are in units of `2^align` bytes.
    pub align: u8,
}

/// Why a header was refused.
#[derive(Clone, Copy, Debug, PartialEq, Eq, Structural)]
pub enum FormatError {
    /// The first four bytes are not the magic constant.
    BadMagic,
    /// The declared header size is not 24.
    BadHeaderSize,
    /// The version is above the highest supported one.
    UnsupportedVersion,
    /// The total size or the block size is zero.
    ZeroSize,
}

/// The byte that stores a version number.
pub open spec fn version_byte(version: i8) -> u8 {
    if version >= 0 {
        version as u8
    } else {
        (version + 256) as u8
    }
}

/// The version number that a byte stores.
pub open spec fn byte_version(b: u8) -> i8 {
    if b < 128 {
        b as i8
    } else {
        (b - 256) as i8
    }
}

impl Header {
    /// A header that a reader accepts: a supported version and non-zero sizes.
    pub open spec fn wf(self) -> bool {
        &&& self.total_bytes != 0
        &&& self.block_size != 0
        &&& self.version <= VERSION
    }

    /// Number of whole blocks in the image. A trailing partial block is not
    /// part of the container.
    pub open spec fn total_blocks(self) -> nat
        recommends
            self.block_size != 0,
    {
        (self.total_bytes as nat) / (self.block_size as nat)
    }
}

/// The 24 bytes of a header: magic, header size, total size, block size,
/// version, alignment shift, and two reserved zero bytes.
pub open spec fn header_bytes(h: Header) -> Seq<u8> {
    le_bytes_u32(ZISO_MAGIC) + le_bytes_u32(HEADER_SIZE) + le_bytes_u64(h.total_bytes)
        + le_bytes_u32(h.block_size) + seq![version_byte(h.version), h.align, 0u8, 0u8]
}

/// What parsing 24 bytes yields: the fields, or the first check that fails.
pub open spec fn parse_header(b: Seq<u8>) -> Result<Header, FormatError>
    recommends
        b.len() >= 24,
{
    if le_u32(b) != ZISO_MAGIC {
        Err(FormatError::BadMagic)
    } else if le_u32(b.subrange(4, 8)) != HEADER_SIZE {
        Err(FormatError::BadHeaderSize)
    } else if byte_version(b[20]) > VERSION {
        Err(FormatError::UnsupportedVersion)
    } else if le_u64(b.subrange(8, 16)) == 0 || le_u32(b.subrange(16, 20)) == 0 {
        Err(FormatError::ZeroSize)
    } else {
        Ok(
            (Header {
                total_bytes: le_u64(b.subrange(8, 16)),
                block_size: le_u32(b.subrange(16, 20)),
                version: byte_version(b[20]),
                align: b[21],
            }),
        )
    }
}

/// Encodes a header into its 24 bytes.
pub fn encode_header(total_bytes: u64, block_size: u32, version: i8, align: u8) -> (out: Vec<u8>)
    ensures
        out@.len() == 24,
        out@ == header_bytes(
            (Header { total_bytes, block_size, version, align }),
        ),
{
    let mut out: Vec<u8> = Vec::new();
    let magic = u32_le_bytes(ZISO_MAGIC);
    append_bytes(&mut out, magic.as_slice());
    let size = u32_le_bytes(HEADER_SIZE);
    append_bytes(&mut out, size.as_slice());
    let total = u64_le_bytes(total_bytes);
    append_bytes(&mut out, total.as_slice());
    let block = u32_le_bytes(block_size);
    append_bytes(&mut out, block.as_slice());
    let v: u8 = if version >= 0 {
        version as u8
    } else {
        (version as i16 + 256) as u8
    };
    out.push(v);
    out.push(align);
    out.push(0u8);
    out.push(0u8);
    assert(out@ =~= header_bytes((Header { total_bytes, block_size, version, align })));
    out
}

/// Parses and validates the first 24 bytes of a container.
pub fn decode_header(bytes: &[u8]) -> (r: Result<Header, FormatError>)
    requires
        bytes@.len() >= 24,
    ensures
        r == parse_header(bytes@),
        r matches Ok(h) ==> h.wf(),
{
    let magic = read_u32_le(bytes);
    let header_size = read_u32_le(slice_subrange(bytes, 4, 8));
    let total_bytes = read_u64_le(slice_subrange(bytes, 8, 16));
    let block_size = read_u32_le(slice_subrange(bytes, 16, 20));
    let vb: u8 = bytes[20];
    let version: i8 = if vb < 128 {
        vb as i8
    } else {
        (vb as i16 - 256) as i8
    };
    let align: u8 = bytes[21];
    if magic != ZISO_MAGIC {
        Err(FormatError::BadMagic)
    } else if header_size != HEADER_SIZE {
        Err(FormatError::BadHeaderSize)
    } else if version > VERSION {
        Err(FormatError::UnsupportedVersion)
    } else if total_bytes == 0 || block_size == 0 {
        Err(FormatError::ZeroSize)
    } else {
        Ok(Header { total_bytes, block_size, version, align })
    }
}

/// Parsing the bytes of a header gives the header back when it is one that
/// a reader accepts, and names the failed check otherwise.
pub proof fn lemma_header_roundtrip(h: Header)
    ensures
        header_bytes(h).len() == 24,
        h.wf() ==> parse_header(header_bytes(h)) == Ok::<Header, FormatError>(h),
        h.version > VERSION ==> parse_header(header_bytes(h)) == Err::<Header, FormatError>(
            FormatError::UnsupportedVersion,
        ),
        h.version <= VERSION && (h.total_bytes == 0 || h.block_size == 0) ==> parse_header(
            header_bytes(h),
        ) == Err::<Header, FormatError>(FormatError::ZeroSize),
{
    let b = header_bytes(h);
    lemma_le_u32_roundtrip(ZISO_MAGIC);
    lemma_le_u32_roundtrip(HEADER_SIZE);
    lemma_le_u64_roundtrip(h.total_bytes);
    lemma_le_u32_roundtrip(h.block_size);
    assert(b.subrange(4, 8) =~= le_bytes_u32(HEADER_SIZE));
    assert(b.subrange(8, 16) =~= le_bytes_u64(h.total_bytes));
    assert(b.subrange(16, 20) =~= le_bytes_u32(h.block_size));
    assert(le_u32(b) == le_u32(le_bytes_u32(ZISO_MAGIC)));
    assert(b[20] == version_byte(h.version));
    assert(b[21] == h.align);
}

} // verus!
