//! One block at a time: choosing and placing its stored form when
//! encoding, locating and reconstructing it when decoding.

use crate::align::{granule, lemma_granule_bounds, pad_to_alignment, padding_for, MAX_SHIFT};
use crate::bytes::append_bytes;
use crate::error::{saturated, ZsoError};
use crate::header::BLOCK_SIZE;
use crate::index::{
    entry_for, entry_is_plain, entry_offset, fits_entry, is_plain, make_entry, offset_of,
};
use crate::lz4_block::{
    attempt, compress_block, lemma_trim_bounded, lz4_compressed, lz4_decompress, succeeds_after,
    trim_and_retry, Mode, COMPRESS_LEVEL, MAX_INPUT,
};
use vstd::arithmetic::power2::pow2;
use vstd::prelude::*;
use vstd::slice::{slice_subrange, slice_to_vec};

verus! {

/// The stored form of one block and whether it is the block itself.
#[derive(Debug)]
pub struct StoredBlock {
    /// The bytes that go into the container.
    pub payload: Vec<u8>,
    /// Whether the payload is the uncompressed block.
    pub plain: bool,
}

/// Whether a block is stored uncompressed: its compressed size, as a
/// whole percentage of the uncompressed size, reaches the threshold.
pub open spec fn stores_plain(compressed_len: nat, block_len: nat, threshold: nat) -> bool {
    100 * compressed_len / block_len >= threshold
}

/// The bytes stored for a block, given what the compressor made of it.
pub open spec fn stored_payload(block: Seq<u8>, compressed: Seq<u8>, threshold: nat) -> Seq<u8> {
    if stores_plain(compressed.len(), block.len(), threshold) {
        block
    } else {
        compressed
    }
}

/// `data` followed by the filler that brings its length to a multiple of `2^align`.
pub open spec fn padded(data: Seq<u8>, align: u8, pad_byte: u8) -> Seq<u8> {
    data + Seq::new(padding_for(data.len(), align as nat), |i: int| pad_byte)
}

/// The container after block number `block_no` is placed at its end, and
/// the index entry of the block; or the failure that stops the run.
pub open spec fn place_block(
    data: Seq<u8>,
    block: Seq<u8>,
    block_no: u64,
    mode: Mode,
    threshold: u64,
    align: u8,
    pad_byte: u8,
) -> Result<(Seq<u8>, u32), ZsoError> {
    match lz4_compressed(block, mode, COMPRESS_LEVEL) {
        None => Err(ZsoError::CompressionFailed { block: block_no }),
        Some(compressed) => {
            let start = padded(data, align, pad_byte);
            if !fits_entry(start.len(), align) {
                Err(ZsoError::AlignmentOverflow)
            } else {
                Ok(
                    (
                        start + stored_payload(block, compressed, threshold as nat),
                        entry_for(
                            start.len(),
                            align,
                            stores_plain(compressed.len(), block.len(), threshold as nat),
                        ),
                    ),
                )
            }
        },
    }
}

/// Decompressing what the compressor makes of `block` gives the block back.
pub open spec fn recoverable(block: Seq<u8>, mode: Mode) -> bool {
    match lz4_compressed(block, mode, COMPRESS_LEVEL) {
        Some(c) => attempt(c, block.len() as i32) == Some(block),
        None => true,
    }
}

/// Decides between the compressed and the plain form of a block.
pub fn select_stored(block: &[u8], compressed: Vec<u8>, threshold: u64) -> (stored: StoredBlock)
    requires
        block@.len() > 0,
    ensures
        stored.plain == stores_plain(compressed@.len(), block@.len(), threshold as nat),
        stored.payload@ == stored_payload(block@, compressed@, threshold as nat),
{
    let ratio: u128 = 100u128 * (compressed.len() as u128) / (block.len() as u128);
    if ratio >= threshold as u128 {
        StoredBlock { payload: slice_to_vec(block), plain: true }
    } else {
        StoredBlock { payload: compressed, plain: false }
    }
}

/// Appends the filler that aligns the end of `out`.
pub fn write_padding(out: &mut Vec<u8>, align: u8, pad_byte: u8)
    requires
        align <= MAX_SHIFT,
    ensures
        final(out)@ == padded(old(out)@, align, pad_byte),
        final(out)@.len() % pow2(align as nat) == 0,
{
    let pad = pad_to_alignment(out.len() as u64, align);
    let mut i: u64 = 0;
    while i < pad
        invariant
            i <= pad,
            out@ == old(out)@ + Seq::new(i as nat, |j: int| pad_byte),
        decreases pad - i,
    {
        out.push(pad_byte);
        i += 1;
        assert(out@ =~= old(out)@ + Seq::new(i as nat, |j: int| pad_byte));
    }
}

/// Encodes one block at the end of the container under construction:
/// compresses it, aligns the write position, and appends the compressed
/// or the plain form. Returns the index entry of the block.
///
/// A compressor failure leaves `out` as it was; an alignment overflow
/// leaves it padded, with no payload added.
pub fn encode_block(
    out: &mut Vec<u8>,
    block: &[u8],
    block_no: u64,
    mode: Mode,
    threshold: u64,
    align: u8,
    pad_byte: u8,
) -> (r: Result<u32, ZsoError>)
    requires
        block@.len() == BLOCK_SIZE,
        align <= MAX_SHIFT,
    ensures
        match place_block(old(out)@, block@, block_no, mode, threshold, align, pad_byte) {
            Ok((data, entry)) => r == Ok::<u32, ZsoError>(entry) && final(out)@ == data,
            Err(e) => r == Err::<u32, ZsoError>(e) && final(out)@ == (if e
                == ZsoError::AlignmentOverflow {
                padded(old(out)@, align, pad_byte)
            } else {
                old(out)@
            }),
        },
        r.is_ok() ==> recoverable(block@, mode),
{
    match compress_block(block, mode, COMPRESS_LEVEL) {
        None => Err(ZsoError::CompressionFailed { block: block_no }),
        Some(compressed) => {
            let stored = select_stored(block, compressed, threshold);
            write_padding(out, align, pad_byte);
            match make_entry(out.len() as u64, align, stored.plain) {
                None => Err(ZsoError::AlignmentOverflow),
                Some(entry) => {
                    append_bytes(out, stored.payload.as_slice());
                    Ok(entry)
                },
            }
        },
    }
}

/// The bytes of `container` from `offset`, `length` of them or as many as
/// there are before its end.
pub open spec fn read_range(container: Seq<u8>, offset: nat, length: nat) -> Seq<u8> {
    if offset >= container.len() {
        Seq::<u8>::empty()
    } else if offset + length > container.len() {
        container.subrange(offset as int, container.len() as int)
    } else {
        container.subrange(offset as int, (offset + length) as int)
    }
}

/// How many bytes are read for block `i`: one block size for a plain
/// block; for a compressed one the distance to the next block's offset,
/// or, for the last block, to the end of the container.
pub open spec fn stored_length(
    index: Seq<u32>,
    i: int,
    container_len: nat,
    block_size: u32,
    align: u8,
) -> nat
    recommends
        0 <= i < index.len() - 1,
{
    let offset = entry_offset(index[i], align);
    let end = if i + 2 == index.len() {
        container_len
    } else {
        entry_offset(index[i + 1], align)
    };
    if entry_is_plain(index[i]) {
        block_size as nat
    } else if end >= offset {
        (end - offset) as nat
    } else {
        0
    }
}

/// The bytes read for block `i`.
pub open spec fn stored_bytes(
    container: Seq<u8>,
    index: Seq<u32>,
    i: int,
    block_size: u32,
    align: u8,
) -> Seq<u8> {
    read_range(
        container,
        entry_offset(index[i], align),
        stored_length(index, i, container.len(), block_size, align),
    )
}

/// How many trailing bytes recovery may drop from a candidate: the
/// padding granule, and no more than the candidate holds.
pub open spec fn trim_limit(align: u8, len: nat) -> nat {
    if pow2(align as nat) < len {
        pow2(align as nat)
    } else {
        len
    }
}

/// Block `i` as reconstructed from the container, or `None` where the
/// stored bytes do not give exactly one block.
pub open spec fn decoded_block(
    container: Seq<u8>,
    index: Seq<u32>,
    i: int,
    block_size: u32,
    align: u8,
) -> Option<Seq<u8>>
    recommends
        0 <= i < index.len() - 1,
{
    let data = stored_bytes(container, index, i, block_size, align);
    let out = if entry_is_plain(index[i]) {
        Some(data)
    } else if block_size > MAX_INPUT {
        None
    } else {
        trim_and_retry(data, block_size as i32, trim_limit(align, data.len()))
    };
    match out {
        Some(b) => if b.len() == block_size {
            Some(b)
        } else {
            None
        },
        None => None,
    }
}

/// Recovery of a compressed block is bounded: where it succeeds, the
/// block comes from the longest candidate that decompresses, after no
/// more than `2^align` trailing bytes were dropped.
pub proof fn lemma_recovery_bounded(
    container: Seq<u8>,
    index: Seq<u32>,
    i: int,
    block_size: u32,
    align: u8,
)
    requires
        !entry_is_plain(index[i]),
    ensures
        decoded_block(container, index, i, block_size, align) matches Some(b) ==> exists|
            trims: nat,
        |
            trims <= pow2(align as nat) && #[trigger] succeeds_after(
                stored_bytes(container, index, i, block_size, align),
                block_size as i32,
                trims,
                b,
            ),
{
    let data = stored_bytes(container, index, i, block_size, align);
    lemma_trim_bounded(data, block_size as i32, trim_limit(align, data.len()));
}

/// The failure reported for block `i`.
pub open spec fn corruption_at(index: Seq<u32>, i: int, align: u8) -> ZsoError {
    ZsoError::Corruption { block: i as u64, offset: saturated(entry_offset(index[i], align)) }
}

/// Reads the stored bytes of block `i` out of the container.
pub fn read_stored(
    container: &[u8],
    index: &[u32],
    i: usize,
    block_size: u32,
    align: u8,
) -> (data: Vec<u8>)
    requires
        i + 1 < index@.len(),
    ensures
        data@ == stored_bytes(container@, index@, i as int, block_size, align),
{
    let len: usize = container.len();
    let start = match offset_of(index[i], align) {
        Some(v) => if v < len as u64 {
            v as usize
        } else {
            len
        },
        None => len,
    };
    if start >= len {
        return Vec::new();
    }
    let end: usize = if is_plain(index[i]) {
        if block_size as u64 > (len - start) as u64 {
            len
        } else {
            start + block_size as usize
        }
    } else if i + 2 == index.len() {
        len
    } else {
        match offset_of(index[i + 1], align) {
            Some(next) => if next <= start as u64 {
                start
            } else if next > len as u64 {
                len
            } else {
                next as usize
            },
            None => len,
        }
    };
    slice_to_vec(slice_subrange(container, start, end))
}

/// The largest number of trims allowed on a candidate of `len` bytes.
pub fn max_trims(align: u8, len: usize) -> (limit: usize)
    ensures
        limit == trim_limit(align, len as nat),
{
    proof {
        lemma_granule_bounds(align as nat);
    }
    if align > MAX_SHIFT {
        len
    } else {
        let g = granule(align);
        if g < len as u64 {
            g as usize
        } else {
            len
        }
    }
}

/// Reconstructs block `i`: locates its stored bytes through the index,
/// takes a plain block as it is and decompresses a compressed one with
/// trim-and-retry, and accepts the result only at exactly one block size.
pub fn decode_block(
    container: &[u8],
    index: &[u32],
    i: usize,
    block_size: u32,
    align: u8,
) -> (r: Result<Vec<u8>, ZsoError>)
    requires
        i + 1 < index@.len(),
    ensures
        match r {
            Ok(b) => decoded_block(container@, index@, i as int, block_size, align) == Some(b@)
                && b@.len() == block_size,
            Err(e) => decoded_block(container@, index@, i as int, block_size, align).is_none()
                && e == corruption_at(index@, i as int, align),
        },
{
    let data = read_stored(container, index, i, block_size, align);
    let offset: u64 = match offset_of(index[i], align) {
        Some(v) => v,
        None => u64::MAX,
    };
    let failure = ZsoError::Corruption { block: i as u64, offset };
    let out = if is_plain(index[i]) {
        Some(data)
    } else if block_size > 0x7fff_ffff {
        None
    } else {
        let limit = max_trims(align, data.len());
        lz4_decompress(data, block_size as i32, limit)
    };
    match out {
        Some(b) => if b.len() as u64 == block_size as u64 {
            Ok(b)
        } else {
            Err(failure)
        },
        None => Err(failure),
    }
}

} // verus!
