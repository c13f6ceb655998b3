//! Whole-image conversion: the header, the index table and the blocks in
//! order.

use crate::align::{choose_align, default_align, MAX_SHIFT};
use crate::block::{corruption_at, decode_block, decoded_block, encode_block, place_block};
use crate::bytes::append_bytes;
use crate::error::ZsoError;
use crate::fidelity::{
    block_recoverable, filler_is_harmless, lemma_round_trip, lemma_whole_image, lossless_on,
};
use crate::header::{
    decode_header, encode_header, header_bytes, parse_header, FormatError, Header, BLOCK_SIZE,
    VERSION,
};
use crate::index::{
    entry_for, fits_entry, index_bytes, index_entry, make_entry, read_index, write_index,
    INDEX_START,
};
use crate::lz4_block::Mode;
use vstd::prelude::*;
use vstd::slice::slice_subrange;

verus! {

/// Number of whole blocks in an image of `total_bytes` bytes. Bytes after
/// the last whole block are not stored.
pub open spec fn block_count(total_bytes: nat) -> nat {
    total_bytes / (BLOCK_SIZE as nat)
}

/// Block `i` of an image.
pub open spec fn image_block(iso: Seq<u8>, i: nat) -> Seq<u8> {
    iso.subrange(i * BLOCK_SIZE, (i + 1) * BLOCK_SIZE)
}

/// The whole blocks of an image: the image without the bytes after its
/// last multiple of the block size.
pub open spec fn whole_blocks(iso: Seq<u8>) -> Seq<u8> {
    iso.subrange(0, block_count(iso.len()) * BLOCK_SIZE)
}

/// Where the first block may start: after the header and an index of
/// `blocks + 1` entries.
pub open spec fn payload_start(blocks: nat) -> nat {
    INDEX_START as nat + 4 * (blocks + 1)
}

/// The alignment shift of a conversion: the caller's choice, or the
/// default for the image size.
pub open spec fn effective_align(total_bytes: nat, align: Option<u8>) -> nat {
    match align {
        Some(a) => a as nat,
        None => default_align(total_bytes),
    }
}

/// The container under construction after the first `k` blocks, its
/// header and index still zeroed, and their index entries; or the failure
/// of the first block that could not be placed.
pub open spec fn encode_blocks(
    iso: Seq<u8>,
    k: nat,
    mode: Mode,
    threshold: u64,
    align: u8,
    pad_byte: u8,
) -> Result<(Seq<u8>, Seq<u32>), ZsoError>
    decreases k,
{
    if k == 0 {
        Ok((Seq::new(payload_start(block_count(iso.len())), |i: int| 0u8), Seq::<u32>::empty()))
    } else {
        match encode_blocks(iso, (k - 1) as nat, mode, threshold, align, pad_byte) {
            Err(e) => Err(e),
            Ok((data, entries)) => match place_block(
                data,
                image_block(iso, (k - 1) as nat),
                (k - 1) as u64,
                mode,
                threshold,
                align,
                pad_byte,
            ) {
                Err(e) => Err(e),
                Ok((next, entry)) => Ok((next, entries.push(entry))),
            },
        }
    }
}

/// The container for an image: header, index table, then the blocks,
/// each at its aligned offset; or the failure that stops the conversion.
pub open spec fn encoded_container(
    iso: Seq<u8>,
    mode: Mode,
    threshold: u64,
    align: Option<u8>,
    pad_byte: u8,
) -> Result<Seq<u8>, ZsoError> {
    let shift = effective_align(iso.len(), align);
    let blocks = block_count(iso.len());
    if shift > MAX_SHIFT {
        Err(ZsoError::AlignmentOverflow)
    } else {
        match encode_blocks(iso, blocks, mode, threshold, shift as u8, pad_byte) {
            Err(e) => Err(e),
            Ok((data, entries)) => if !fits_entry(data.len(), shift as u8) {
                Err(ZsoError::AlignmentOverflow)
            } else {
                Ok(
                    header_bytes(
                        (Header {
                            total_bytes: iso.len() as u64,
                            block_size: BLOCK_SIZE,
                            version: VERSION,
                            align: shift as u8,
                        }),
                    ) + index_bytes(entries.push(entry_for(data.len(), shift as u8, false)))
                        + data.subrange(payload_start(blocks) as int, data.len() as int),
                )
            },
        }
    }
}

/// The index table of a container with `count` entries.
pub open spec fn index_of(container: Seq<u8>, count: nat) -> Seq<u32> {
    Seq::new(count, |i: int| index_entry(container, i as nat))
}

/// The first `k` blocks of the image in a container, or the failure of
/// the first block that cannot be reconstructed.
pub open spec fn decode_blocks(
    container: Seq<u8>,
    index: Seq<u32>,
    k: nat,
    block_size: u32,
    align: u8,
) -> Result<Seq<u8>, ZsoError>
    decreases k,
{
    if k == 0 {
        Ok(Seq::<u8>::empty())
    } else {
        match decode_blocks(container, index, (k - 1) as nat, block_size, align) {
            Err(e) => Err(e),
            Ok(image) => match decoded_block(container, index, k - 1, block_size, align) {
                None => Err(corruption_at(index, k - 1, align)),
                Some(block) => Ok(image + block),
            },
        }
    }
}

/// The image that a container holds, or the failure that stops decoding.
pub open spec fn decoded_image(container: Seq<u8>) -> Result<Seq<u8>, ZsoError> {
    if container.len() < INDEX_START {
        Err(ZsoError::UnexpectedEof)
    } else {
        match parse_header(container.subrange(0, INDEX_START as int)) {
            Err(e) => Err(ZsoError::Format(e)),
            Ok(h) => if payload_start(h.total_blocks()) > container.len() {
                Err(ZsoError::UnexpectedEof)
            } else {
                decode_blocks(
                    container,
                    index_of(container, h.total_blocks() + 1),
                    h.total_blocks(),
                    h.block_size,
                    h.align,
                )
            },
        }
    }
}

/// Converts an image to a container.
///
/// Only whole blocks are stored: bytes after the last multiple of the
/// block size are dropped, while the header records the full length.
/// With `align` absent the shift is the default for the image size.
pub fn compress_zso(
    iso: &[u8],
    mode: Mode,
    threshold: u64,
    align: Option<u8>,
    pad_byte: u8,
) -> (r: Result<Vec<u8>, ZsoError>)
    ensures
        match r {
            Ok(out) => encoded_container(iso@, mode, threshold, align, pad_byte) == Ok::<
                Seq<u8>,
                ZsoError,
            >(out@),
            Err(e) => encoded_container(iso@, mode, threshold, align, pad_byte) == Err::<
                Seq<u8>,
                ZsoError,
            >(e),
        },
        r.is_ok() ==> lossless_on(iso@, mode),
        r matches Ok(out) ==> iso@.len() > 0 && filler_is_harmless(
            out@,
            iso@,
            mode,
            threshold,
            align,
        ) ==> decoded_image(out@) == Ok::<Seq<u8>, ZsoError>(whole_blocks(iso@)),
        r.is_ok() && iso@.len() % (BLOCK_SIZE as nat) == 0 ==> whole_blocks(iso@) == iso@,
{
    let total: usize = iso.len();
    let shift: u8 = match align {
        Some(a) => {
            if a > MAX_SHIFT {
                return Err(ZsoError::AlignmentOverflow);
            }
            a
        },
        None => {
            let a = choose_align(total as u64);
            if a > MAX_SHIFT as u64 {
                return Err(ZsoError::AlignmentOverflow);
            }
            a as u8
        },
    };
    let blocks: usize = total / (BLOCK_SIZE as usize);
    let start: usize = INDEX_START + 4 * (blocks + 1);
    let mut data: Vec<u8> = Vec::new();
    let mut z: usize = 0;
    while z < start
        invariant
            z <= start,
            data@ == Seq::new(z as nat, |i: int| 0u8),
        decreases start - z,
    {
        data.push(0u8);
        z += 1;
        assert(data@ =~= Seq::new(z as nat, |i: int| 0u8));
    }
    let mut entries: Vec<u32> = Vec::new();
    let mut k: usize = 0;
    while k < blocks
        invariant
            k <= blocks,
            total == iso@.len(),
            blocks == block_count(iso@.len()),
            shift <= MAX_SHIFT,
            shift == effective_align(iso@.len(), align),
            start == payload_start(blocks as nat),
            data@.len() >= start,
            forall|i: nat| i < k ==> #[trigger] block_recoverable(iso@, i, mode),
            encode_blocks(iso@, k as nat, mode, threshold, shift, pad_byte) == Ok::<
                (Seq<u8>, Seq<u32>),
                ZsoError,
            >((data@, entries@)),
        decreases blocks - k,
    {
        assert((k + 1) * BLOCK_SIZE <= total) by (nonlinear_arith)
            requires
                k + 1 <= blocks,
                blocks == total / (BLOCK_SIZE as usize),
        ;
        let block = slice_subrange(iso, k * (BLOCK_SIZE as usize), (k + 1) * (BLOCK_SIZE as usize));
        assert(block@ == image_block(iso@, k as nat));
        let ghost before = data@;
        match encode_block(&mut data, block, k as u64, mode, threshold, shift, pad_byte) {
            Err(e) => {
                proof {
                    lemma_encode_blocks_stops(
                        iso@,
                        (k + 1) as nat,
                        blocks as nat,
                        mode,
                        threshold,
                        shift,
                        pad_byte,
                    );
                }
                return Err(e);
            },
            Ok(entry) => {
                entries.push(entry);
            },
        }
        assert(data@.len() >= before.len());
        k += 1;
    }
    assert(encoded_container(iso@, mode, threshold, align, pad_byte) matches Ok(c) ==> c
        == header_bytes(
        (Header {
            total_bytes: total as u64,
            block_size: BLOCK_SIZE,
            version: VERSION,
            align: shift,
        }),
    ) + index_bytes(entries@.push(entry_for(data@.len(), shift, false))) + data@.subrange(
        start as int,
        data@.len() as int,
    ));
    match make_entry(data.len() as u64, shift, false) {
        None => Err(ZsoError::AlignmentOverflow),
        Some(last) => {
            entries.push(last);
            let mut out = encode_header(total as u64, BLOCK_SIZE, VERSION, shift);
            let table = write_index(entries.as_slice());
            append_bytes(&mut out, table.as_slice());
            append_bytes(&mut out, slice_subrange(data.as_slice(), start, data.len()));
            proof {
                if total > 0 && filler_is_harmless(out@, iso@, mode, threshold, align) {
                    lemma_round_trip(iso@, mode, threshold, align, pad_byte, out@);
                }
                lemma_whole_image(iso@);
            }
            Ok(out)
        },
    }
}

/// Once a block fails, the failure is that of every longer prefix.
pub proof fn lemma_encode_blocks_stops(
    iso: Seq<u8>,
    k: nat,
    n: nat,
    mode: Mode,
    threshold: u64,
    align: u8,
    pad_byte: u8,
)
    requires
        k <= n,
        encode_blocks(iso, k, mode, threshold, align, pad_byte).is_err(),
    ensures
        encode_blocks(iso, n, mode, threshold, align, pad_byte) == encode_blocks(
            iso,
            k,
            mode,
            threshold,
            align,
            pad_byte,
        ),
    decreases n - k,
{
    if k < n {
        lemma_encode_blocks_stops(iso, k, (n - 1) as nat, mode, threshold, align, pad_byte);
    }
}

/// Once a block fails, the failure is that of every longer prefix.
pub proof fn lemma_decode_blocks_stops(
    container: Seq<u8>,
    index: Seq<u32>,
    k: nat,
    n: nat,
    block_size: u32,
    align: u8,
)
    requires
        k <= n,
        decode_blocks(container, index, k, block_size, align).is_err(),
    ensures
        decode_blocks(container, index, n, block_size, align) == decode_blocks(
            container,
            index,
            k,
            block_size,
            align,
        ),
    decreases n - k,
{
    if k < n {
        lemma_decode_blocks_stops(container, index, k, (n - 1) as nat, block_size, align);
    }
}

/// Decoded blocks have exactly one block size each, so the first `k` of
/// them make `k` block sizes.
pub proof fn lemma_decoded_length(
    container: Seq<u8>,
    index: Seq<u32>,
    k: nat,
    block_size: u32,
    align: u8,
)
    ensures
        decode_blocks(container, index, k, block_size, align) matches Ok(image) ==> image.len()
            == k * block_size,
    decreases k,
{
    if k == 0 {
        assert(0 * block_size == 0) by (nonlinear_arith);
    } else {
        lemma_decoded_length(container, index, (k - 1) as nat, block_size, align);
        assert((k - 1) * block_size + block_size == k * block_size) by (nonlinear_arith);
        if decode_blocks(container, index, k, block_size, align) is Ok {
            let head = decode_blocks(container, index, (k - 1) as nat, block_size, align).unwrap();
            let block = decoded_block(container, index, k - 1, block_size, align).unwrap();
            assert(block.len() == block_size);
            assert(decode_blocks(container, index, k, block_size, align).unwrap() == head + block);
        }
    }
}

/// Converts a container back to the image it holds.
///
/// The header is validated first and the whole index table read; then
/// every block is reconstructed in order. The first failure ends the run.
pub fn decompress_zso(zso: &[u8]) -> (r: Result<Vec<u8>, ZsoError>)
    ensures
        match r {
            Ok(out) => decoded_image(zso@) == Ok::<Seq<u8>, ZsoError>(out@),
            Err(e) => decoded_image(zso@) == Err::<Seq<u8>, ZsoError>(e),
        },
        r matches Ok(out) ==> parse_header(zso@.subrange(0, INDEX_START as int)) matches Ok(h)
            && out@.len() == h.total_blocks() * h.block_size,
{
    let len: usize = zso.len();
    if len < INDEX_START {
        return Err(ZsoError::UnexpectedEof);
    }
    let header = match decode_header(slice_subrange(zso, 0, INDEX_START)) {
        Err(e) => {
            return Err(ZsoError::Format(e));
        },
        Ok(h) => h,
    };
    let blocks64: u64 = header.total_bytes / (header.block_size as u64);
    if blocks64 >= ((len - INDEX_START) / 4) as u64 {
        return Err(ZsoError::UnexpectedEof);
    }
    let blocks: usize = blocks64 as usize;
    assert(blocks == header.total_blocks());
    let index = read_index(zso, blocks + 1);
    assert(index@ =~= index_of(zso@, header.total_blocks() + 1));
    assert(decoded_image(zso@) == decode_blocks(
        zso@,
        index@,
        blocks as nat,
        header.block_size,
        header.align,
    ));
    let mut out: Vec<u8> = Vec::new();
    let mut k: usize = 0;
    while k < blocks
        invariant
            k <= blocks,
            index@.len() == blocks + 1,
            blocks == header.total_blocks(),
            parse_header(zso@.subrange(0, INDEX_START as int)) == Ok::<Header, FormatError>(header),
            decoded_image(zso@) == decode_blocks(
                zso@,
                index@,
                blocks as nat,
                header.block_size,
                header.align,
            ),
            decode_blocks(zso@, index@, k as nat, header.block_size, header.align) == Ok::<
                Seq<u8>,
                ZsoError,
            >(out@),
        decreases blocks - k,
    {
        match decode_block(zso, index.as_slice(), k, header.block_size, header.align) {
            Err(e) => {
                proof {
                    lemma_decode_blocks_stops(
                        zso@,
                        index@,
                        (k + 1) as nat,
                        blocks as nat,
                        header.block_size,
                        header.align,
                    );
                }
                return Err(e);
            },
            Ok(block) => {
                append_bytes(&mut out, block.as_slice());
            },
        }
        k += 1;
    }
    proof {
        lemma_decoded_length(zso@, index@, blocks as nat, header.block_size, header.align);
    }
    Ok(out)
}

} // verus!
