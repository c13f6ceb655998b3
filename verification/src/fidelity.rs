//! What decoding makes of the encoder's output.

use crate::align::{lemma_granule_bounds, lemma_padding_aligns, padding_for, MAX_SHIFT};
use crate::block::{decoded_block, recoverable, stored_bytes, trim_limit};
use crate::bytes::lemma_le_u32_roundtrip;
use crate::container::{
    block_count, decode_blocks, decoded_image, effective_align, encode_blocks, encoded_container,
    image_block, index_of, payload_start, whole_blocks,
};
use crate::error::ZsoError;
use crate::header::{header_bytes, lemma_header_roundtrip, Header, BLOCK_SIZE, VERSION};
use crate::index::{
    entry_for, entry_is_plain, entry_offset, entry_units, fits_entry, index_bytes, index_entry,
    lemma_entry_roundtrip, lemma_index_bytes, INDEX_START,
};
use crate::layout::{block_is_plain, block_payload, block_placed, lemma_blocks_placed};
use crate::lz4_block::{attempt, trim_and_retry, Mode};
use vstd::arithmetic::power2::{lemma2_to64, pow2};
use vstd::prelude::*;

verus! {

/// The header that the encoder writes for an image.
pub open spec fn written_header(iso: Seq<u8>, align: Option<u8>) -> Header {
    Header {
        total_bytes: iso.len() as u64,
        block_size: BLOCK_SIZE,
        version: VERSION,
        align: effective_align(iso.len(), align) as u8,
    }
}

/// The index table that the encoder writes for an image: one entry for
/// each block and one for the end of the container.
pub open spec fn written_index(
    iso: Seq<u8>,
    mode: Mode,
    threshold: u64,
    align: Option<u8>,
    pad_byte: u8,
) -> Seq<u32> {
    let shift = effective_align(iso.len(), align) as u8;
    let (data, entries) = encode_blocks(
        iso,
        block_count(iso.len()),
        mode,
        threshold,
        shift,
        pad_byte,
    ).unwrap();
    entries.push(entry_for(data.len(), shift, false))
}

/// Decompressing what the compressor made of block `i` gives the block back.
pub open spec fn block_recoverable(iso: Seq<u8>, i: nat, mode: Mode) -> bool {
    recoverable(image_block(iso, i), mode)
}

/// The compressor loses nothing on the blocks of this image.
pub open spec fn lossless_on(iso: Seq<u8>, mode: Mode) -> bool {
    forall|i: nat| i < block_count(iso.len()) ==> #[trigger] block_recoverable(iso, i, mode)
}

/// No candidate that still ends in filler decompresses: for every
/// compressed block, each prefix of its stored bytes that is longer than
/// the payload is refused by the decompressor.
pub open spec fn padding_rejected(
    container: Seq<u8>,
    iso: Seq<u8>,
    mode: Mode,
    threshold: u64,
    align: u8,
) -> bool {
    let blocks = block_count(iso.len());
    let index = index_of(container, blocks + 1);
    forall|i: int, j: int|
        0 <= i < blocks && !block_is_plain(iso, i as nat, mode, threshold) && block_payload(
            iso,
            i as nat,
            mode,
            threshold,
        ).len() < j <= stored_bytes(container, index, i, BLOCK_SIZE, align).len() ==> (
        #[trigger] attempt(
            stored_bytes(container, index, i, BLOCK_SIZE, align).take(j),
            BLOCK_SIZE as i32,
        )).is_none()
}

/// Whether reading filler behind a payload cannot mislead the decoder:
/// there is no alignment and so no filler, or every candidate that ends
/// in filler is rejected.
pub open spec fn filler_is_harmless(
    container: Seq<u8>,
    iso: Seq<u8>,
    mode: Mode,
    threshold: u64,
    align: Option<u8>,
) -> bool {
    effective_align(iso.len(), align) == 0 || padding_rejected(
        container,
        iso,
        mode,
        threshold,
        effective_align(iso.len(), align) as u8,
    )
}

/// An image that is a multiple of the block size consists of its whole blocks.
pub proof fn lemma_whole_image(iso: Seq<u8>)
    ensures
        iso.len() % (BLOCK_SIZE as nat) == 0 ==> whole_blocks(iso) == iso,
{
    if iso.len() % (BLOCK_SIZE as nat) == 0 {
        let blocks = block_count(iso.len());
        assert(blocks * BLOCK_SIZE == iso.len()) by (nonlinear_arith)
            requires
                blocks == iso.len() / 2048,
                iso.len() % 2048 == 0,
                BLOCK_SIZE == 2048,
        ;
        assert(iso.subrange(0, blocks * BLOCK_SIZE) =~= iso);
    }
}

/// The container has the length of the data under construction, opens
/// with the header, carries the encoder's index, and agrees with the data
/// behind the index.
pub proof fn lemma_container_shape(
    iso: Seq<u8>,
    mode: Mode,
    threshold: u64,
    align: Option<u8>,
    pad_byte: u8,
    container: Seq<u8>,
)
    requires
        encoded_container(iso, mode, threshold, align, pad_byte) == Ok::<Seq<u8>, ZsoError>(
            container,
        ),
    ensures
        ({
            let shift = effective_align(iso.len(), align) as u8;
            let blocks = block_count(iso.len());
            let built = encode_blocks(iso, blocks, mode, threshold, shift, pad_byte);
            &&& effective_align(iso.len(), align) <= MAX_SHIFT
            &&& built.is_ok()
            &&& fits_entry(built.unwrap().0.len(), shift)
            &&& container.len() == built.unwrap().0.len()
            &&& container.len() >= payload_start(blocks)
            &&& container.subrange(0, INDEX_START as int) == header_bytes(
                written_header(iso, align),
            )
            &&& index_of(container, blocks + 1) == written_index(
                iso,
                mode,
                threshold,
                align,
                pad_byte,
            )
            &&& forall|p: int|
                payload_start(blocks) <= p < container.len() ==> #[trigger] container[p]
                    == built.unwrap().0[p]
        }),
{
    let shift = effective_align(iso.len(), align) as u8;
    let blocks = block_count(iso.len());
    let (data, entries) = encode_blocks(iso, blocks, mode, threshold, shift, pad_byte).unwrap();
    let all = written_index(iso, mode, threshold, align, pad_byte);
    let head = header_bytes(written_header(iso, align));
    let table = index_bytes(all);
    lemma_blocks_placed(iso, blocks, mode, threshold, shift, pad_byte);
    lemma_header_roundtrip(written_header(iso, align));
    lemma_index_bytes(all);
    assert(container == head + table + data.subrange(
        payload_start(blocks) as int,
        data.len() as int,
    ));
    assert(container.subrange(0, INDEX_START as int) =~= head);
    assert forall|i: int| 0 <= i < blocks + 1 implies index_entry(container, i as nat)
        == all[i] by {
        assert(container.subrange(INDEX_START + 4 * i, INDEX_START + 4 * i + 4)
            =~= table.subrange(4 * i, 4 * i + 4));
        lemma_le_u32_roundtrip(all[i]);
    }
    assert(index_of(container, blocks + 1) =~= all);
}

/// Trim-and-retry finds the payload: when the first `m` bytes of a
/// candidate decompress, no longer prefix does, and the bound allows for
/// the bytes in between, the outcome is what the payload decompresses to.
pub proof fn lemma_trim_finds_payload(
    buf: Seq<u8>,
    size: i32,
    max_trims: nat,
    m: nat,
    out: Seq<u8>,
)
    requires
        m <= buf.len(),
        buf.len() - m <= max_trims,
        attempt(buf.take(m as int), size) == Some(out),
        forall|j: int| m < j <= buf.len() ==> (#[trigger] attempt(buf.take(j), size)).is_none(),
    ensures
        trim_and_retry(buf, size, max_trims) == Some(out),
    decreases buf.len() - m,
{
    assert(buf.take(buf.len() as int) =~= buf);
    if buf.len() > m {
        let rest = buf.drop_last();
        assert(attempt(buf.take(buf.len() as int), size).is_none());
        assert(rest.take(m as int) =~= buf.take(m as int));
        assert forall|j: int| m < j <= rest.len() implies (#[trigger] attempt(
            rest.take(j),
            size,
        )).is_none() by {
            assert(rest.take(j) =~= buf.take(j));
        }
        lemma_trim_finds_payload(rest, size, (max_trims - 1) as nat, m, out);
    }
}

/// The filler that follows block `i` before the next block; none after the last.
pub open spec fn filler_after(
    entries: Seq<u32>,
    iso: Seq<u8>,
    i: int,
    mode: Mode,
    threshold: u64,
    align: u8,
) -> nat {
    if i + 1 < entries.len() {
        padding_for(
            entry_offset(entries[i], align) + block_payload(iso, i as nat, mode, threshold).len(),
            align as nat,
        )
    } else {
        0
    }
}

/// What the decoder reads for a placed block: for a plain block the
/// block itself, for a compressed one the payload and the filler behind
/// it, which is shorter than the granule.
pub proof fn lemma_stored_bytes(
    container: Seq<u8>,
    data: Seq<u8>,
    entries: Seq<u32>,
    last: u32,
    iso: Seq<u8>,
    i: int,
    mode: Mode,
    threshold: u64,
    align: u8,
    pad_byte: u8,
)
    requires
        0 <= i < block_count(iso.len()),
        entries.len() == block_count(iso.len()),
        container.len() == data.len(),
        forall|p: int|
            payload_start(block_count(iso.len())) <= p < container.len() ==> #[trigger] container[p]
                == data[p],
        block_placed(data, entries, iso, i, mode, threshold, align, pad_byte),
    ensures
        ({
            let stored = stored_bytes(container, entries.push(last), i, BLOCK_SIZE, align);
            let payload = block_payload(iso, i as nat, mode, threshold);
            let offset = entry_offset(entries[i], align);
            let gap = filler_after(entries, iso, i, mode, threshold, align);
            &&& offset + payload.len() <= container.len()
            &&& container.subrange(offset as int, (offset + payload.len()) as int) == payload
            &&& gap < pow2(align as nat)
            &&& if block_is_plain(iso, i as nat, mode, threshold) {
                stored == image_block(iso, i as nat)
            } else {
                &&& stored.len() == payload.len() + gap
                &&& stored.take(payload.len() as int) == payload
            }
        }),
{
    let index = entries.push(last);
    let payload = block_payload(iso, i as nat, mode, threshold);
    let offset = entry_offset(entries[i], align);
    let end = offset + payload.len();
    let gap = filler_after(entries, iso, i, mode, threshold, align);
    lemma_block_len(iso, i as nat);
    lemma_padding_aligns(end, align as nat);
    lemma_granule_bounds(align as nat);
    assert(index[i] == entries[i]);
    let stored = stored_bytes(container, index, i, BLOCK_SIZE, align);
    assert(data.subrange(offset as int, end as int) =~= container.subrange(
        offset as int,
        end as int,
    ));
    if block_is_plain(iso, i as nat, mode, threshold) {
        assert(stored =~= container.subrange(offset as int, end as int));
    } else {
        if i + 1 < entries.len() {
            assert(index[i + 1] == entries[i + 1]);
        }
        assert(stored =~= container.subrange(offset as int, (end + gap) as int));
        assert(stored.take(payload.len() as int) =~= payload);
    }
}

/// A block that the encoder placed is reconstructed by the decoder: a
/// plain block always, a compressed one where the compressor is lossless
/// on it and no candidate that ends in filler decompresses.
pub proof fn lemma_block_round_trip(
    container: Seq<u8>,
    data: Seq<u8>,
    entries: Seq<u32>,
    last: u32,
    iso: Seq<u8>,
    i: int,
    mode: Mode,
    threshold: u64,
    align: u8,
    pad_byte: u8,
)
    requires
        0 <= i < block_count(iso.len()),
        entries.len() == block_count(iso.len()),
        container.len() == data.len(),
        forall|p: int|
            payload_start(block_count(iso.len())) <= p < container.len() ==> #[trigger] container[p]
                == data[p],
        block_placed(data, entries, iso, i, mode, threshold, align, pad_byte),
        block_is_plain(iso, i as nat, mode, threshold) || (block_recoverable(iso, i as nat, mode)
            && forall|j: int|
            block_payload(iso, i as nat, mode, threshold).len() < j <= stored_bytes(
                container,
                entries.push(last),
                i,
                BLOCK_SIZE,
                align,
            ).len() ==> (#[trigger] attempt(
                stored_bytes(container, entries.push(last), i, BLOCK_SIZE, align).take(j),
                BLOCK_SIZE as i32,
            )).is_none()),
    ensures
        decoded_block(container, entries.push(last), i, BLOCK_SIZE, align) == Some(
            image_block(iso, i as nat),
        ),
{
    let index = entries.push(last);
    let payload = block_payload(iso, i as nat, mode, threshold);
    let stored = stored_bytes(container, index, i, BLOCK_SIZE, align);
    lemma_block_len(iso, i as nat);
    lemma_stored_bytes(container, data, entries, last, iso, i, mode, threshold, align, pad_byte);
    assert(index[i] == entries[i]);
    if !block_is_plain(iso, i as nat, mode, threshold) {
        lemma_trim_finds_payload(
            stored,
            BLOCK_SIZE as i32,
            trim_limit(align, stored.len()),
            payload.len(),
            image_block(iso, i as nat),
        );
    }
}

/// A whole block of an image has exactly one block size.
pub proof fn lemma_block_len(iso: Seq<u8>, i: nat)
    requires
        i < block_count(iso.len()),
    ensures
        (i + 1) * BLOCK_SIZE <= iso.len(),
        image_block(iso, i).len() == BLOCK_SIZE,
{
    assert((i + 1) * 2048 <= iso.len()) by (nonlinear_arith)
        requires
            i < iso.len() / 2048,
    ;
}

/// Decoding block by block gives the image block by block.
pub proof fn lemma_decode_prefix(
    container: Seq<u8>,
    index: Seq<u32>,
    iso: Seq<u8>,
    k: nat,
    align: u8,
)
    requires
        k <= block_count(iso.len()),
        forall|i: int|
            0 <= i < k ==> #[trigger] decoded_block(container, index, i, BLOCK_SIZE, align) == Some(
                image_block(iso, i as nat),
            ),
    ensures
        decode_blocks(container, index, k, BLOCK_SIZE, align) == Ok::<Seq<u8>, ZsoError>(
            iso.subrange(0, k * BLOCK_SIZE),
        ),
    decreases k,
{
    if k == 0 {
        assert(iso.subrange(0, 0) =~= Seq::<u8>::empty());
    } else {
        let j = (k - 1) as nat;
        lemma_decode_prefix(container, index, iso, j, align);
        lemma_block_len(iso, j);
        assert(decoded_block(container, index, j as int, BLOCK_SIZE, align) == Some(
            image_block(iso, j),
        ));
        assert(iso.subrange(0, j * BLOCK_SIZE) + image_block(iso, j) =~= iso.subrange(
            0,
            k * BLOCK_SIZE,
        ));
    }
}

/// Decoding an encoded image gives its whole blocks back, byte for byte,
/// where the compressor is lossless on them and no candidate that ends in
/// filler decompresses. For an image that is a multiple of the block size
/// that is the image itself.
pub proof fn lemma_round_trip(
    iso: Seq<u8>,
    mode: Mode,
    threshold: u64,
    align: Option<u8>,
    pad_byte: u8,
    container: Seq<u8>,
)
    requires
        0 < iso.len() <= u64::MAX,
        encoded_container(iso, mode, threshold, align, pad_byte) == Ok::<Seq<u8>, ZsoError>(
            container,
        ),
        lossless_on(iso, mode),
        filler_is_harmless(container, iso, mode, threshold, align),
    ensures
        decoded_image(container) == Ok::<Seq<u8>, ZsoError>(whole_blocks(iso)),
        iso.len() % (BLOCK_SIZE as nat) == 0 ==> decoded_image(container) == Ok::<
            Seq<u8>,
            ZsoError,
        >(iso),
{
    if effective_align(iso.len(), align) == 0 {
        lemma_unaligned_has_no_filler(iso, mode, threshold, align, pad_byte, container);
    }
    lemma_whole_image(iso);
    let shift = effective_align(iso.len(), align) as u8;
    let blocks = block_count(iso.len());
    let (data, entries) = encode_blocks(iso, blocks, mode, threshold, shift, pad_byte).unwrap();
    let last = entry_for(data.len(), shift, false);
    let index = entries.push(last);
    lemma_container_shape(iso, mode, threshold, align, pad_byte, container);
    lemma_blocks_placed(iso, blocks, mode, threshold, shift, pad_byte);
    lemma_header_roundtrip(written_header(iso, align));
    assert(written_header(iso, align).total_blocks() == blocks);
    assert forall|i: int| 0 <= i < blocks implies #[trigger] decoded_block(
        container,
        index,
        i,
        BLOCK_SIZE,
        shift,
    ) == Some(image_block(iso, i as nat)) by {
        assert(block_placed(data, entries, iso, i, mode, threshold, shift, pad_byte));
        assert(block_recoverable(iso, i as nat, mode));
        lemma_block_round_trip(
            container,
            data,
            entries,
            last,
            iso,
            i,
            mode,
            threshold,
            shift,
            pad_byte,
        );
    }
    lemma_decode_prefix(container, index, iso, blocks, shift);
}

/// Without alignment nothing is read behind a payload, so no candidate
/// ends in filler.
pub proof fn lemma_unaligned_has_no_filler(
    iso: Seq<u8>,
    mode: Mode,
    threshold: u64,
    align: Option<u8>,
    pad_byte: u8,
    container: Seq<u8>,
)
    requires
        encoded_container(iso, mode, threshold, align, pad_byte) == Ok::<Seq<u8>, ZsoError>(
            container,
        ),
        effective_align(iso.len(), align) == 0,
    ensures
        padding_rejected(container, iso, mode, threshold, 0),
{
    let blocks = block_count(iso.len());
    let (data, entries) = encode_blocks(iso, blocks, mode, threshold, 0, pad_byte).unwrap();
    let last = entry_for(data.len(), 0, false);
    let index = entries.push(last);
    lemma_container_shape(iso, mode, threshold, align, pad_byte, container);
    lemma_blocks_placed(iso, blocks, mode, threshold, 0, pad_byte);
    lemma2_to64();
    assert forall|i: int, j: int|
        0 <= i < blocks && !block_is_plain(iso, i as nat, mode, threshold) && block_payload(
            iso,
            i as nat,
            mode,
            threshold,
        ).len() < j <= stored_bytes(container, index, i, BLOCK_SIZE, 0).len() implies (
    #[trigger] attempt(
        stored_bytes(container, index, i, BLOCK_SIZE, 0).take(j),
        BLOCK_SIZE as i32,
    )).is_none() by {
        assert(block_placed(data, entries, iso, i, mode, threshold, 0, pad_byte));
        lemma_stored_bytes(container, data, entries, last, iso, i, mode, threshold, 0, pad_byte);
    }
}

/// Index entries never decrease: the offset of each entry, flag and shift
/// set aside, is at most that of the next one.
pub proof fn lemma_index_monotone(
    iso: Seq<u8>,
    mode: Mode,
    threshold: u64,
    align: Option<u8>,
    pad_byte: u8,
    container: Seq<u8>,
)
    requires
        encoded_container(iso, mode, threshold, align, pad_byte) == Ok::<Seq<u8>, ZsoError>(
            container,
        ),
    ensures
        forall|i: int|
            0 <= i < block_count(iso.len()) ==> entry_units(
                #[trigger] index_of(container, block_count(iso.len()) + 1)[i],
            ) <= entry_units(index_of(container, block_count(iso.len()) + 1)[i + 1]),
{
    let shift = effective_align(iso.len(), align) as u8;
    let blocks = block_count(iso.len());
    let (data, entries) = encode_blocks(iso, blocks, mode, threshold, shift, pad_byte).unwrap();
    let last = entry_for(data.len(), shift, false);
    let index = entries.push(last);
    lemma_container_shape(iso, mode, threshold, align, pad_byte, container);
    lemma_blocks_placed(iso, blocks, mode, threshold, shift, pad_byte);
    lemma_granule_bounds(shift as nat);
    lemma_entry_roundtrip(data.len(), shift, false);
    let g = pow2(shift as nat) as int;
    assert forall|i: int| 0 <= i < blocks implies entry_units(#[trigger] index[i]) <= entry_units(
        index[i + 1],
    ) by {
        assert(block_placed(data, entries, iso, i, mode, threshold, shift, pad_byte));
        assert(index[i] == entries[i]);
        let a = entry_units(index[i]) as int;
        let b = entry_units(index[i + 1]) as int;
        if i + 1 < entries.len() {
            assert(index[i + 1] == entries[i + 1]);
            assert(a <= b) by (nonlinear_arith)
                requires
                    g >= 1,
                    a * g <= b * g,
            ;
        } else {
            let len = data.len() as int;
            assert(a <= len / g) by (nonlinear_arith)
                requires
                    g >= 1,
                    a >= 0,
                    a * g <= len,
            {
                assert(len == g * (len / g) + len % g);
                assert(0 <= len % g < g);
                assert(a * g < g * (len / g + 1));
                assert(a < len / g + 1);
            }
        }
    }
}

/// Every stored block begins at an offset divisible by `2^align`, behind
/// the index, and its payload stands there.
pub proof fn lemma_blocks_aligned(
    iso: Seq<u8>,
    mode: Mode,
    threshold: u64,
    align: Option<u8>,
    pad_byte: u8,
    container: Seq<u8>,
    i: int,
)
    requires
        encoded_container(iso, mode, threshold, align, pad_byte) == Ok::<Seq<u8>, ZsoError>(
            container,
        ),
        0 <= i < block_count(iso.len()),
    ensures
        ({
            let shift = effective_align(iso.len(), align) as u8;
            let entry = index_of(container, block_count(iso.len()) + 1)[i];
            let offset = entry_offset(entry, shift);
            let payload = block_payload(iso, i as nat, mode, threshold);
            &&& offset % pow2(shift as nat) == 0
            &&& payload_start(block_count(iso.len())) <= offset
            &&& offset + payload.len() <= container.len()
            &&& container.subrange(offset as int, (offset + payload.len()) as int) == payload
            &&& entry_is_plain(entry) == block_is_plain(iso, i as nat, mode, threshold)
        }),
{
    let shift = effective_align(iso.len(), align) as u8;
    let blocks = block_count(iso.len());
    let (data, entries) = encode_blocks(iso, blocks, mode, threshold, shift, pad_byte).unwrap();
    let last = entry_for(data.len(), shift, false);
    lemma_container_shape(iso, mode, threshold, align, pad_byte, container);
    lemma_blocks_placed(iso, blocks, mode, threshold, shift, pad_byte);
    assert(block_placed(data, entries, iso, i, mode, threshold, shift, pad_byte));
    assert(entries.push(last)[i] == entries[i]);
    lemma_stored_bytes(container, data, entries, last, iso, i, mode, threshold, shift, pad_byte);
}

/// A block that compresses to the threshold percentage or more is stored
/// verbatim under a flagged entry and decodes back unchanged, whatever
/// its bytes are.
pub proof fn lemma_plain_block_fidelity(
    iso: Seq<u8>,
    mode: Mode,
    threshold: u64,
    align: Option<u8>,
    pad_byte: u8,
    container: Seq<u8>,
    i: int,
)
    requires
        encoded_container(iso, mode, threshold, align, pad_byte) == Ok::<Seq<u8>, ZsoError>(
            container,
        ),
        0 <= i < block_count(iso.len()),
        block_is_plain(iso, i as nat, mode, threshold),
    ensures
        ({
            let shift = effective_align(iso.len(), align) as u8;
            let index = index_of(container, block_count(iso.len()) + 1);
            let offset = entry_offset(index[i], shift);
            &&& entry_is_plain(index[i])
            &&& container.subrange(offset as int, offset + BLOCK_SIZE) == image_block(iso, i as nat)
            &&& decoded_block(container, index, i, BLOCK_SIZE, shift) == Some(
                image_block(iso, i as nat),
            )
        }),
{
    let shift = effective_align(iso.len(), align) as u8;
    let blocks = block_count(iso.len());
    let (data, entries) = encode_blocks(iso, blocks, mode, threshold, shift, pad_byte).unwrap();
    let last = entry_for(data.len(), shift, false);
    lemma_container_shape(iso, mode, threshold, align, pad_byte, container);
    lemma_blocks_placed(iso, blocks, mode, threshold, shift, pad_byte);
    lemma_block_len(iso, i as nat);
    assert(block_placed(data, entries, iso, i, mode, threshold, shift, pad_byte));
    assert(entries.push(last)[i] == entries[i]);
    lemma_stored_bytes(container, data, entries, last, iso, i, mode, threshold, shift, pad_byte);
    lemma_block_round_trip(
        container,
        data,
        entries,
        last,
        iso,
        i,
        mode,
        threshold,
        shift,
        pad_byte,
    );
}

} // verus!
