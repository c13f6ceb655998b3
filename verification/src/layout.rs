//! Where the encoder puts each block, and what its index says about it.

use crate::align::{lemma_padding_aligns, padding_for};
use crate::block::{padded, stored_payload, stores_plain};
use crate::container::{block_count, encode_blocks, image_block, payload_start};
use crate::index::{entry_for, entry_is_plain, entry_offset, lemma_entry_roundtrip};
use crate::lz4_block::{lz4_compressed, Mode, COMPRESS_LEVEL};
use vstd::arithmetic::power2::pow2;
use vstd::prelude::*;

verus! {

/// What the compressor makes of block `i` of an image.
pub open spec fn compressed_block(iso: Seq<u8>, i: nat, mode: Mode) -> Option<Seq<u8>> {
    lz4_compressed(image_block(iso, i), mode, COMPRESS_LEVEL)
}

/// Whether block `i` is stored uncompressed.
pub open spec fn block_is_plain(iso: Seq<u8>, i: nat, mode: Mode, threshold: u64) -> bool {
    stores_plain(
        compressed_block(iso, i, mode).unwrap().len(),
        image_block(iso, i).len(),
        threshold as nat,
    )
}

/// The bytes stored for block `i`.
pub open spec fn block_payload(iso: Seq<u8>, i: nat, mode: Mode, threshold: u64) -> Seq<u8> {
    stored_payload(image_block(iso, i), compressed_block(iso, i, mode).unwrap(), threshold as nat)
}

/// Block `i` lies in `data` as its entry says: the entry carries the
/// plain flag of the block, its offset is a multiple of `2^align` behind
/// the index, the payload stands at that offset, and what follows up to
/// the next block's offset is the filler that aligns it. After the last
/// placed block the data ends.
pub open spec fn block_placed(
    data: Seq<u8>,
    entries: Seq<u32>,
    iso: Seq<u8>,
    i: int,
    mode: Mode,
    threshold: u64,
    align: u8,
    pad_byte: u8,
) -> bool {
    let offset = entry_offset(entries[i], align);
    let payload = block_payload(iso, i as nat, mode, threshold);
    let end = offset + payload.len();
    &&& compressed_block(iso, i as nat, mode).is_some()
    &&& entry_is_plain(entries[i]) == block_is_plain(iso, i as nat, mode, threshold)
    &&& offset % pow2(align as nat) == 0
    &&& payload_start(block_count(iso.len())) <= offset
    &&& end <= data.len()
    &&& data.subrange(offset as int, end as int) == payload
    &&& if i + 1 < entries.len() {
        let next = entry_offset(entries[i + 1], align);
        &&& next == end + padding_for(end, align as nat)
        &&& next <= data.len()
        &&& data.subrange(end as int, next as int) == Seq::new(
            padding_for(end, align as nat),
            |j: int| pad_byte,
        )
    } else {
        data.len() == end
    }
}

/// Every block that the encoder has placed lies where its entry says, on
/// an aligned offset, followed only by the filler before the next block.
pub proof fn lemma_blocks_placed(
    iso: Seq<u8>,
    k: nat,
    mode: Mode,
    threshold: u64,
    align: u8,
    pad_byte: u8,
)
    requires
        encode_blocks(iso, k, mode, threshold, align, pad_byte).is_ok(),
    ensures
        ({
            let (data, entries) = encode_blocks(iso, k, mode, threshold, align, pad_byte).unwrap();
            &&& entries.len() == k
            &&& data.len() >= payload_start(block_count(iso.len()))
            &&& k == 0 ==> data.len() == payload_start(block_count(iso.len()))
            &&& forall|i: int|
                0 <= i < k ==> #[trigger] block_placed(
                    data,
                    entries,
                    iso,
                    i,
                    mode,
                    threshold,
                    align,
                    pad_byte,
                )
        }),
    decreases k,
{
    if k > 0 {
        let last = (k - 1) as nat;
        lemma_blocks_placed(iso, last, mode, threshold, align, pad_byte);
        let (d0, e0) = encode_blocks(iso, last, mode, threshold, align, pad_byte).unwrap();
        let (data, entries) = encode_blocks(iso, k, mode, threshold, align, pad_byte).unwrap();
        let block = image_block(iso, last);
        let compressed = lz4_compressed(block, mode, COMPRESS_LEVEL).unwrap();
        let start = padded(d0, align, pad_byte);
        let payload = stored_payload(block, compressed, threshold as nat);
        let plain = stores_plain(compressed.len(), block.len(), threshold as nat);
        let entry = entry_for(start.len(), align, plain);
        assert(data == start + payload);
        assert(entries == e0.push(entry));
        lemma_padding_aligns(d0.len(), align as nat);
        lemma_entry_roundtrip(start.len(), align, plain);
        assert(entry_offset(entry, align) == start.len());
        assert forall|i: int| 0 <= i < k implies #[trigger] block_placed(
            data,
            entries,
            iso,
            i,
            mode,
            threshold,
            align,
            pad_byte,
        ) by {
            if i < last {
                assert(block_placed(d0, e0, iso, i, mode, threshold, align, pad_byte));
                let offset = entry_offset(e0[i], align);
                let p = block_payload(iso, i as nat, mode, threshold);
                let end = offset + p.len();
                assert(entries[i] == e0[i]);
                assert(data.subrange(offset as int, end as int) =~= d0.subrange(
                    offset as int,
                    end as int,
                ));
                if i + 1 < last {
                    let next = entry_offset(e0[i + 1], align);
                    assert(entries[i + 1] == e0[i + 1]);
                    assert(data.subrange(end as int, next as int) =~= d0.subrange(
                        end as int,
                        next as int,
                    ));
                } else {
                    assert(entries[i + 1] == entry);
                    assert(d0.len() == end);
                    assert(data.subrange(end as int, start.len() as int) =~= Seq::new(
                        padding_for(end, align as nat),
                        |j: int| pad_byte,
                    ));
                }
            } else {
                assert(entries[i] == entry);
                assert(data.subrange(start.len() as int, data.len() as int) =~= payload);
            }
        }
    }
}

} // verus!
