//! Index entries: the offset of a block in units of `2^align` bytes in the
//! low 31 bits, and the plain flag in the high bit.

use crate::align::{granule, lemma_granule_bounds, MAX_SHIFT};
use crate::bytes::{append_bytes, le_bytes_u32, le_u32, read_u32_le, u32_le_bytes};
use vstd::arithmetic::power2::pow2;
use vstd::prelude::*;
use vstd::slice::slice_subrange;

verus! {

/// The high bit of an entry, set for a block that is stored uncompressed.
pub const PLAIN_FLAG: u32 = 0x8000_0000;

/// Where the index starts in a container: right after the header.
pub const INDEX_START: usize = 24;

/// The low 31 bits of an entry: the offset in units of `2^align` bytes.
pub open spec fn entry_units(entry: u32) -> nat {
    (entry as nat) % (PLAIN_FLAG as nat)
}

/// Whether the entry marks its block as stored uncompressed.
pub open spec fn entry_is_plain(entry: u32) -> bool {
    entry >= PLAIN_FLAG
}

/// The byte offset that an entry stands for.
pub open spec fn entry_offset(entry: u32, align: u8) -> nat {
    entry_units(entry) * pow2(align as nat)
}

/// Whether a byte position can be stored in an entry under this shift.
pub open spec fn fits_entry(pos: nat, align: u8) -> bool {
    pos / pow2(align as nat) < PLAIN_FLAG
}

/// The entry for a block at byte position `pos`.
pub open spec fn entry_for(pos: nat, align: u8, plain: bool) -> u32
    recommends
        fits_entry(pos, align),
{
    if plain {
        (pos / pow2(align as nat) + PLAIN_FLAG) as u32
    } else {
        (pos / pow2(align as nat)) as u32
    }
}

/// The `i`-th index entry of a container.
pub open spec fn index_entry(container: Seq<u8>, i: nat) -> u32
    recommends
        INDEX_START + 4 * (i + 1) <= container.len(),
{
    le_u32(container.subrange(INDEX_START + 4 * i, INDEX_START + 4 * i + 4))
}

/// The bytes of an index table: each entry as four little-endian bytes.
pub open spec fn index_bytes(entries: Seq<u32>) -> Seq<u8>
    decreases entries.len(),
{
    if entries.len() == 0 {
        Seq::<u8>::empty()
    } else {
        index_bytes(entries.drop_last()) + le_bytes_u32(entries.last())
    }
}

/// The masks of the format are the arithmetic used here: the low 31 bits
/// are the remainder by `2^31`, and the high bit is set from `2^31` up.
pub proof fn lemma_entry_masks(entry: u32)
    ensures
        entry_units(entry) == (entry & 0x7fff_ffff),
        entry_is_plain(entry) == ((entry & 0x8000_0000) != 0),
{
    assert(entry % 0x8000_0000 == (entry & 0x7fff_ffff)) by (bit_vector);
    assert((entry >= 0x8000_0000) == ((entry & 0x8000_0000) != 0)) by (bit_vector);
}

/// An entry gives back the flag it was made with and, for an aligned
/// position, the position itself.
pub proof fn lemma_entry_roundtrip(pos: nat, align: u8, plain: bool)
    requires
        fits_entry(pos, align),
    ensures
        entry_is_plain(entry_for(pos, align, plain)) == plain,
        entry_units(entry_for(pos, align, plain)) == pos / pow2(align as nat),
        entry_offset(entry_for(pos, align, plain), align) <= pos,
        pos < entry_offset(entry_for(pos, align, plain), align) + pow2(align as nat),
        pos % pow2(align as nat) == 0 ==> entry_offset(entry_for(pos, align, plain), align) == pos,
{
    lemma_granule_bounds(align as nat);
    let g = pow2(align as nat) as int;
    let p = pos as int;
    let q = p / g;
    assert(0 <= q && q * g <= p < q * g + g && (p % g == 0 ==> q * g == p)) by (nonlinear_arith)
        requires
            g >= 1,
            p >= 0,
            q == p / g,
    {
        assert(p == g * (p / g) + p % g);
        assert(0 <= p % g < g);
    }
}

/// The length of an index table in bytes, and where each entry lies in it.
pub proof fn lemma_index_bytes(entries: Seq<u32>)
    ensures
        index_bytes(entries).len() == 4 * entries.len(),
        forall|i: int|
            0 <= i < entries.len() ==> #[trigger] index_bytes(entries).subrange(4 * i, 4 * i + 4)
                == le_bytes_u32(entries[i]),
    decreases entries.len(),
{
    if entries.len() > 0 {
        let head = entries.drop_last();
        lemma_index_bytes(head);
        assert forall|i: int| 0 <= i < entries.len() implies #[trigger] index_bytes(
            entries,
        ).subrange(4 * i, 4 * i + 4) == le_bytes_u32(entries[i]) by {
            if i < head.len() {
                assert(index_bytes(entries).subrange(4 * i, 4 * i + 4) =~= index_bytes(
                    head,
                ).subrange(4 * i, 4 * i + 4));
                assert(head[i] == entries[i]);
            } else {
                assert(index_bytes(entries).subrange(4 * i, 4 * i + 4) =~= le_bytes_u32(
                    entries.last(),
                ));
            }
        }
    }
}

/// Whether the entry marks its block as stored uncompressed.
pub fn is_plain(entry: u32) -> (plain: bool)
    ensures
        plain == entry_is_plain(entry),
{
    entry >= PLAIN_FLAG
}

/// The byte offset of an entry, or `None` where it does not fit in 64 bits
/// and so lies beyond any container.
pub fn offset_of(entry: u32, align: u8) -> (offset: Option<u64>)
    ensures
        match offset {
            Some(v) => v == entry_offset(entry, align),
            None => entry_offset(entry, align) > u64::MAX,
        },
{
    let units: u64 = (entry % PLAIN_FLAG) as u64;
    proof {
        lemma_granule_bounds(align as nat);
    }
    if units == 0 {
        assert(entry_offset(entry, align) == 0) by (nonlinear_arith)
            requires
                entry_units(entry) == 0,
                entry_offset(entry, align) == entry_units(entry) * pow2(align as nat),
        ;
        Some(0)
    } else if align > MAX_SHIFT {
        assert(entry_offset(entry, align) > u64::MAX) by (nonlinear_arith)
            requires
                entry_units(entry) >= 1,
                pow2(align as nat) >= 0x1_0000_0000_0000_0000,
                entry_offset(entry, align) == entry_units(entry) * pow2(align as nat),
        ;
        None
    } else {
        let g = granule(align);
        if units > u64::MAX / g {
            assert(units * g > u64::MAX) by (nonlinear_arith)
                requires
                    g >= 1,
                    units > u64::MAX / g,
            ;
            None
        } else {
            assert(units * g <= u64::MAX) by (nonlinear_arith)
                requires
                    g >= 1,
                    units <= u64::MAX / g,
            ;
            Some(units * g)
        }
    }
}

/// Builds the entry for a block at byte position `pos`, or `None` where
/// the shifted position needs more than 31 bits.
pub fn make_entry(pos: u64, align: u8, plain: bool) -> (entry: Option<u32>)
    requires
        align <= MAX_SHIFT,
    ensures
        entry.is_some() == fits_entry(pos as nat, align),
        entry matches Some(e) ==> e == entry_for(pos as nat, align, plain),
{
    let g = granule(align);
    let units = pos / g;
    if units >= PLAIN_FLAG as u64 {
        None
    } else if plain {
        Some(units as u32 + PLAIN_FLAG)
    } else {
        Some(units as u32)
    }
}

/// Reads the first `count` index entries of a container.
pub fn read_index(container: &[u8], count: usize) -> (entries: Vec<u32>)
    requires
        INDEX_START + 4 * count <= container@.len(),
    ensures
        entries@.len() == count,
        forall|i: int| 0 <= i < count ==> entries@[i] == index_entry(container@, i as nat),
{
    let mut entries: Vec<u32> = Vec::new();
    let len: usize = container.len();
    let mut i: usize = 0;
    while i < count
        invariant
            i <= count,
            len == container@.len(),
            INDEX_START + 4 * count <= len,
            entries@.len() == i,
            forall|j: int| 0 <= j < i ==> entries@[j] == index_entry(container@, j as nat),
        decreases count - i,
    {
        let at: usize = INDEX_START + 4 * i;
        let e = read_u32_le(slice_subrange(container, at, at + 4));
        entries.push(e);
        i += 1;
    }
    entries
}

/// Encodes an index table as bytes.
pub fn write_index(entries: &[u32]) -> (out: Vec<u8>)
    ensures
        out@ == index_bytes(entries@),
{
    let mut out: Vec<u8> = Vec::new();
    let mut i: usize = 0;
    while i < entries.len()
        invariant
            i <= entries@.len(),
            out@ == index_bytes(entries@.subrange(0, i as int)),
        decreases entries@.len() - i,
    {
        let b = u32_le_bytes(entries[i]);
        append_bytes(&mut out, b.as_slice());
        i += 1;
        proof {
            let cur = entries@.subrange(0, i as int);
            assert(cur.drop_last() =~= entries@.subrange(0, i - 1));
            assert(cur.last() == entries@[i - 1]);
        }
    }
    assert(entries@.subrange(0, i as int) =~= entries@);
    out
}

} // verus!
