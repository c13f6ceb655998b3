//! Padding granularity: stored offsets are multiples of `2^align`, so that
//! an offset shifted right by `align` fits in the 31 low bits of an index
//! entry.

use vstd::arithmetic::div_mod::{
    lemma_fundamental_div_mod, lemma_mod_bound, lemma_mod_multiples_basic, lemma_mod_self_0,
    lemma_small_mod,
};
use vstd::arithmetic::power2::{lemma2_to64, lemma2_to64_rest, lemma_pow2_unfold, pow2};
use vstd::prelude::*;

verus! {

/// Largest alignment shift whose granule `2^align` fits in 64 bits.
pub const MAX_SHIFT: u8 = 63;

/// One step of the default alignment: 2 GiB.
pub const ALIGN_STEP: u64 = 0x8000_0000;

/// Bytes to add at `pos` to reach the next multiple of `2^align`.
pub open spec fn padding_for(pos: nat, align: nat) -> nat {
    let g = pow2(align);
    ((g - pos % g) % (g as int)) as nat
}

/// The default alignment shift for an image of `total_bytes` bytes: one
/// step for every full 2 GiB.
pub open spec fn default_align(total_bytes: nat) -> nat {
    total_bytes / (ALIGN_STEP as nat)
}

/// `2^align` is positive and, for shifts up to 63, fits in 64 bits.
pub proof fn lemma_granule_bounds(align: nat)
    ensures
        pow2(align) >= 1,
        align <= 63 ==> pow2(align) <= 0x8000_0000_0000_0000,
        align >= 64 ==> pow2(align) >= 0x1_0000_0000_0000_0000,
    decreases align,
{
    lemma2_to64();
    lemma2_to64_rest();
    if align == 0 {
    } else {
        lemma_granule_bounds((align - 1) as nat);
        lemma_pow2_unfold(align);
    }
}

/// The padding is the one length below `2^align` that aligns `pos`.
pub proof fn lemma_padding_aligns(pos: nat, align: nat)
    ensures
        padding_for(pos, align) < pow2(align),
        (pos + padding_for(pos, align)) % pow2(align) == 0,
        pos % pow2(align) == 0 ==> padding_for(pos, align) == 0,
{
    lemma_granule_bounds(align);
    let g = pow2(align) as int;
    let p = pos as int;
    let r = p % g;
    lemma_fundamental_div_mod(p, g);
    lemma_mod_bound(p, g);
    if r == 0 {
        lemma_mod_self_0(g);
    } else {
        lemma_small_mod((g - r) as nat, g as nat);
        assert(p + (g - r) == (p / g + 1) * g) by (nonlinear_arith)
            requires
                p == g * (p / g) + r,
        ;
        lemma_mod_multiples_basic(p / g + 1, g);
    }
}

/// The padding granule `2^align` in bytes.
pub fn granule(align: u8) -> (g: u64)
    requires
        align <= MAX_SHIFT,
    ensures
        g == pow2(align as nat),
        g >= 1,
{
    let mut g: u64 = 1;
    let mut i: u8 = 0;
    proof {
        lemma2_to64();
    }
    while i < align
        invariant
            i <= align <= 63,
            g == pow2(i as nat),
            g >= 1,
        decreases align - i,
    {
        proof {
            lemma_granule_bounds((i + 1) as nat);
            lemma_pow2_unfold((i + 1) as nat);
        }
        g = g * 2;
        i += 1;
    }
    g
}

/// Picks the default alignment shift for an image of `total_bytes` bytes.
pub fn choose_align(total_bytes: u64) -> (align: u64)
    ensures
        align == default_align(total_bytes as nat),
{
    total_bytes / ALIGN_STEP
}

/// Number of filler bytes to write at `current_pos` so that the next block
/// starts on a multiple of `2^align`.
pub fn pad_to_alignment(current_pos: u64, align: u8) -> (pad: u64)
    requires
        align <= MAX_SHIFT,
    ensures
        pad == padding_for(current_pos as nat, align as nat),
        pad < pow2(align as nat),
        (current_pos + pad) % (pow2(align as nat) as int) == 0,
{
    let g = granule(align);
    proof {
        lemma_padding_aligns(current_pos as nat, align as nat);
    }
    let r = current_pos % g;
    if r == 0 {
        0
    } else {
        assert((g - r) % (g as int) == g - r) by (nonlinear_arith)
            requires
                0 < r < g,
        ;
        g - r
    }
}

} // verus!
