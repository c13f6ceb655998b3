//! Raw LZ4 block compression, and the recovery loop that shortens an
//! over-long candidate until it decompresses.

use lz4::block::{compress, decompress, CompressionMode};
use vstd::prelude::*;

verus! {

/// How hard the compressor works.
#[derive(Clone, Copy, Debug, PartialEq, Eq, PartialOrd, Ord, Structural)]
pub enum Mode {
    /// The compressor's standard setting.
    Default,
    /// Faster, larger output.
    Fast,
    /// Slower, smaller output.
    Slow,
}

/// Largest input that the block routines address: they count bytes in an `i32`.
pub const MAX_INPUT: usize = 0x7fff_ffff;

/// The compressor's level parameter: zero, which selects its built-in default.
pub const COMPRESS_LEVEL: i32 = 0;

/// What `lz4::block::compress` returns for `src` without a size prefix:
/// the compressed bytes, or `None` where it reports an error.
pub uninterp spec fn lz4_compressed(src: Seq<u8>, mode: Mode, level: i32) -> Option<Seq<u8>>;

/// What `lz4::block::decompress` returns for `src` and the expected size
/// `size`: the decompressed bytes, or `None` where it reports an error.
pub uninterp spec fn lz4_decompressed(src: Seq<u8>, size: i32) -> Option<Seq<u8>>;

impl Mode {
    /// The name of the mode in text.
    pub open spec fn spec_name(self) -> Seq<char> {
        match self {
            Mode::Default => "default"@,
            Mode::Fast => "fast"@,
            Mode::Slow => "slow"@,
        }
    }

    /// The name of the mode as it is shown and parsed.
    pub fn name(&self) -> (s: &'static str)
        ensures
            s@ == self.spec_name(),
    {
        match self {
            Mode::Default => "default",
            Mode::Fast => "fast",
            Mode::Slow => "slow",
        }
    }
}

/// `lz4::block::compress` with no size prefix. The result is the named
/// one. The compressor is lossless: its output is at most `i32::MAX` bytes
/// long and decompresses, given the input's length, to the input.
#[verifier::external_body]
pub(crate) fn compress_block(src: &[u8], mode: Mode, level: i32) -> (out: Option<Vec<u8>>)
    ensures
        out.is_some() == lz4_compressed(src@, mode, level).is_some(),
        out matches Some(v) ==> lz4_compressed(src@, mode, level) == Some(v@),
        out matches Some(v) ==> v@.len() <= MAX_INPUT && src@.len() <= MAX_INPUT
            && lz4_decompressed(v@, src@.len() as i32) == Some(src@),
{
    let m = match mode {
        Mode::Default => CompressionMode::DEFAULT,
        Mode::Fast => CompressionMode::FAST(level),
        Mode::Slow => CompressionMode::HIGHCOMPRESSION(level),
    };
    compress(src, Some(m), false).ok()
}

/// `lz4::block::decompress` with an explicit expected size. The result is
/// the named one. The input length must fit the `i32` in which the
/// routine counts it.
#[verifier::external_body]
pub(crate) fn decompress_block(src: &[u8], size: i32) -> (out: Option<Vec<u8>>)
    requires
        src@.len() <= MAX_INPUT,
    ensures
        out.is_some() == lz4_decompressed(src@, size).is_some(),
        out matches Some(v) ==> lz4_decompressed(src@, size) == Some(v@),
{
    decompress(src, Some(size)).ok()
}

/// One decompression attempt on a candidate buffer. A buffer too long for
/// the decompressor to address counts as a failed attempt.
pub open spec fn attempt(buf: Seq<u8>, size: i32) -> Option<Seq<u8>> {
    if buf.len() > MAX_INPUT {
        None
    } else {
        lz4_decompressed(buf, size)
    }
}

/// The outcome of trim-and-retry: the first successful attempt when the
/// candidate loses one trailing byte after each failure, or `None` once
/// `max_trims` bytes are gone or the empty buffer has failed.
pub open spec fn trim_and_retry(buf: Seq<u8>, size: i32, max_trims: nat) -> Option<Seq<u8>>
    decreases max_trims,
{
    match attempt(buf, size) {
        Some(out) => Some(out),
        None => if max_trims == 0 || buf.len() == 0 {
            None
        } else {
            trim_and_retry(buf.drop_last(), size, (max_trims - 1) as nat)
        },
    }
}

/// Whether some attempt among the first `max_trims + 1` candidates gives `out`
/// after `trims` bytes were dropped and every longer candidate failed.
pub open spec fn succeeds_after(
    buf: Seq<u8>,
    size: i32,
    trims: nat,
    out: Seq<u8>,
) -> bool {
    &&& trims <= buf.len()
    &&& attempt(buf.take(buf.len() - trims), size) == Some(out)
    &&& forall|j: nat| j < trims ==> (#[trigger] attempt(buf.take(buf.len() - j), size)).is_none()
}

/// Recovery is bounded: a success comes after at most `max_trims` trims,
/// from the longest candidate that decompresses; a failure means that
/// none of the candidates within the bound decompresses.
pub proof fn lemma_trim_bounded(buf: Seq<u8>, size: i32, max_trims: nat)
    ensures
        match trim_and_retry(buf, size, max_trims) {
            Some(out) => exists|trims: nat|
                trims <= max_trims && #[trigger] succeeds_after(buf, size, trims, out),
            None => forall|j: nat|
                j <= max_trims && j <= buf.len() ==> (#[trigger] attempt(
                    buf.take(buf.len() - j),
                    size,
                )).is_none(),
        },
    decreases max_trims,
{
    assert(buf.take(buf.len() as int) =~= buf);
    match attempt(buf, size) {
        Some(out) => {
            assert(succeeds_after(buf, size, 0, out));
        },
        None => {
            if max_trims == 0 || buf.len() == 0 {
                assert forall|j: nat| j <= max_trims && j <= buf.len() implies (#[trigger] attempt(
                    buf.take(buf.len() - j),
                    size,
                )).is_none() by {
                    assert(j == 0);
                }
            } else {
                let rest = buf.drop_last();
                let m = (max_trims - 1) as nat;
                lemma_trim_bounded(rest, size, m);
                match trim_and_retry(rest, size, m) {
                    Some(out) => {
                        let t = choose|t: nat| t <= m && #[trigger] succeeds_after(rest, size, t, out);
                        assert(rest.take(rest.len() - t) =~= buf.take(buf.len() - (t + 1)));
                        assert forall|j: nat| j < t + 1 implies (#[trigger] attempt(
                            buf.take(buf.len() - j),
                            size,
                        )).is_none() by {
                            if j >= 1 {
                                let k = (j - 1) as nat;
                                assert(attempt(rest.take(rest.len() - k), size).is_none());
                                assert(rest.take(rest.len() - k) =~= buf.take(buf.len() - j));
                            }
                        }
                        assert(succeeds_after(buf, size, t + 1, out));
                    },
                    None => {
                        assert forall|j: nat| j <= max_trims && j <= buf.len() implies (
                        #[trigger] attempt(buf.take(buf.len() - j), size)).is_none() by {
                            if j >= 1 {
                                let k = (j - 1) as nat;
                                assert(attempt(rest.take(rest.len() - k), size).is_none());
                                assert(rest.take(rest.len() - k) =~= buf.take(buf.len() - j));
                            }
                        }
                    },
                }
            }
        },
    }
}

/// Decompresses a candidate that may carry padding after the payload:
/// after each failure the last byte is dropped and the attempt repeated,
/// `max_trims` times at most. `None` means that recovery was exhausted.
pub fn lz4_decompress(compressed: Vec<u8>, block_size: i32, max_trims: usize) -> (out: Option<
    Vec<u8>,
>)
    ensures
        out.is_some() == trim_and_retry(compressed@, block_size, max_trims as nat).is_some(),
        out matches Some(v) ==> trim_and_retry(compressed@, block_size, max_trims as nat) == Some(
            v@,
        ),
{
    let ghost whole = compressed@;
    let mut buf = compressed;
    let mut left: usize = max_trims;
    loop
        invariant
            whole == compressed@,
            trim_and_retry(buf@, block_size, left as nat) == trim_and_retry(
                whole,
                block_size,
                max_trims as nat,
            ),
        decreases left,
    {
        let tried = if buf.len() > MAX_INPUT {
            None
        } else {
            decompress_block(buf.as_slice(), block_size)
        };
        match tried {
            Some(v) => {
                return Some(v);
            },
            None => {
                if left == 0 || buf.len() == 0 {
                    return None;
                }
                buf.pop();
                left -= 1;
            },
        }
    }
}

} // verus!
