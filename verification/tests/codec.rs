use ziso::align::{choose_align, granule, pad_to_alignment};
use ziso::block::{decode_block, encode_block, max_trims, read_stored, select_stored, write_padding};
use ziso::bytes::append_bytes;
use ziso::container::{compress_zso, decompress_zso};
use ziso::error::ZsoError;
use ziso::header::{decode_header, encode_header, FormatError, Header};
use ziso::index::{is_plain, make_entry, offset_of, read_index, write_index};
use ziso::lz4_block::{lz4_decompress, Mode};

fn noise(len: usize, seed: u64) -> Vec<u8> {
    let mut state = seed;
    let mut out = Vec::with_capacity(len);
    for _ in 0..len {
        state ^= state << 13;
        state ^= state >> 7;
        state ^= state << 17;
        out.push((state >> 24) as u8);
    }
    out
}

fn text(len: usize) -> Vec<u8> {
    let phrase = b"sector data that repeats and so compresses well; ";
    (0..len).map(|i| phrase[i % phrase.len()]).collect()
}

fn entry_at(container: &[u8], i: usize) -> u32 {
    let at = 24 + 4 * i;
    u32::from_le_bytes([container[at], container[at + 1], container[at + 2], container[at + 3]])
}

#[test]
fn header_layout_is_little_endian() {
    let bytes = encode_header(0x0102_0304_0506_0708, 2048, 1, 3);
    assert_eq!(
        bytes,
        vec![
            0x5A, 0x49, 0x53, 0x4F, 0x18, 0, 0, 0, 0x08, 0x07, 0x06, 0x05, 0x04, 0x03, 0x02, 0x01,
            0x00, 0x08, 0, 0, 1, 3, 0, 0
        ]
    );
}

#[test]
fn header_round_trip() {
    let bytes = encode_header(8192, 2048, 1, 0);
    assert_eq!(
        decode_header(&bytes),
        Ok(Header { total_bytes: 8192, block_size: 2048, version: 1, align: 0 })
    );
    let older = encode_header(4096, 2048, 0, 2);
    assert_eq!(
        decode_header(&older),
        Ok(Header { total_bytes: 4096, block_size: 2048, version: 0, align: 2 })
    );
}

#[test]
fn header_bad_magic() {
    let mut bytes = encode_header(8192, 2048, 1, 0);
    bytes[0] = b'C';
    assert_eq!(decode_header(&bytes), Err(FormatError::BadMagic));
}

#[test]
fn header_bad_size() {
    let mut bytes = encode_header(8192, 2048, 1, 0);
    bytes[4] = 0x20;
    assert_eq!(decode_header(&bytes), Err(FormatError::BadHeaderSize));
}

#[test]
fn header_unsupported_version() {
    let bytes = encode_header(8192, 2048, 2, 0);
    assert_eq!(decode_header(&bytes), Err(FormatError::UnsupportedVersion));
}

#[test]
fn header_zero_sizes() {
    assert_eq!(decode_header(&encode_header(0, 2048, 1, 0)), Err(FormatError::ZeroSize));
    assert_eq!(decode_header(&encode_header(8192, 0, 1, 0)), Err(FormatError::ZeroSize));
}

#[test]
fn header_checks_in_order() {
    let mut bytes = encode_header(0, 0, 5, 0);
    assert_eq!(decode_header(&bytes), Err(FormatError::UnsupportedVersion));
    bytes[4] = 0;
    assert_eq!(decode_header(&bytes), Err(FormatError::BadHeaderSize));
    bytes[1] = 0;
    assert_eq!(decode_header(&bytes), Err(FormatError::BadMagic));
}

#[test]
fn default_align_steps_every_two_gib() {
    assert_eq!(choose_align(0), 0);
    assert_eq!(choose_align((1 << 31) - 1), 0);
    assert_eq!(choose_align(1 << 31), 1);
    assert_eq!(choose_align((1 << 31) + 1), 1);
    assert_eq!(choose_align(5 * (1 << 31) + 17), 5);
}

#[test]
fn padding_reaches_next_boundary() {
    assert_eq!(pad_to_alignment(0, 0), 0);
    assert_eq!(pad_to_alignment(12345, 0), 0);
    assert_eq!(pad_to_alignment(44, 3), 4);
    assert_eq!(pad_to_alignment(48, 3), 0);
    assert_eq!(pad_to_alignment(49, 3), 7);
    assert_eq!(pad_to_alignment(1, 63), (1u64 << 63) - 1);
    assert_eq!(granule(0), 1);
    assert_eq!(granule(5), 32);
    assert_eq!(granule(63), 1u64 << 63);
}

#[test]
fn entries_carry_offset_and_flag() {
    assert_eq!(make_entry(44, 0, false), Some(44));
    assert_eq!(make_entry(44, 0, true), Some(0x8000_002C));
    assert_eq!(make_entry(48, 3, true), Some(0x8000_0006));
    assert_eq!(make_entry(51, 3, false), Some(6));
    assert!(is_plain(0x8000_0006));
    assert!(!is_plain(0x7fff_ffff));
    assert_eq!(offset_of(0x8000_0006, 3), Some(48));
    assert_eq!(offset_of(0x7fff_ffff, 0), Some(0x7fff_ffff));
    assert_eq!(offset_of(0x7fff_ffff, 1), Some(0xffff_fffe));
    assert_eq!(offset_of(0, 200), Some(0));
    assert_eq!(offset_of(1, 63), Some(1u64 << 63));
    assert_eq!(offset_of(2, 63), None);
    assert_eq!(offset_of(1, 64), None);
}

#[test]
fn entry_overflow_is_detected() {
    assert_eq!(make_entry(0x7fff_ffff, 0, true), Some(0xffff_ffff));
    assert_eq!(make_entry(0x8000_0000, 0, false), None);
    assert_eq!(make_entry(0x8000_0000, 0, true), None);
    assert_eq!(make_entry(0x8000_0000, 1, false), Some(0x4000_0000));
    assert_eq!(make_entry(u64::MAX, 32, false), None);
    assert_eq!(make_entry(u64::MAX, 33, false), Some(0x7fff_ffff));
}

#[test]
fn index_bytes_round_trip() {
    let entries = vec![44u32, 0x8000_0100, 0x0102_0304];
    let bytes = write_index(&entries);
    assert_eq!(bytes, vec![44, 0, 0, 0, 0, 1, 0, 0x80, 4, 3, 2, 1]);
    let mut container = vec![0u8; 24];
    append_bytes(&mut container, &bytes);
    assert_eq!(read_index(&container, 3), entries);
    assert_eq!(read_index(&container, 2), vec![44u32, 0x8000_0100]);
}

#[test]
fn mode_names() {
    assert_eq!(Mode::Default.name(), "default");
    assert_eq!(Mode::Fast.name(), "fast");
    assert_eq!(Mode::Slow.name(), "slow");
}

#[test]
fn zero_blocks_compress_and_round_trip() {
    let iso = vec![0u8; 8192];
    let zso = compress_zso(&iso, Mode::Default, 100, Some(0), b'X').unwrap();
    assert_eq!(
        decode_header(&zso[..24]),
        Ok(Header { total_bytes: 8192, block_size: 2048, version: 1, align: 0 })
    );
    assert!(zso.len() < 1024);
    assert_eq!(entry_at(&zso, 0), 44);
    for i in 0..5 {
        assert!(entry_at(&zso, i) < 0x8000_0000);
    }
    for i in 0..4 {
        assert!(entry_at(&zso, i) < entry_at(&zso, i + 1));
    }
    assert_eq!(entry_at(&zso, 4) as usize, zso.len());
    assert_eq!(decompress_zso(&zso), Ok(iso));
}

#[test]
fn random_block_is_stored_plain() {
    let iso = noise(2048, 0x1234_5678_9abc_def1);
    let zso = compress_zso(&iso, Mode::Default, 100, None, b'X').unwrap();
    assert_eq!(zso.len(), 24 + 8 + 2048);
    assert_eq!(entry_at(&zso, 0), 0x8000_0000 | 32);
    assert_eq!(entry_at(&zso, 1), 32 + 2048);
    assert_eq!(&zso[32..], &iso[..]);
    assert_eq!(decompress_zso(&zso), Ok(iso));
}

#[test]
fn aligned_container_round_trips() {
    let mut iso = text(2048 * 3);
    iso.extend_from_slice(&noise(2048 * 2, 99));
    iso.extend_from_slice(&vec![7u8; 2048 * 2]);
    for align in 1u8..=5 {
        let zso = compress_zso(&iso, Mode::Default, 100, Some(align), b'X').unwrap();
        assert_eq!(zso[21], align);
        let unit = 1usize << align;
        let mut previous = 0usize;
        for i in 0..7 {
            let entry = entry_at(&zso, i);
            let offset = ((entry & 0x7fff_ffff) as usize) << align;
            assert_eq!(offset % unit, 0);
            assert!(offset >= previous);
            assert!(offset >= 24 + 4 * 8);
            previous = offset;
        }
        assert_eq!(entry_at(&zso, 7) as usize, zso.len() >> align);
        assert_eq!(decompress_zso(&zso), Ok(iso.clone()));
    }
}

#[test]
fn padding_uses_the_filler_byte() {
    let iso = vec![0u8; 4096];
    let zso = compress_zso(&iso, Mode::Default, 100, Some(4), 0xEE).unwrap();
    let offset = (entry_at(&zso, 0) as usize) << 4;
    assert_eq!(offset, 48);
    assert_eq!(&zso[36..48], &[0xEE; 12][..]);
    assert_eq!(decompress_zso(&zso), Ok(iso));
}

#[test]
fn every_mode_round_trips() {
    let mut iso = text(2048 * 4);
    iso.extend_from_slice(&noise(2048, 5));
    for mode in [Mode::Default, Mode::Fast, Mode::Slow] {
        let zso = compress_zso(&iso, mode, 100, None, b'X').unwrap();
        assert!(zso.len() < iso.len());
        assert_eq!(decompress_zso(&zso), Ok(iso.clone()));
    }
}

#[test]
fn low_threshold_stores_everything_plain() {
    let iso = vec![0u8; 4096];
    let zso = compress_zso(&iso, Mode::Default, 0, None, b'X').unwrap();
    assert_eq!(zso.len(), 24 + 12 + 4096);
    assert_eq!(entry_at(&zso, 0), 0x8000_0000 | 36);
    assert_eq!(entry_at(&zso, 1), 0x8000_0000 | (36 + 2048));
    assert_eq!(entry_at(&zso, 2), 36 + 4096);
    assert_eq!(decompress_zso(&zso), Ok(iso));
}

#[test]
fn threshold_compares_whole_percent() {
    let block = vec![1u8; 2048];
    let kept = select_stored(&block, vec![9u8; 1023], 50);
    assert!(!kept.plain);
    assert_eq!(kept.payload, vec![9u8; 1023]);
    let dropped = select_stored(&block, vec![9u8; 1024], 50);
    assert!(dropped.plain);
    assert_eq!(dropped.payload, block);
    let larger = select_stored(&block, vec![9u8; 2060], 100);
    assert!(larger.plain);
    let nearly = select_stored(&block, vec![9u8; 2047], 100);
    assert!(!nearly.plain);
}

#[test]
fn trailing_partial_block_is_dropped() {
    let mut iso = text(4096);
    iso.extend_from_slice(&[1, 2, 3, 4, 5]);
    let zso = compress_zso(&iso, Mode::Default, 100, None, b'X').unwrap();
    assert_eq!(decode_header(&zso[..24]).unwrap().total_bytes, 4101);
    assert_eq!(decompress_zso(&zso), Ok(text(4096)));
}

#[test]
fn empty_image_gives_a_container_that_is_refused() {
    let zso = compress_zso(&[], Mode::Default, 100, None, b'X').unwrap();
    assert_eq!(zso.len(), 28);
    assert_eq!(entry_at(&zso, 0), 28);
    assert_eq!(decompress_zso(&zso), Err(ZsoError::Format(FormatError::ZeroSize)));
}

#[test]
fn oversized_shift_is_an_alignment_overflow() {
    let iso = vec![0u8; 2048];
    assert_eq!(compress_zso(&iso, Mode::Default, 100, Some(64), b'X'), Err(ZsoError::AlignmentOverflow));
    assert_eq!(compress_zso(&iso, Mode::Default, 100, Some(255), b'X'), Err(ZsoError::AlignmentOverflow));
}

#[test]
fn short_container_is_unexpected_eof() {
    assert_eq!(decompress_zso(&[]), Err(ZsoError::UnexpectedEof));
    assert_eq!(decompress_zso(&[0x5A; 23]), Err(ZsoError::UnexpectedEof));
    let header = encode_header(4096, 2048, 1, 0);
    assert_eq!(decompress_zso(&header), Err(ZsoError::UnexpectedEof));
    let mut partial = header.clone();
    partial.extend_from_slice(&[0u8; 11]);
    assert_eq!(decompress_zso(&partial), Err(ZsoError::UnexpectedEof));
}

#[test]
fn bad_header_is_a_format_error() {
    let iso = vec![0u8; 2048];
    let mut zso = compress_zso(&iso, Mode::Default, 100, None, b'X').unwrap();
    zso[0] = 0;
    assert_eq!(decompress_zso(&zso), Err(ZsoError::Format(FormatError::BadMagic)));
}

#[test]
fn garbage_payload_is_corruption() {
    let mut zso = encode_header(2048, 2048, 1, 0);
    zso.extend_from_slice(&write_index(&[32, 40]));
    zso.extend_from_slice(&[0xFF; 8]);
    assert_eq!(decompress_zso(&zso), Err(ZsoError::Corruption { block: 0, offset: 32 }));
}

#[test]
fn short_plain_block_is_corruption() {
    let mut zso = encode_header(4096, 2048, 1, 0);
    zso.extend_from_slice(&write_index(&[0x8000_0024, 0x8000_0824, 0x1000]));
    zso.extend_from_slice(&vec![3u8; 2048 + 100]);
    assert_eq!(decompress_zso(&zso), Err(ZsoError::Corruption { block: 1, offset: 0x824 }));
}

#[test]
fn offset_beyond_container_is_corruption() {
    let mut zso = encode_header(2048, 2048, 1, 70);
    zso.extend_from_slice(&write_index(&[1, 2]));
    zso.extend_from_slice(&[0u8; 64]);
    assert_eq!(decompress_zso(&zso), Err(ZsoError::Corruption { block: 0, offset: u64::MAX }));
}

#[test]
fn wrong_decompressed_length_is_corruption() {
    let short = lz4::block::compress(&vec![0u8; 1000], None, false).unwrap();
    let mut zso = encode_header(2048, 2048, 1, 0);
    zso.extend_from_slice(&write_index(&[32, 32 + short.len() as u32]));
    zso.extend_from_slice(&short);
    assert_eq!(decompress_zso(&zso), Err(ZsoError::Corruption { block: 0, offset: 32 }));
}

#[test]
fn trim_loop_strips_three_padding_bytes() {
    let block = text(2048);
    let payload = lz4::block::compress(&block, None, false).unwrap();
    let mut candidate = payload.clone();
    candidate.extend_from_slice(b"XXX");
    assert_eq!(lz4_decompress(candidate.clone(), 2048, 4), Some(block.clone()));
    assert_eq!(lz4_decompress(candidate.clone(), 2048, 3), Some(block.clone()));
    assert_eq!(lz4_decompress(candidate, 2048, 2), None);
    assert_eq!(lz4_decompress(payload, 2048, 0), Some(block));
}

#[test]
fn over_read_last_block_is_recovered() {
    let block = text(2048);
    let payload = lz4::block::compress(&block, None, false).unwrap();
    let mut zso = encode_header(2048, 2048, 1, 2);
    let end = 32 + payload.len() + 3;
    zso.extend_from_slice(&write_index(&[8, (end >> 2) as u32]));
    zso.extend_from_slice(&payload);
    zso.extend_from_slice(b"XXX");
    assert_eq!(decompress_zso(&zso), Ok(block.clone()));
    let index = read_index(&zso, 2);
    assert_eq!(read_stored(&zso, &index, 0, 2048, 2).len(), payload.len() + 3);
    assert_eq!(decode_block(&zso, &index, 0, 2048, 2), Ok(block));
}

#[test]
fn trims_beyond_the_granule_are_refused() {
    let block = text(2048);
    let payload = lz4::block::compress(&block, None, false).unwrap();
    let mut zso = encode_header(2048, 2048, 1, 1);
    zso.extend_from_slice(&write_index(&[16, 0]));
    zso.extend_from_slice(&payload);
    zso.extend_from_slice(b"XXX");
    assert_eq!(decompress_zso(&zso), Err(ZsoError::Corruption { block: 0, offset: 32 }));
    assert_eq!(max_trims(1, 500), 2);
    assert_eq!(max_trims(0, 500), 1);
    assert_eq!(max_trims(9, 500), 500);
    assert_eq!(max_trims(64, 500), 500);
}

#[test]
fn exhausted_buffer_ends_recovery() {
    assert_eq!(lz4_decompress(vec![0xFF, 0xFF], 2048, 1000), None);
    assert_eq!(lz4_decompress(Vec::new(), 2048, 1000), None);
}

#[test]
fn block_encoder_places_and_reports() {
    let mut out = vec![0u8; 33];
    let block = vec![0u8; 2048];
    let entry = encode_block(&mut out, &block, 0, Mode::Default, 100, 3, b'P').unwrap();
    assert_eq!(entry, 5);
    assert_eq!(&out[33..40], b"PPPPPPP");
    let payload = lz4::block::compress(&block, None, false).unwrap();
    assert_eq!(&out[40..], &payload[..]);

    let mut plain_out = vec![0u8; 8];
    let random = noise(2048, 77);
    let plain = encode_block(&mut plain_out, &random, 0, Mode::Fast, 100, 2, b'P').unwrap();
    assert_eq!(plain, 0x8000_0002);
    assert_eq!(&plain_out[8..], &random[..]);
}

#[test]
fn write_padding_aligns_the_end() {
    let mut out = vec![1u8; 5];
    write_padding(&mut out, 2, 0xAA);
    assert_eq!(out, vec![1, 1, 1, 1, 1, 0xAA, 0xAA, 0xAA]);
    write_padding(&mut out, 2, 0xAA);
    assert_eq!(out.len(), 8);
    write_padding(&mut out, 0, 0xAA);
    assert_eq!(out.len(), 8);
}

#[test]
fn stored_range_is_clamped_to_the_container() {
    let mut zso = vec![0u8; 24];
    zso.extend_from_slice(&write_index(&[0x8000_0024, 0x28, 0x30]));
    zso.extend_from_slice(&[1, 2, 3, 4, 5, 6, 7, 8, 9, 10]);
    let index = read_index(&zso, 3);
    assert_eq!(read_stored(&zso, &index, 0, 4, 0), vec![1, 2, 3, 4]);
    assert_eq!(read_stored(&zso, &index, 0, 2048, 0), vec![1, 2, 3, 4, 5, 6, 7, 8, 9, 10]);
    assert_eq!(read_stored(&zso, &index, 1, 2048, 0), vec![5, 6, 7, 8, 9, 10]);
    let backwards = vec![0x28u32, 0x24, 0x30];
    assert_eq!(read_stored(&zso, &backwards, 0, 2048, 0), Vec::<u8>::new());
}

#[test]
fn image_over_two_gib_gets_a_shift() {
    let total = (1usize << 31) + 2048;
    let iso = vec![0u8; total];
    let zso = compress_zso(&iso, Mode::Default, 100, None, b'X').unwrap();
    let header = decode_header(&zso[..24]).unwrap();
    assert_eq!(header.total_bytes, total as u64);
    assert_eq!(header.align, 1);
    let blocks = total / 2048;
    let index = read_index(&zso, blocks + 1);
    let mut previous = 0u64;
    for i in 0..blocks {
        assert!(!is_plain(index[i]));
        let offset = offset_of(index[i], 1).unwrap();
        assert_eq!(offset, (index[i] as u64) << 1);
        assert_eq!(offset % 2, 0);
        assert!(offset >= previous);
        previous = offset;
    }
    assert_eq!(index[blocks] as usize, zso.len() >> 1);
    for i in [0, 1, blocks / 2, blocks - 2, blocks - 1] {
        assert_eq!(decode_block(&zso, &index, i, 2048, 1), Ok(vec![0u8; 2048]));
    }
}
