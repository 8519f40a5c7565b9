use simd_normalizer::simd::{find_first_above, scan_and_prefetch, scan_chunk};

fn make_chunk(fill: u8) -> [u8; 64] {
    [fill; 64]
}

// ---- chunk scanning ----

#[test]
fn scan_all_ascii_below_bound() {
    let chunk = make_chunk(0x41);
    let mask = scan_chunk(&chunk, 0xC0);
    assert_eq!(mask, 0, "All-ASCII chunk should produce mask=0");
}

#[test]
fn scan_all_above_bound() {
    let chunk = make_chunk(0xFF);
    let mask = scan_chunk(&chunk, 0xC0);
    assert_eq!(mask, u64::MAX, "All-high chunk should produce mask=all-ones");
}

#[test]
fn scan_single_high_byte_at_position_0() {
    let mut chunk = make_chunk(0x00);
    chunk[0] = 0xC0;
    let mask = scan_chunk(&chunk, 0xC0);
    assert_eq!(mask, 1u64, "Only bit 0 should be set");
}

#[test]
fn scan_single_high_byte_at_position_63() {
    let mut chunk = make_chunk(0x00);
    chunk[63] = 0xC0;
    let mask = scan_chunk(&chunk, 0xC0);
    assert_eq!(mask, 1u64 << 63, "Only bit 63 should be set");
}

#[test]
fn scan_mixed_pattern() {
    let mut chunk = make_chunk(0x20);
    chunk[3] = 0xCC;
    chunk[17] = 0xE0;
    chunk[42] = 0xF0;
    chunk[63] = 0xFF;
    let mask = scan_chunk(&chunk, 0xC0);
    let expected = (1u64 << 3) | (1u64 << 17) | (1u64 << 42) | (1u64 << 63);
    assert_eq!(mask, expected);
}

#[test]
fn scan_boundary_value_equal_to_bound() {
    let mut chunk = make_chunk(0x00);
    chunk[10] = 0xC0;
    let mask = scan_chunk(&chunk, 0xC0);
    assert_eq!(mask, 1u64 << 10);
}

#[test]
fn scan_boundary_value_one_below_bound() {
    let mut chunk = make_chunk(0x00);
    chunk[10] = 0xBF;
    let mask = scan_chunk(&chunk, 0xC0);
    assert_eq!(mask, 0);
}

#[test]
fn scan_and_prefetch_matches_scan_chunk() {
    let mut chunk = make_chunk(0x30);
    chunk[7] = 0xD0;
    chunk[31] = 0xE5;
    let m1 = scan_chunk(&chunk, 0xC0);
    let m2 = scan_and_prefetch(&chunk, 0, 0, 0xC0);
    assert_eq!(m1, m2, "scan_and_prefetch must match scan_chunk");
}

#[test]
fn scan_alternating_pattern() {
    let mut chunk = [0u8; 64];
    for (i, byte) in chunk.iter_mut().enumerate() {
        *byte = if i % 2 == 0 { 0xFF } else { 0x00 };
    }
    let mask = scan_chunk(&chunk, 0xC0);
    let expected: u64 = 0x5555_5555_5555_5555;
    assert_eq!(mask, expected);
}

#[test]
fn scan_every_position() {
    for pos in 0..64 {
        let mut chunk = make_chunk(0x00);
        chunk[pos] = 0xC0;
        let mask = scan_chunk(&chunk, 0xC0);
        assert_eq!(mask, 1u64 << pos, "Expected only bit {pos} set");
    }
}

#[test]
fn scan_all_positions_set() {
    let chunk = make_chunk(0x80);
    let mask = scan_chunk(&chunk, 0x80);
    assert_eq!(mask, u64::MAX);
    let mask = scan_chunk(&chunk, 0x81);
    assert_eq!(mask, 0);
}

// ---- dispatched entry points ----

#[test]
fn dispatch_scan_chunk_all_ascii() {
    let data = [0x41u8; 64];
    let mask = scan_chunk(&data, 0x80);
    assert_eq!(mask, 0u64);
}

#[test]
fn dispatch_scan_chunk_all_non_ascii() {
    let data = [0xC0u8; 64];
    let mask = scan_chunk(&data, 0x80);
    assert_eq!(mask, u64::MAX);
}

#[test]
fn dispatch_scan_chunk_mixed() {
    let mut data = [0x20u8; 64];
    data[0] = 0x80;
    data[15] = 0xFF;
    data[16] = 0xC0;
    data[31] = 0xE0;
    data[32] = 0xF0;
    data[63] = 0x80;
    let mask = scan_chunk(&data, 0x80);
    let expected = 1u64 | (1u64 << 15) | (1u64 << 16) | (1u64 << 31) | (1u64 << 32) | (1u64 << 63);
    assert_eq!(mask, expected);
}

#[test]
fn dispatch_scan_chunk_boundary() {
    let mut data = [0x7Fu8; 64];
    data[0] = 0x80;
    let mask = scan_chunk(&data, 0x80);
    assert_eq!(mask, 1u64);
}

#[test]
fn dispatch_scan_and_prefetch() {
    let data = [0x30u8; 128];
    let mask = scan_and_prefetch(&data, 64, 64, 0x80);
    assert_eq!(mask, 0u64);
}

#[test]
fn dispatch_scan_and_prefetch_matches_scan_chunk() {
    let mut data = [0x30u8; 128];
    data[5] = 0xAA;
    data[22] = 0xBB;
    data[40] = 0xCC;
    data[58] = 0xDD;

    let mask_plain = scan_chunk(&data, 0x80);
    let mask_pf = scan_and_prefetch(&data, 64, 64, 0x80);
    assert_eq!(mask_plain, mask_pf);
}

#[test]
fn dispatch_trampoline_settles() {
    let data = [0xFFu8; 64];
    for _ in 0..100 {
        let mask = scan_chunk(&data, 0x80);
        assert_eq!(mask, u64::MAX);
    }
}

// ---- find_first_above ----

#[test]
fn find_first_above_all_below() {
    let data = b"Hello, world! This is pure ASCII and should return len.";
    assert_eq!(find_first_above(data, 0xC0), data.len());
}

#[test]
fn find_first_above_first_byte() {
    let data = [0xC0u8, 0x00, 0x00, 0x00];
    assert_eq!(find_first_above(&data, 0xC0), 0);
}

#[test]
fn find_first_above_in_second_chunk() {
    let mut data = [0u8; 128];
    data[65] = 0xC0;
    assert_eq!(find_first_above(&data, 0xC0), 65);
}

#[test]
fn find_first_above_in_tail() {
    let mut data = [0u8; 70];
    data[68] = 0xC0;
    assert_eq!(find_first_above(&data, 0xC0), 68);
}

#[test]
fn find_first_above_empty() {
    assert_eq!(find_first_above(&[], 0xC0), 0);
}

#[test]
fn find_first_above_exact_chunk_boundary() {
    let mut data = [0u8; 64];
    data[63] = 0xC0;
    assert_eq!(find_first_above(&data, 0xC0), 63);
}

#[test]
fn find_first_above_multi_chunk_utf8() {
    let s = "aaaaaaaaaaaaaaaaaaaaaaaaaaaaaaaaaaaaaaaaaaaaaaaaaaaaaaaaaaaaaaaa\u{00E9}";
    let bytes = s.as_bytes();
    assert_eq!(find_first_above(bytes, 0xC0), 64);
}

// ---- further scan scenarios ----

#[test]
fn scan_bound_zero_sets_every_bit() {
    let data = [0x00u8; 64];
    assert_eq!(scan_chunk(&data, 0x00), u64::MAX);
}

#[test]
fn scan_bound_ff_only_ff_bytes() {
    let mut data = [0xFEu8; 64];
    data[7] = 0xFF;
    assert_eq!(scan_chunk(&data, 0xFF), 1u64 << 7);
}

#[test]
fn scan_lane_boundaries() {
    let mut data = [0x00u8; 64];
    for p in [0usize, 15, 16, 31, 32, 47, 48, 63] {
        data[p] = 0xC0;
    }
    let expected = [0u32, 15, 16, 31, 32, 47, 48, 63].iter().fold(0u64, |m, &p| m | (1u64 << p));
    assert_eq!(scan_chunk(&data, 0xC0), expected);
}

#[test]
fn scan_matches_bytewise_reference() {
    let mut chunk = [0u8; 64];
    for (i, byte) in chunk.iter_mut().enumerate() {
        *byte = (i as u8).wrapping_mul(7);
    }
    for bound in [0x00u8, 0x41, 0x80, 0xC0, 0xFF] {
        let mut expected = 0u64;
        for (i, &b) in chunk.iter().enumerate() {
            if b >= bound {
                expected |= 1u64 << i;
            }
        }
        assert_eq!(scan_chunk(&chunk, bound), expected);
    }
}

#[test]
fn scan_reads_only_the_first_64_bytes() {
    let mut data = [0x00u8; 100];
    data[70] = 0xFF;
    assert_eq!(scan_chunk(&data, 0x80), 0);
}
