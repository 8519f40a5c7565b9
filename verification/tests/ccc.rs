use simd_normalizer::ccc::{
    canonical_combining_class, insertion_sort_by_ccc, CccBuffer, CharAndCcc, INLINE_CAP,
};

#[test]
fn test_empty_buffer() {
    let buf = CccBuffer::new();
    assert!(buf.is_empty());
    assert_eq!(buf.len(), 0);
}

#[test]
fn test_push_and_len() {
    let mut buf = CccBuffer::new();
    buf.push('a', 0);
    assert_eq!(buf.len(), 1);
    assert!(!buf.is_empty());
    buf.push('\u{0301}', 230);
    assert_eq!(buf.len(), 2);
}

#[test]
fn test_inline_sort_by_ccc() {
    let mut buf = CccBuffer::new();
    buf.push('\u{0327}', 202);
    buf.push('\u{0301}', 230);
    buf.push('\u{0308}', 230);
    buf.push('\u{0323}', 220);

    let sorted: Vec<CharAndCcc> = buf.sort_and_drain();
    assert_eq!(sorted.len(), 4);
    assert_eq!(sorted[0].ccc, 202);
    assert_eq!(sorted[0].ch, '\u{0327}');
    assert_eq!(sorted[1].ccc, 220);
    assert_eq!(sorted[1].ch, '\u{0323}');
    // Stability: U+0301 before U+0308 (both CCC 230)
    assert_eq!(sorted[2].ch, '\u{0301}');
    assert_eq!(sorted[3].ch, '\u{0308}');
    assert!(buf.is_empty());
}

#[test]
fn test_stability_same_ccc() {
    let mut buf = CccBuffer::new();
    buf.push('A', 230);
    buf.push('B', 230);
    buf.push('C', 230);
    let sorted: Vec<CharAndCcc> = buf.sort_and_drain();
    assert_eq!(sorted[0].ch, 'A');
    assert_eq!(sorted[1].ch, 'B');
    assert_eq!(sorted[2].ch, 'C');
}

#[test]
fn test_overflow_to_heap() {
    let mut buf = CccBuffer::new();
    // With INLINE_CAP=32, we need >32 entries to trigger overflow.
    let n = INLINE_CAP + 1;
    for i in 0..n {
        let ch = char::from_u32(0xE000 + i as u32).unwrap();
        buf.push(ch, (200 + (i % 50)) as u8);
    }
    assert_eq!(buf.len(), n);
    assert!(buf.is_spilled());
    let sorted: Vec<CharAndCcc> = buf.sort_and_drain();
    assert_eq!(sorted.len(), n);
    for window in sorted.windows(2) {
        assert!(window[0].ccc <= window[1].ccc);
    }
    assert!(buf.is_empty());
}

#[test]
fn test_overflow_stability() {
    let mut buf = CccBuffer::new();
    // Push >INLINE_CAP entries to trigger overflow, all same CCC for stability check.
    let n = (INLINE_CAP as u32) + 2;
    let chars: Vec<char> = (0..n).map(|i| char::from_u32(0xE000 + i).unwrap()).collect();
    for &ch in &chars {
        buf.push(ch, 230);
    }
    assert!(buf.is_spilled());
    let sorted: Vec<CharAndCcc> = buf.sort_and_drain();
    let sorted_chars: Vec<char> = sorted.iter().map(|e| e.ch).collect();
    assert_eq!(sorted_chars, chars);
}

#[test]
fn test_clear_and_reuse() {
    let mut buf = CccBuffer::new();
    buf.push('x', 10);
    buf.push('y', 20);
    buf.clear();
    assert!(buf.is_empty());
    buf.push('z', 30);
    assert_eq!(buf.len(), 1);
    assert_eq!(buf.as_slice()[0].ch, 'z');
}

#[test]
fn test_single_element_sort() {
    let mut buf = CccBuffer::new();
    buf.push('\u{0301}', 230);
    let sorted: Vec<CharAndCcc> = buf.sort_and_drain();
    assert_eq!(sorted.len(), 1);
    assert_eq!(sorted[0].ch, '\u{0301}');
}

#[test]
fn test_already_sorted() {
    let mut buf = CccBuffer::new();
    buf.push('\u{0327}', 202);
    buf.push('\u{0323}', 220);
    buf.push('\u{0301}', 230);
    let sorted: Vec<CharAndCcc> = buf.sort_and_drain();
    assert_eq!(sorted[0].ccc, 202);
    assert_eq!(sorted[1].ccc, 220);
    assert_eq!(sorted[2].ccc, 230);
}

#[test]
fn test_reverse_order() {
    let mut buf = CccBuffer::new();
    buf.push('\u{0301}', 230);
    buf.push('\u{0323}', 220);
    buf.push('\u{0327}', 202);
    let sorted: Vec<CharAndCcc> = buf.sort_and_drain();
    assert_eq!(sorted[0].ccc, 202);
    assert_eq!(sorted[1].ccc, 220);
    assert_eq!(sorted[2].ccc, 230);
}

#[test]
fn test_insertion_sort_correctness() {
    let mut data = [
        CharAndCcc { ch: 'D', ccc: 4 },
        CharAndCcc { ch: 'B', ccc: 2 },
        CharAndCcc { ch: 'A', ccc: 1 },
        CharAndCcc { ch: 'C', ccc: 3 },
    ];
    insertion_sort_by_ccc(&mut data);
    assert_eq!(data[0].ccc, 1);
    assert_eq!(data[1].ccc, 2);
    assert_eq!(data[2].ccc, 3);
    assert_eq!(data[3].ccc, 4);
}

#[test]
fn test_insertion_sort_stability() {
    let mut data = [
        CharAndCcc { ch: 'X', ccc: 230 },
        CharAndCcc { ch: 'A', ccc: 220 },
        CharAndCcc { ch: 'Y', ccc: 230 },
        CharAndCcc { ch: 'B', ccc: 220 },
    ];
    insertion_sort_by_ccc(&mut data);
    assert_eq!(data[0].ch, 'A');
    assert_eq!(data[1].ch, 'B');
    assert_eq!(data[2].ch, 'X');
    assert_eq!(data[3].ch, 'Y');
}

#[test]
fn test_large_combining_sequence() {
    let mut buf = CccBuffer::new();
    let cccs: Vec<u8> = (0..100).map(|i| ((i * 37 + 13) % 255) as u8).collect();
    for (i, &ccc) in cccs.iter().enumerate() {
        let ch = char::from_u32(0xE000 + i as u32).unwrap();
        buf.push(ch, ccc);
    }
    assert_eq!(buf.len(), 100);
    assert!(buf.is_spilled());
    let sorted: Vec<CharAndCcc> = buf.sort_and_drain();
    assert_eq!(sorted.len(), 100);
    for window in sorted.windows(2) {
        assert!(window[0].ccc <= window[1].ccc);
    }
    assert!(buf.is_empty());
}

#[test]
fn test_ccc_lookup_real_data() {
    // U+0300 COMBINING GRAVE ACCENT: CCC = 230
    assert_eq!(canonical_combining_class('\u{0300}'), 230);
    // U+0327 COMBINING CEDILLA: CCC = 202
    assert_eq!(canonical_combining_class('\u{0327}'), 202);
    // ASCII 'A': CCC = 0
    assert_eq!(canonical_combining_class('A'), 0);
}

// ---- Additional scenarios ----

#[test]
fn take_single_inline_only_for_one_inline_entry() {
    let mut buf = CccBuffer::new();
    assert!(buf.take_single_inline().is_none());
    buf.push('\u{0301}', 230);
    let e = buf.take_single_inline().unwrap();
    assert_eq!(e, CharAndCcc { ch: '\u{0301}', ccc: 230 });
    assert!(buf.is_empty());
    buf.push('a', 1);
    buf.push('b', 2);
    assert!(buf.take_single_inline().is_none());
    assert_eq!(buf.len(), 2);
}

#[test]
fn sort_in_place_keeps_entries_sorted_and_stable() {
    let mut buf = CccBuffer::new();
    buf.push('x', 230);
    buf.push('y', 202);
    buf.push('z', 230);
    buf.sort_in_place();
    let chars: Vec<char> = buf.as_slice().iter().map(|e| e.ch).collect();
    assert_eq!(chars, vec!['y', 'x', 'z']);
    assert_eq!(buf.len(), 3);
}

#[test]
fn take_single_inline_is_none_once_spilled() {
    let mut buf = CccBuffer::new();
    for _ in 0..=INLINE_CAP {
        buf.push('\u{0301}', 230);
    }
    buf.clear();
    buf.push('\u{0301}', 230);
    assert_eq!(buf.len(), 1);
    assert!(buf.take_single_inline().is_none());
    assert_eq!(buf.len(), 1);
}
