use simd_normalizer::utf8::{decode_char_at, encode_char, is_continuation_byte, utf8_char_width};

// ── utf8_char_width ──────────────────────────────────────────

#[test]
fn width_ascii() {
    for b in 0x00u8..=0x7F {
        assert_eq!(utf8_char_width(b), 1, "byte {:#04x}", b);
    }
}

#[test]
fn width_two_byte() {
    for b in 0xC2u8..=0xDF {
        assert_eq!(utf8_char_width(b), 2, "byte {:#04x}", b);
    }
}

#[test]
fn width_three_byte() {
    for b in 0xE0u8..=0xEF {
        assert_eq!(utf8_char_width(b), 3, "byte {:#04x}", b);
    }
}

#[test]
fn width_four_byte() {
    for b in 0xF0u8..=0xF4 {
        assert_eq!(utf8_char_width(b), 4, "byte {:#04x}", b);
    }
}

// ── decode_char_at ───────────────────────────────────────────

#[test]
fn decode_ascii() {
    let s = "Hello";
    let bytes = s.as_bytes();
    let (ch, len) = decode_char_at(bytes, 0);
    assert_eq!(ch, 'H');
    assert_eq!(len, 1);
}

#[test]
fn decode_two_byte_char() {
    let s = "\u{00E9}";
    let bytes = s.as_bytes();
    let (ch, len) = decode_char_at(bytes, 0);
    assert_eq!(ch, '\u{00E9}');
    assert_eq!(len, 2);
}

#[test]
fn decode_three_byte_char() {
    let s = "\u{4E16}";
    let bytes = s.as_bytes();
    let (ch, len) = decode_char_at(bytes, 0);
    assert_eq!(ch, '\u{4E16}');
    assert_eq!(len, 3);
}

#[test]
fn decode_four_byte_char() {
    let s = "\u{1F600}";
    let bytes = s.as_bytes();
    let (ch, len) = decode_char_at(bytes, 0);
    assert_eq!(ch, '\u{1F600}');
    assert_eq!(len, 4);
}

#[test]
fn decode_at_offset() {
    let s = "A\u{00E9}B";
    let bytes = s.as_bytes();
    let (ch, len) = decode_char_at(bytes, 1);
    assert_eq!(ch, '\u{00E9}');
    assert_eq!(len, 2);
    let (ch2, len2) = decode_char_at(bytes, 3);
    assert_eq!(ch2, 'B');
    assert_eq!(len2, 1);
}

// ── encode_char ──────────────────────────────────────────────

#[test]
fn encode_ascii_char() {
    let mut buf = [0u8; 4];
    let len = encode_char('A', &mut buf);
    assert_eq!(len, 1);
    assert_eq!(&buf[..len], b"A");
}

#[test]
fn encode_two_byte_char() {
    let mut buf = [0u8; 4];
    let len = encode_char('\u{00E9}', &mut buf);
    assert_eq!(len, 2);
    assert_eq!(&buf[..len], "\u{00E9}".as_bytes());
}

#[test]
fn encode_three_byte_char() {
    let mut buf = [0u8; 4];
    let len = encode_char('\u{4E16}', &mut buf);
    assert_eq!(len, 3);
    assert_eq!(&buf[..len], "\u{4E16}".as_bytes());
}

#[test]
fn encode_four_byte_char() {
    let mut buf = [0u8; 4];
    let len = encode_char('\u{1F600}', &mut buf);
    assert_eq!(len, 4);
    assert_eq!(&buf[..len], "\u{1F600}".as_bytes());
}

#[test]
fn encode_roundtrip() {
    for &c in &['A', '\u{00E9}', '\u{4E16}', '\u{1F600}', '\u{0300}'] {
        let mut buf = [0u8; 4];
        let len = encode_char(c, &mut buf);
        let (decoded, dec_len) = decode_char_at(&buf, 0);
        assert_eq!(decoded, c);
        assert_eq!(dec_len, len);
    }
}

// ── is_continuation_byte ─────────────────────────────────────

#[test]
fn continuation_byte_true() {
    for b in 0x80u8..=0xBF {
        assert!(is_continuation_byte(b), "byte {:#04x} should be continuation", b);
    }
}

#[test]
fn continuation_byte_false_ascii() {
    for b in 0x00u8..=0x7F {
        assert!(!is_continuation_byte(b), "byte {:#04x} should not be continuation", b);
    }
}

#[test]
fn continuation_byte_false_leading() {
    for b in 0xC0u8..=0xFF {
        assert!(!is_continuation_byte(b), "byte {:#04x} should not be continuation", b);
    }
}

// ── Additional scenarios ─────────────────────────────────────

#[test]
fn width_invalid_leading_bytes_is_zero() {
    for b in [0x80u8, 0xBF, 0xC0, 0xC1, 0xF5, 0xFF] {
        assert_eq!(utf8_char_width(b), 0, "byte {:#04x}", b);
    }
}
