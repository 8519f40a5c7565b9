use simd_normalizer::text::{char_from_u32, str_chars};

#[test]
fn char_from_u32_accepts_scalars_only() {
    assert_eq!(char_from_u32(0x41), Some('A'));
    assert_eq!(char_from_u32(0x1F600), Some('\u{1F600}'));
    assert_eq!(char_from_u32(0xD800), None);
    assert_eq!(char_from_u32(0x110000), None);
}

#[test]
fn str_chars_lists_characters_in_order() {
    assert_eq!(str_chars("a\u{00E9}\u{4E16}"), vec!['a', '\u{00E9}', '\u{4E16}']);
    assert!(str_chars("").is_empty());
}
