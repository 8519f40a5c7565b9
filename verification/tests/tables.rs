use simd_normalizer::tables::{
    ccc_from_trie_value, compose_pair, lookup_canonical_decomp, lookup_casefold, lookup_ccc,
    lookup_compat_decomp, lookup_confusable, lookup_nfc_qc, lookup_nfd_qc, lookup_nfkc_qc,
    lookup_nfkd_qc, BACKWARD_COMBINING, CCC_MASK, DECOMP_INFO_MASK, HAS_DECOMPOSITION,
    IS_EXPANSION, NON_ROUND_TRIP,
};

// -----------------------------------------------------------------------
// Synthetic unit tests (hand-crafted trie values)
// -----------------------------------------------------------------------

#[test]
fn test_ccc_extraction() {
    // CCC = 0
    assert_eq!(ccc_from_trie_value(0), 0);
    // CCC = 230 (0xE6) at bits 23..16
    let v = 0xE6 << 16;
    assert_eq!(ccc_from_trie_value(v), 230);
    // CCC = 1
    let v = 0x01 << 16;
    assert_eq!(ccc_from_trie_value(v), 1);
    // CCC = 254
    let v = 0xFE << 16;
    assert_eq!(ccc_from_trie_value(v), 254);
}

#[test]
fn test_ccc_from_trie_value_with_other_bits() {
    // CCC = 202, plus HAS_DECOMPOSITION and DECOMP_INFO bits
    let v = HAS_DECOMPOSITION | (202u32 << 16) | 0x1234;
    assert_eq!(ccc_from_trie_value(v), 202);
}

// -----------------------------------------------------------------------
// Integration tests against the Unicode data
// -----------------------------------------------------------------------

#[test]
fn test_compose_pair_a_grave() {
    // 'A' (U+0041) + U+0300 (COMBINING GRAVE ACCENT) -> U+00C0
    let result = compose_pair('A', '\u{0300}');
    assert_eq!(result, Some('\u{00C0}'));
}

#[test]
fn test_compose_pair_e_acute() {
    // 'E' (U+0045) + U+0301 (COMBINING ACUTE ACCENT) -> U+00C9
    let result = compose_pair('E', '\u{0301}');
    assert_eq!(result, Some('\u{00C9}'));
}

#[test]
fn test_compose_pair_nonexistent() {
    // (In Unicode, Z + grave does not compose to a precomposed character.)
    let result = compose_pair('Z', '\u{0300}');
    assert_eq!(result, Option::None);
}

#[test]
fn test_compose_pair_non_composable() {
    // Two random ASCII characters should not compose.
    assert_eq!(compose_pair('x', 'y'), Option::None);
}

#[test]
fn test_lookup_ccc_grave_accent() {
    // U+0300 COMBINING GRAVE ACCENT has CCC = 230.
    assert_eq!(lookup_ccc('\u{0300}'), 230);
}

#[test]
fn test_lookup_ccc_cedilla() {
    // U+0327 COMBINING CEDILLA has CCC = 202.
    assert_eq!(lookup_ccc('\u{0327}'), 202);
}

#[test]
fn test_lookup_ccc_ascii() {
    // ASCII 'A' has CCC = 0.
    assert_eq!(lookup_ccc('A'), 0);
}

#[test]
fn test_canonical_decomp_ascii() {
    // ASCII 'A' has no canonical decomposition: it maps to itself.
    let (decomp, ccc) = lookup_canonical_decomp('A');
    assert_eq!(decomp, vec!['A']);
    assert_eq!(ccc, 0);
}

#[test]
fn test_canonical_decomp_a_grave() {
    // U+00C0 (LATIN CAPITAL LETTER A WITH GRAVE) decomposes canonically
    // to 'A' (U+0041) + U+0300.
    let (data, _ccc) = lookup_canonical_decomp('\u{00C0}');
    assert_eq!(data.len(), 2);
    assert_eq!(data[0] as u32, 0x0041); // 'A'
    assert_eq!(data[1] as u32, 0x0300); // combining grave accent
}

#[test]
fn test_nfc_qc_ascii() {
    // ASCII characters are NFC quick-check Yes (0).
    assert_eq!(lookup_nfc_qc('A'), 0);
    assert_eq!(lookup_nfc_qc('z'), 0);
}

#[test]
fn test_nfd_qc_ascii() {
    // ASCII characters are NFD quick-check Yes (0).
    assert_eq!(lookup_nfd_qc('A'), 0);
}

#[test]
fn test_nfd_qc_precomposed() {
    // U+00C0 (A-grave) is NFD_QC = No (2) -- it has a canonical decomposition.
    let v = lookup_nfd_qc('\u{00C0}');
    assert_eq!(v, 2);
}

#[test]
fn test_nfc_qc_combining_mark() {
    // U+0300 (COMBINING GRAVE ACCENT) is not quick-check Yes.
    let v = lookup_nfc_qc('\u{0300}');
    assert_ne!(v, 0, "U+0300 should not be NFC_QC=Yes");
}

#[test]
fn test_nfkd_qc_ascii() {
    // ASCII is NFKD_QC Yes.
    assert_eq!(lookup_nfkd_qc('a'), 0);
}

#[test]
fn test_nfkc_qc_ascii() {
    // ASCII is NFKC_QC Yes.
    assert_eq!(lookup_nfkc_qc('a'), 0);
}

#[test]
fn test_backward_combining_and_non_round_trip_bits() {
    // Verify the bit constants don't overlap and are correctly positioned.
    assert_eq!(BACKWARD_COMBINING & NON_ROUND_TRIP, 0);
    assert_eq!(BACKWARD_COMBINING & HAS_DECOMPOSITION, 0);
    assert_eq!(NON_ROUND_TRIP & HAS_DECOMPOSITION, 0);
    assert_eq!(HAS_DECOMPOSITION & IS_EXPANSION, 0);
    assert_eq!(IS_EXPANSION & CCC_MASK, 0);
    assert_eq!(CCC_MASK & DECOMP_INFO_MASK, 0);
}

// -----------------------------------------------------------------------
// Additional scenarios
// -----------------------------------------------------------------------

#[test]
fn compat_decomp_of_superscript_two() {
    let (data, ccc) = lookup_compat_decomp('\u{00B2}');
    assert_eq!(data, vec!['2']);
    assert_eq!(ccc, 0);
    let (canon, _) = lookup_canonical_decomp('\u{00B2}');
    assert_eq!(canon, vec!['\u{00B2}']);
}

#[test]
fn casefold_lookup_values() {
    assert_eq!(lookup_casefold('\u{0391}'), Some(0x03B1));
    assert_eq!(lookup_casefold('\u{00DF}'), None);
}

#[test]
fn confusable_lookup_maps_cyrillic_a() {
    assert_eq!(lookup_confusable('\u{0430}'), vec!['a']);
}

#[test]
fn nfkc_qc_of_nbsp_is_no() {
    assert_eq!(lookup_nfkc_qc('\u{00A0}'), 2);
}

#[test]
fn nfkd_qc_of_superscript_two_is_no() {
    assert_eq!(lookup_nfkd_qc('\u{00B2}'), 2);
    assert_eq!(lookup_nfd_qc('\u{00B2}'), 0);
}

#[test]
fn class_is_zero_for_jamo_syllables_and_ideographs() {
    assert_eq!(lookup_ccc('\u{1100}'), 0);
    assert_eq!(lookup_ccc('\u{1161}'), 0);
    assert_eq!(lookup_ccc('\u{11A8}'), 0);
    assert_eq!(lookup_ccc('\u{AC00}'), 0);
    assert_eq!(lookup_ccc('\u{4E00}'), 0);
    assert_eq!(lookup_ccc('\u{0301}'), 230);
}

#[test]
fn quick_check_no_only_for_decomposing_characters() {
    // Jamo and ideographs are never No.
    for c in ['\u{1100}', '\u{1161}', '\u{11A8}', '\u{4E00}', 'a'] {
        assert!(lookup_nfc_qc(c) < 2);
        assert!(lookup_nfd_qc(c) < 2);
        assert!(lookup_nfkc_qc(c) < 2);
        assert!(lookup_nfkd_qc(c) < 2);
    }
    // A No comes with a decomposition that is not the character itself.
    assert_eq!(lookup_nfd_qc('\u{00E9}'), 2);
    assert_eq!(lookup_canonical_decomp('\u{00E9}').0, vec!['e', '\u{0301}']);
    assert_eq!(lookup_nfkc_qc('\u{FB01}'), 2);
    assert_eq!(lookup_compat_decomp('\u{FB01}').0, vec!['f', 'i']);
}

#[test]
fn table_composites_keep_the_decomposition_of_their_pair() {
    let p = compose_pair('A', '\u{0300}').unwrap();
    assert_eq!(p, '\u{00C0}');
    assert_eq!(lookup_canonical_decomp(p).0, vec!['A', '\u{0300}']);
    let p = compose_pair('\u{017F}', '\u{0307}').unwrap();
    assert_eq!(p, '\u{1E9B}');
    assert_eq!(lookup_canonical_decomp(p).0, vec!['\u{017F}', '\u{0307}']);
    assert_eq!(lookup_compat_decomp(p).0, vec!['s', '\u{0307}']);
    assert_eq!(compose_pair('a', 'b'), None);
}
