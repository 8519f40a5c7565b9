use simd_normalizer::normalizer::Form;
use simd_normalizer::quick_check::{
    quick_check_impl, quick_check_scalar, QcParams,
    is_normalized_nfc, is_normalized_nfd, quick_check_nfc, quick_check_nfc_oracle,
    quick_check_nfd, quick_check_nfd_oracle, quick_check_nfkc, quick_check_nfkc_oracle,
    quick_check_nfkd, quick_check_nfkd_oracle, IsNormalized,
};

// ---- ASCII fast path ----

#[test]
fn ascii_is_nfc() {
    assert_eq!(quick_check_nfc("Hello, world!"), IsNormalized::Yes);
}

#[test]
fn ascii_is_nfd() {
    assert_eq!(quick_check_nfd("Hello, world!"), IsNormalized::Yes);
}

#[test]
fn ascii_is_nfkc() {
    assert_eq!(quick_check_nfkc("Hello, world!"), IsNormalized::Yes);
}

#[test]
fn ascii_is_nfkd() {
    assert_eq!(quick_check_nfkd("Hello, world!"), IsNormalized::Yes);
}

#[test]
fn empty_string_is_normalized() {
    assert_eq!(quick_check_nfc(""), IsNormalized::Yes);
    assert_eq!(quick_check_nfd(""), IsNormalized::Yes);
    assert_eq!(quick_check_nfkc(""), IsNormalized::Yes);
    assert_eq!(quick_check_nfkd(""), IsNormalized::Yes);
}

// ---- NFC checks ----

#[test]
fn precomposed_is_nfc_yes() {
    assert_eq!(quick_check_nfc("\u{00E9}"), IsNormalized::Yes);
}

#[test]
fn decomposed_is_not_nfc() {
    let nfd = "e\u{0301}";
    let result = quick_check_nfc(nfd);
    assert!(
        result == IsNormalized::No || result == IsNormalized::Maybe,
        "NFD form must not be Yes for NFC, got {:?}",
        result,
    );
}

// ---- NFD checks ----

#[test]
fn precomposed_is_not_nfd() {
    assert_eq!(quick_check_nfd("\u{00E9}"), IsNormalized::No);
}

// ---- CCC ordering ----

#[test]
fn wrong_ccc_order_is_no() {
    let bad_order = "a\u{0301}\u{0327}"; // acute(230) then cedilla(202)
    assert_eq!(quick_check_nfc(bad_order), IsNormalized::No);
    assert_eq!(quick_check_nfd(bad_order), IsNormalized::No);
}

#[test]
fn correct_ccc_order_not_rejected() {
    // Use Hebrew accents which are NFC_QC=Yes but have non-zero CCC.
    // U+0591 HEBREW ACCENT ETNAHTA (CCC=220), U+05A1 HEBREW ACCENT PAZER (CCC=230)
    let good_order = "a\u{0591}\u{05A1}";
    let result = quick_check_nfc(good_order);
    assert_ne!(result, IsNormalized::No);
}

// ---- Range fast path tests ----

#[test]
fn latin1_supplement_is_nfc() {
    // U+00C0..U+00FF are all NFC_QC=Yes
    let latin1 = "\u{00C0}\u{00E9}\u{00F6}\u{00FC}\u{00FF}";
    assert_eq!(quick_check_nfc(latin1), IsNormalized::Yes);
}

#[test]
fn latin_extended_is_nfc() {
    // U+0100..U+02FF are all NFC_QC=Yes
    let extended = "\u{0100}\u{017E}\u{0250}\u{02FF}";
    assert_eq!(quick_check_nfc(extended), IsNormalized::Yes);
}

#[test]
fn cjk_is_nfc() {
    let cjk = "\u{4E00}\u{9FFF}\u{3400}\u{4DBF}";
    assert_eq!(quick_check_nfc(cjk), IsNormalized::Yes);
}

#[test]
fn hangul_syllable_is_nfc() {
    let hangul = "\u{AC00}\u{D7A3}";
    assert_eq!(quick_check_nfc(hangul), IsNormalized::Yes);
}

#[test]
fn hangul_syllable_is_not_nfd() {
    let hangul = "\u{AC00}";
    assert_eq!(quick_check_nfd(hangul), IsNormalized::No);
}

#[test]
fn latin1_is_not_nfd() {
    // U+00C0 decomposes in NFD
    assert_eq!(quick_check_nfd("\u{00C0}"), IsNormalized::No);
}

#[test]
fn nbsp_is_not_nfkc() {
    // U+00A0 (NBSP) → U+0020 (SPACE) in NFKC
    assert_eq!(quick_check_nfkc("\u{00A0}"), IsNormalized::No);
}

// ---- is_normalized definitive checks ----

#[test]
fn is_normalized_nfc_ascii() {
    assert!(is_normalized_nfc("Hello"));
}

#[test]
fn is_normalized_nfc_precomposed() {
    assert!(is_normalized_nfc("\u{00E9}"));
}

#[test]
fn is_normalized_nfd_decomposed() {
    assert!(is_normalized_nfd("e\u{0301}"));
}

#[test]
fn is_normalized_nfc_rejects_nfd() {
    assert!(!is_normalized_nfc("e\u{0301}"));
}

#[test]
fn is_normalized_nfd_rejects_nfc() {
    assert!(!is_normalized_nfd("\u{00E9}"));
}

#[test]
fn safe_lead_interleaved_with_combining_marks_across_chunk() {
    // 128 bytes spanning two SIMD chunks.
    // Pattern: CJK ideograph (3 bytes, lead 0xE4..=0xE9, safe-lead) +
    //          'a' (1 byte, ASCII) +
    //          U+0591 HEBREW ACCENT ETNAHTA (CCC=220, NFC_QC=Yes, lead 0xD6 -> decode path).
    // The U+0591 must be observed after a safe-lead reset of last_ccc so that
    // the *next* non-zero CCC mark is accepted as non-decreasing.
    //
    // 16 repetitions of (CJK=3 + 'a'=1 + U+0591=2 + 'b'=1 + 'b'=1) = 16 * 8 = 128 bytes.
    let unit = "\u{4E2D}a\u{0591}bb";
    let s: String = unit.repeat(16);
    assert_eq!(s.len(), 128);
    // All code points are NFC_QC=Yes with monotonic (or zero) CCC, so NFC=Yes.
    assert_eq!(quick_check_nfc(&s), IsNormalized::Yes);
    // NFD: U+0591 is NFD_QC=Yes, CJK Unified is NFD_QC=Yes, ASCII is safe.
    assert_eq!(quick_check_nfd(&s), IsNormalized::Yes);
    assert_eq!(quick_check_nfkc(&s), IsNormalized::Yes);
    assert_eq!(quick_check_nfkd(&s), IsNormalized::Yes);
}

#[test]
fn safe_lead_then_out_of_order_combining_is_no() {
    // Regression: if the safe-lead short-circuit fails to set last_ccc=0,
    // a subsequent same-position CCC check could mis-order. Build an input
    // where CJK (CCC=0 safe-lead) is followed by a correctly-ordered
    // combining sequence, then a mis-ordered one; expect No.
    // U+0301 ACUTE (CCC=230), U+0327 CEDILLA (CCC=202).
    let unit = "\u{4E2D}a\u{0301}\u{0327}"; // bad order after safe-lead + ASCII
    let padding = "x".repeat(64); // force >= 64-byte path
    let s = format!("{}{}", padding, unit);
    assert!(s.len() >= 64);
    assert_eq!(quick_check_nfc(&s), IsNormalized::No);
}

#[test]
fn oracle_matches_fastpath_on_fixed_input() {
    let s = "\u{4E2D}a\u{0591}bb".repeat(16);
    assert_eq!(quick_check_nfc(&s), quick_check_nfc_oracle(&s));
    assert_eq!(quick_check_nfd(&s), quick_check_nfd_oracle(&s));
    assert_eq!(quick_check_nfkc(&s), quick_check_nfkc_oracle(&s));
    assert_eq!(quick_check_nfkd(&s), quick_check_nfkd_oracle(&s));
}

// ---- Additional scenarios ----

#[test]
fn quick_check_no_on_prefix_stays_no() {
    let s = format!("a\u{0301}\u{0327}{}", "hello world");
    assert_eq!(quick_check_nfc(&s), IsNormalized::No);
    assert_eq!(quick_check_nfd(&s), IsNormalized::No);
}

#[test]
fn oracle_agrees_without_latin1_supplement() {
    for s in ["abc", "\u{0100}\u{0301}", "e\u{0301}", "\u{AC00}", "\u{00A0}"] {
        assert_eq!(quick_check_nfc(s), quick_check_nfc_oracle(s));
        assert_eq!(quick_check_nfd(s), quick_check_nfd_oracle(s));
        assert_eq!(quick_check_nfkc(s), quick_check_nfkc_oracle(s));
        assert_eq!(quick_check_nfkd(s), quick_check_nfkd_oracle(s));
    }
}

#[test]
fn maybe_answer_for_combining_mark_after_starter() {
    // U+0300 is NFC_QC=Maybe.
    assert_eq!(quick_check_nfc("\u{00C5}\u{0300}"), IsNormalized::Maybe);
    assert!(is_normalized_nfc("\u{00C5}\u{0300}"));
}

#[test]
fn chunked_scan_handles_character_across_chunk_boundary() {
    // 63 ASCII bytes then U+00E9 (2 bytes) straddling the 64-byte boundary.
    let s = format!("{}\u{00E9}{}", "a".repeat(63), "b".repeat(10));
    assert_eq!(quick_check_nfc(&s), IsNormalized::Yes);
    assert_eq!(quick_check_nfd(&s), IsNormalized::No);
    // Combining mark in the tail after a chunk of ASCII.
    let t = format!("{}e\u{0301}", "x".repeat(70));
    assert_eq!(quick_check_nfc(&t), IsNormalized::Maybe);
    assert_eq!(quick_check_nfd(&t), IsNormalized::Yes);
    // NBSP deep inside a long input.
    let u = format!("{}\u{00A0}{}", "y".repeat(100), "z".repeat(30));
    assert_eq!(quick_check_nfkc(&u), IsNormalized::No);
    assert_eq!(quick_check_nfc(&u), IsNormalized::Yes);
}

#[test]
fn chunked_scan_agrees_with_scalar_walk() {
    let p = QcParams { safe_below: 0x0300, hangul_safe: true, kana_safe: true, latin1_upper_safe: true };
    let inputs = [
        "\u{4E2D}a\u{0591}bb".repeat(16),
        format!("{}\u{0301}\u{0327}", "q".repeat(80)),
        "\u{AC00}\u{1100}\u{1161}".repeat(10),
        "ab\u{00C0}\u{0300}\u{30A2}\u{3099}".repeat(9),
    ];
    for s in &inputs {
        assert_eq!(quick_check_impl(s, Form::Nfc, &p, 0xCC), quick_check_scalar(s, Form::Nfc, &p));
    }
}

#[test]
fn oracle_matches_fastpath_on_latin1_letters() {
    let samples = ["\u{00C0}\u{00E9}\u{00EE}\u{00F5}\u{00FC}", "\u{00C4}\u{0304}", "\u{00FF}\u{0301}x", "\u{00D7}\u{00F7}\u{00C5}\u{030A}"];
    for s in samples {
        assert_eq!(quick_check_nfc(s), quick_check_nfc_oracle(s));
        assert_eq!(quick_check_nfd(s), quick_check_nfd_oracle(s));
        assert_eq!(quick_check_nfkc(s), quick_check_nfkc_oracle(s));
        assert_eq!(quick_check_nfkd(s), quick_check_nfkd_oracle(s));
    }
}
