use simd_normalizer::casefold::{casefold_char, CaseFoldMode};
use simd_normalizer::matching::{
    matches_normalized, normalize_for_matching, normalize_for_matching_legacy,
    normalize_for_matching_utf16, MatchingOptions,
};

fn default_opts() -> MatchingOptions {
    MatchingOptions::default()
}

fn turkish_opts() -> MatchingOptions {
    MatchingOptions {
        case_fold: CaseFoldMode::Turkish,
    }
}

// ---- Basic tests ----

#[test]
fn empty_input() {
    assert_eq!(normalize_for_matching("", &default_opts()), "");
}

#[test]
fn ascii_lowercase_unchanged() {
    let result = normalize_for_matching("hello", &default_opts());
    assert!(!result.is_empty());
}

#[test]
fn identical_strings_match() {
    assert!(matches_normalized("test", "test", &default_opts()));
}

#[test]
fn different_strings_dont_match() {
    assert!(!matches_normalized("hello", "world", &default_opts()));
}

// ---- Case folding tests ----

#[test]
fn case_insensitive_ascii() {
    let opts = default_opts();
    assert!(matches_normalized("File", "file", &opts));
    assert!(matches_normalized("FILE", "file", &opts));
    assert!(matches_normalized("FiLe", "file", &opts));
}

#[test]
fn case_insensitive_extended() {
    let opts = default_opts();
    // Ö (U+00D6) case folds to ö (U+00F6)
    assert!(matches_normalized("Ströme", "ströme", &opts));
}

// ---- Confusable detection tests ----

#[test]
fn matching_confusable_latin_cyrillic_a() {
    let opts = default_opts();
    // Latin 'a' (U+0061) and Cyrillic 'а' (U+0430)
    assert!(matches_normalized("a", "\u{0430}", &opts));
}

#[test]
fn matching_confusable_latin_cyrillic_word() {
    let opts = default_opts();
    // "apple" in Latin vs mixed Latin/Cyrillic
    // Cyrillic: а=U+0430, р=U+0440, е=U+0435
    let latin = "apple";
    let mixed = "\u{0430}\u{0440}\u{0440}l\u{0435}";
    assert!(matches_normalized(latin, mixed, &opts));
}

// ---- Combined case + confusable tests (the key requirement) ----

#[test]
fn file_variants_all_match() {
    let opts = default_opts();
    let canonical = normalize_for_matching("file", &opts);

    // Case variant
    assert_eq!(normalize_for_matching("File", &opts), canonical);
    assert_eq!(normalize_for_matching("FILE", &opts), canonical);

    // Turkish dotless-ı (U+0131) — in standard mode, ı case-folds to itself (ı),
    // but it's confusable with 'i' via the confusable mapping.
    // The matching pipeline handles this through the confusable skeleton step.
    let dotless_file = "f\u{0131}le";
    assert!(
        matches_normalized("file", dotless_file, &opts),
        "'file' and 'fıle' should match: file={:?}, fıle={:?}",
        normalize_for_matching("file", &opts),
        normalize_for_matching(dotless_file, &opts),
    );
}

#[test]
fn file_mixed_case_and_confusable() {
    let opts = default_opts();
    // "FıLE" — uppercase + Turkish dotless-ı
    let input = "F\u{0131}LE";
    assert!(
        matches_normalized("file", input, &opts),
        "'file' and 'FıLE' should match: file={:?}, FıLE={:?}",
        normalize_for_matching("file", &opts),
        normalize_for_matching(input, &opts),
    );
}

// ---- NFKC compatibility tests ----

#[test]
fn nfkc_fullwidth() {
    let opts = default_opts();
    // Fullwidth 'A' (U+FF21) should NFKC-normalize to 'A', then case-fold to 'a'
    let fullwidth_a = "\u{FF21}";
    assert!(matches_normalized(fullwidth_a, "a", &opts));
}

#[test]
fn nfkc_superscript() {
    let opts = default_opts();
    // Superscript '2' (U+00B2) NFKC-normalizes to '2'
    assert_eq!(
        normalize_for_matching("\u{00B2}", &opts),
        normalize_for_matching("2", &opts),
    );
}

// ---- Turkish mode tests ----

#[test]
fn turkish_mode_dotless_i() {
    let opts = turkish_opts();
    // In Turkish mode: I → ı (U+0131), not i
    // So "Istanbul" in Turkish mode has ı as first char
    let a = normalize_for_matching("Istanbul", &opts);
    let b = normalize_for_matching("\u{0131}stanbul", &opts);
    assert_eq!(a, b);
}

#[test]
fn turkish_mode_dotted_i() {
    let opts = turkish_opts();
    // In Turkish mode: İ (U+0130) → i
    assert!(matches_normalized("\u{0130}stanbul", "istanbul", &opts));
}

// ---- UTF-16 encoding test ----

#[test]
fn utf16_encoding() {
    let opts = default_opts();
    let utf16 = normalize_for_matching_utf16("hello", &opts);
    assert!(!utf16.is_empty());
    // Should round-trip back to a valid string
    let decoded = String::from_utf16(&utf16).expect("valid UTF-16");
    assert_eq!(decoded, normalize_for_matching("hello", &opts));
}

#[test]
fn utf16_supplementary() {
    let opts = default_opts();
    // U+1F600 (emoji) — supplementary character, encodes as surrogate pair in UTF-16
    let utf16 = normalize_for_matching_utf16("\u{1F600}", &opts);
    assert!(!utf16.is_empty());
    let decoded = String::from_utf16(&utf16).expect("valid UTF-16");
    assert_eq!(decoded, normalize_for_matching("\u{1F600}", &opts));
}

// ---- Stability tests ----

#[test]
fn matching_idempotent() {
    let opts = default_opts();
    let inputs = [
        "hello",
        "File",
        "\u{0430}\u{0440}\u{0440}l\u{0435}",
        "\u{00C0}",
    ];
    for input in &inputs {
        let once = normalize_for_matching(input, &opts);
        let twice = normalize_for_matching(&once, &opts);
        assert_eq!(
            once, twice,
            "normalize_for_matching should be idempotent for {:?}",
            input
        );
    }
}

#[test]
fn matching_not_confusable_different_words() {
    let opts = default_opts();
    assert!(!matches_normalized("hello", "world", &opts));
    assert!(!matches_normalized("file", "pile", &opts));
}

// ---- Parity with legacy implementation ----

#[test]
fn fused_matches_legacy_on_fixtures() {
    let opts = default_opts();
    let fixtures = [
        "",
        "hello",
        "File",
        "FILE",
        "FiLe",
        "Ströme",
        "ströme",
        "a",
        "\u{0430}",
        "\u{0430}\u{0440}\u{0440}l\u{0435}",
        "f\u{0131}le",
        "F\u{0131}LE",
        "\u{FF21}",
        "\u{00B2}",
        "\u{00C0}",
        "Hel\u{0430}",
        "\u{1D0E}\u{326}\u{306}",
        "\u{1F600}",
        "Istanbul",
        "test mixing\u{0430}cyrillic",
        // Long input mixing scripts:
        "The quick brown FOX jumps over the lazy DOG (Привет, Мир!) Καλημέρα",
    ];
    for input in &fixtures {
        let fused = normalize_for_matching(input, &opts);
        let legacy = normalize_for_matching_legacy(input, &opts);
        assert_eq!(
            fused, legacy,
            "fused vs legacy diverged for {:?}: fused={:?}, legacy={:?}",
            input, fused, legacy,
        );
    }
}

#[test]
fn fused_matches_legacy_turkish() {
    let opts = turkish_opts();
    let fixtures = [
        "Istanbul",
        "\u{0130}stanbul",
        "\u{0131}stanbul",
        "FILE",
        "fıle",
    ];
    for input in &fixtures {
        let fused = normalize_for_matching(input, &opts);
        let legacy = normalize_for_matching_legacy(input, &opts);
        assert_eq!(
            fused, legacy,
            "fused vs legacy diverged for {:?} (Turkish): fused={:?}, legacy={:?}",
            input, fused, legacy,
        );
    }
}

// ---- Additional scenarios ----

#[test]
fn utf16_matches_encoding_of_matching_form() {
    let opts = default_opts();
    for input in ["hello", "\u{1F600}x", "Ströme", ""] {
        let expected: Vec<u16> = normalize_for_matching(input, &opts).encode_utf16().collect();
        assert_eq!(normalize_for_matching_utf16(input, &opts), expected);
    }
}

#[test]
fn default_options_use_standard_folding() {
    assert_eq!(MatchingOptions::default().case_fold, CaseFoldMode::Standard);
}

#[test]
fn matching_form_has_no_case_differences() {
    for mode in [CaseFoldMode::Standard, CaseFoldMode::Turkish] {
        let opts = MatchingOptions { case_fold: mode };
        for s in ["File", "F\u{131}LE", "\u{0130}stanbul", "\u{1E9E}tra\u{DF}e", "\u{2460}\u{FB01}"] {
            let r = normalize_for_matching(s, &opts);
            assert!(r.chars().all(|c| casefold_char(c, mode) == c), "mode {:?} input {:?}", mode, s);
        }
    }
}
