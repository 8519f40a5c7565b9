use std::borrow::Cow;

use simd_normalizer::casefold::{
    casefold, casefold_ascii_fastpath, casefold_char, casefold_scalar, CaseFoldMode,
};

// ---- Character-level tests ----

#[test]
fn fold_ascii_uppercase() {
    assert_eq!(casefold_char('A', CaseFoldMode::Standard), 'a');
    assert_eq!(casefold_char('Z', CaseFoldMode::Standard), 'z');
}

#[test]
fn fold_ascii_lowercase_unchanged() {
    assert_eq!(casefold_char('a', CaseFoldMode::Standard), 'a');
    assert_eq!(casefold_char('z', CaseFoldMode::Standard), 'z');
}

#[test]
fn fold_digit_unchanged() {
    assert_eq!(casefold_char('0', CaseFoldMode::Standard), '0');
    assert_eq!(casefold_char('9', CaseFoldMode::Standard), '9');
}

#[test]
fn fold_latin_extended() {
    // U+00C0 À → U+00E0 à
    assert_eq!(
        casefold_char('\u{00C0}', CaseFoldMode::Standard),
        '\u{00E0}'
    );
    // U+00D6 Ö → U+00F6 ö
    assert_eq!(
        casefold_char('\u{00D6}', CaseFoldMode::Standard),
        '\u{00F6}'
    );
}

#[test]
fn fold_greek() {
    // U+0391 Α → U+03B1 α
    assert_eq!(
        casefold_char('\u{0391}', CaseFoldMode::Standard),
        '\u{03B1}'
    );
    // U+03A3 Σ → U+03C3 σ
    assert_eq!(
        casefold_char('\u{03A3}', CaseFoldMode::Standard),
        '\u{03C3}'
    );
}

#[test]
fn fold_cyrillic() {
    // U+0410 А → U+0430 а
    assert_eq!(
        casefold_char('\u{0410}', CaseFoldMode::Standard),
        '\u{0430}'
    );
}

#[test]
fn fold_micro_sign() {
    // U+00B5 µ (MICRO SIGN) → U+03BC μ (GREEK SMALL LETTER MU)
    assert_eq!(
        casefold_char('\u{00B5}', CaseFoldMode::Standard),
        '\u{03BC}'
    );
}

#[test]
fn fold_sharp_s() {
    // U+1E9E ẞ (LATIN CAPITAL LETTER SHARP S) → U+00DF ß
    assert_eq!(
        casefold_char('\u{1E9E}', CaseFoldMode::Standard),
        '\u{00DF}'
    );
}

// ---- Turkish mode ----

#[test]
fn fold_turkish_dotless_i() {
    // Standard: I → i
    assert_eq!(casefold_char('I', CaseFoldMode::Standard), 'i');
    // Turkish: I → ı (U+0131)
    assert_eq!(casefold_char('I', CaseFoldMode::Turkish), '\u{0131}');
}

#[test]
fn fold_turkish_dotted_capital_i() {
    // Turkish: İ (U+0130) → i
    assert_eq!(casefold_char('\u{0130}', CaseFoldMode::Turkish), 'i');
}

#[test]
fn fold_turkish_other_chars_unchanged() {
    // Non-I characters should fold the same in Turkish mode.
    assert_eq!(casefold_char('A', CaseFoldMode::Turkish), 'a');
    assert_eq!(casefold_char('a', CaseFoldMode::Turkish), 'a');
}

// ---- String-level tests ----

#[test]
fn fold_string_ascii() {
    let result = casefold("Hello World", CaseFoldMode::Standard);
    assert_eq!(&*result, "hello world");
}

#[test]
fn fold_string_already_folded() {
    let result = casefold("hello world", CaseFoldMode::Standard);
    assert!(matches!(result, Cow::Borrowed(_)));
    assert_eq!(&*result, "hello world");
}

#[test]
fn fold_string_empty() {
    let result = casefold("", CaseFoldMode::Standard);
    assert!(matches!(result, Cow::Borrowed(_)));
}

#[test]
fn fold_string_mixed() {
    let result = casefold("Ströme", CaseFoldMode::Standard);
    assert_eq!(&*result, "ströme");
}

#[test]
fn fold_string_turkish() {
    let result = casefold("Istanbul", CaseFoldMode::Turkish);
    // I → ı in Turkish mode
    assert_eq!(&*result, "\u{0131}stanbul");
}

#[test]
fn fold_string_all_ascii_lowercase() {
    // Should return borrowed.
    let result = casefold(
        "abcdefghijklmnopqrstuvwxyz0123456789",
        CaseFoldMode::Standard,
    );
    assert!(matches!(result, Cow::Borrowed(_)));
}

// ---- Additional scenarios ----

#[test]
fn fold_string_non_ascii_after_uppercase() {
    // ASCII fast path hands over to the per-character path at 'Ö'.
    let result = casefold("ABC\u{00D6}DEF", CaseFoldMode::Standard);
    assert!(matches!(result, Cow::Owned(_)));
    assert_eq!(&*result, "abc\u{00F6}def");
}

#[test]
fn fold_string_non_ascii_already_folded_is_borrowed() {
    let result = casefold("stra\u{00DF}e", CaseFoldMode::Standard);
    assert!(matches!(result, Cow::Borrowed(_)));
}

#[test]
fn fold_string_turkish_dotted_capital() {
    let result = casefold("\u{0130}stanbul", CaseFoldMode::Turkish);
    assert_eq!(&*result, "istanbul");
}

#[test]
fn turkish_matches_standard_off_the_two_i() {
    for c in ['A', 'z', '\u{00C0}', '\u{0391}', 'i', '\u{0131}'] {
        assert_eq!(
            casefold_char(c, CaseFoldMode::Turkish),
            casefold_char(c, CaseFoldMode::Standard)
        );
    }
}

#[test]
fn fold_long_inputs_agree_with_scalar_path() {
    let inputs = [
        "hello world, this is a long lowercase ascii line of text!!! 0123456789 abc".to_string(),
        format!("{}Hello{}", "x".repeat(70), "y".repeat(10)),
        format!("{}\u{00D6}{}", "a".repeat(100), "B".repeat(5)),
        format!("{}ABC{}\u{0391}xyz", "q".repeat(64), "r".repeat(64)),
        format!("\u{00C9}{}", "Z".repeat(80)),
    ];
    for s in &inputs {
        let fast = casefold_ascii_fastpath(s);
        let slow = casefold_scalar(s, CaseFoldMode::Standard);
        assert_eq!(&*fast, &*slow);
        assert_eq!(matches!(fast, Cow::Borrowed(_)), matches!(slow, Cow::Borrowed(_)));
    }
}

#[test]
fn fold_long_lowercase_is_borrowed() {
    let s = "abc def ghi ".repeat(20);
    assert!(matches!(casefold(&s, CaseFoldMode::Standard), Cow::Borrowed(_)));
}

#[test]
fn casefold_twice_equals_once() {
    let samples = ["Hello WORLD", "\u{0130}stanbul I\u{0131}", "\u{212A}elvin \u{00DF} \u{1E9E}", "\u{03A3}\u{03C2}\u{0391}"];
    for s in samples {
        for mode in [CaseFoldMode::Standard, CaseFoldMode::Turkish] {
            let once = casefold(s, mode).into_owned();
            let twice = casefold(&once, mode).into_owned();
            assert_eq!(once, twice, "mode {:?} input {:?}", mode, s);
        }
    }
}
