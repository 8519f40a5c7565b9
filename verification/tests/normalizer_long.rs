use std::borrow::Cow;

use simd_normalizer::normalizer::{normalize_impl, normalize_scalar, Form};
use unicode_normalization::UnicodeNormalization;

fn samples() -> Vec<String> {
    let mut v = Vec::new();
    // Combining mark right after a 64-byte ASCII chunk.
    v.push(format!("{}\u{0301}tail", "e".repeat(64)));
    // Precomposed Latin-1 straddling a chunk boundary.
    v.push(format!("{}\u{00E9}{}", "a".repeat(63), "b".repeat(20)));
    // Hangul syllables and jamo, long.
    v.push("\u{AC00}\u{AC01}\u{1100}\u{1161}\u{11A8}x".repeat(12));
    // Orphan marks at the start and reordering.
    v.push(format!("\u{0301}\u{0323}{}a\u{0301}\u{0323}", "z".repeat(70)));
    // Compatibility characters.
    v.push(format!("{}\u{FB01}\u{00B2}\u{2460}\u{FF21}", "k".repeat(66)));
    // Mixed scripts with non-decomposing starters.
    v.push("The quick brown FOX (\u{041F}\u{0440}\u{0438}\u{0432}\u{0435}\u{0442}) \u{039A}\u{03B1}\u{03BB}\u{03B7}\u{03BC}\u{03AD}\u{03C1}\u{03B1} \u{20000}\u{4E2D}".repeat(3));
    // Tibetan vowel sign that decomposes into marks, after ASCII.
    v.push(format!("{}q\u{0F73}r", "p".repeat(64)));
    // Singleton decompositions (Ohm, Kelvin, a CJK compatibility ideograph)
    // and an Angstrom sign that decomposes to a letter and a mark.
    v.push(format!("{}\u{2126}\u{212A}\u{F900}\u{212B}\u{0327}\u{0301}", "m".repeat(64)));
    // Combining marks alone, a CJK ideograph after a mark, and a supplementary starter.
    v.push(format!("{}\u{0301}\u{0301}\u{4E00}\u{0300}\u{1D15E}", "n".repeat(64)));
    v
}

#[test]
fn long_inputs_match_scalar_path() {
    for s in samples() {
        for form in [Form::Nfc, Form::Nfd, Form::Nfkc, Form::Nfkd] {
            let a = normalize_impl(&s, form);
            let b = normalize_scalar(&s, form);
            assert_eq!(&*a, &*b, "form {:?} input {:?}", form, s);
        }
    }
}

#[test]
fn long_inputs_match_reference_normalizer() {
    for s in samples() {
        assert_eq!(&*normalize_impl(&s, Form::Nfc), s.nfc().collect::<String>());
        assert_eq!(&*normalize_impl(&s, Form::Nfd), s.nfd().collect::<String>());
        assert_eq!(&*normalize_impl(&s, Form::Nfkc), s.nfkc().collect::<String>());
        assert_eq!(&*normalize_impl(&s, Form::Nfkd), s.nfkd().collect::<String>());
    }
}

#[test]
fn long_already_normalized_input_is_borrowed() {
    let s = format!("{}\u{00C5}\u{0300}", "a".repeat(80));
    assert!(matches!(normalize_impl(&s, Form::Nfc), Cow::Borrowed(_)));
    let d = format!("{}e\u{0301}", "a".repeat(80));
    assert!(matches!(normalize_impl(&d, Form::Nfd), Cow::Borrowed(_)));
}
