use simd_normalizer::ccc::CharAndCcc;
use simd_normalizer::compose::{compose, compose_combining_sequence, compose_combining_sequence_into};

// ---- compose() pairwise tests ----

#[test]
fn compose_e_acute() {
    assert_eq!(compose('e', '\u{0301}'), Some('\u{00E9}'));
}

#[test]
fn compose_a_ring() {
    assert_eq!(compose('a', '\u{030A}'), Some('\u{00E5}'));
}

#[test]
fn compose_no_composition() {
    assert_eq!(compose('a', 'b'), None);
}

#[test]
fn compose_hangul_lv() {
    assert_eq!(compose('\u{1100}', '\u{1161}'), Some('\u{AC00}'));
}

#[test]
fn compose_hangul_lvt() {
    assert_eq!(compose('\u{AC00}', '\u{11A8}'), Some('\u{AC01}'));
}

#[test]
fn compose_hangul_lv_t_base_rejected() {
    assert_eq!(compose('\u{AC00}', '\u{11A7}'), None);
}

#[test]
fn compose_hangul_wrong_pair() {
    assert_eq!(compose('\u{1161}', '\u{1100}'), None);
}

// ---- compose_combining_sequence() tests ----

fn make_entry(ch: char, ccc: u8) -> CharAndCcc {
    CharAndCcc { ch, ccc }
}

#[test]
fn compose_sequence_single_combining() {
    let combining = [make_entry('\u{0301}', 230)];
    let (starter, remaining) = compose_combining_sequence('e', &combining);
    assert_eq!(starter, '\u{00E9}');
    assert!(remaining.is_empty());
}

#[test]
fn compose_sequence_blocked_same_ccc() {
    // a + tilde (CCC 230) + acute (CCC 230)
    // Acute is BLOCKED by tilde (same CCC), so only a+tilde composes.
    let combining = [
        make_entry('\u{0303}', 230), // tilde
        make_entry('\u{0301}', 230), // acute
    ];
    let (starter, remaining) = compose_combining_sequence('a', &combining);
    assert_eq!(starter, '\u{00E3}'); // a-tilde
    assert_eq!(remaining, vec!['\u{0301}']);
}

#[test]
fn compose_sequence_not_blocked_different_ccc() {
    // o + cedilla (CCC 202) + acute (CCC 230)
    // Cedilla doesn't block acute (202 < 230).
    let combining = [
        make_entry('\u{0327}', 202), // cedilla
        make_entry('\u{0301}', 230), // acute
    ];
    let (starter, remaining) = compose_combining_sequence('o', &combining);
    assert_eq!(starter, '\u{00F3}'); // o-acute
    assert_eq!(remaining, vec!['\u{0327}']);
}

#[test]
fn compose_sequence_hangul_lvt() {
    // L + V + T -> LVT
    let combining = [
        make_entry('\u{1161}', 0), // V
        make_entry('\u{11A8}', 0), // T
    ];
    let (starter, remaining) = compose_combining_sequence('\u{1100}', &combining);
    assert_eq!(starter, '\u{AC01}'); // LVT GAG
    assert!(remaining.is_empty());
}

#[test]
fn compose_sequence_nothing_composes() {
    let combining = [make_entry('\u{0308}', 230)];
    let (starter, remaining) = compose_combining_sequence('z', &combining);
    assert_eq!(starter, 'z');
    assert_eq!(remaining, vec!['\u{0308}']);
}

#[test]
fn compose_sequence_empty() {
    let (starter, remaining) = compose_combining_sequence('A', &[]);
    assert_eq!(starter, 'A');
    assert!(remaining.is_empty());
}

// ---- Additional scenarios ----

#[test]
fn compose_sequence_into_appends_starter_and_rest() {
    let combining = [make_entry('\u{0327}', 202), make_entry('\u{0301}', 230)];
    let mut out = String::from("x");
    compose_combining_sequence_into('o', &combining, &mut out);
    assert_eq!(out, "x\u{00F3}\u{0327}");
}

#[test]
fn kept_starter_blocks_later_marks() {
    let combining = [
        CharAndCcc { ch: 'b', ccc: 0 },
        CharAndCcc { ch: '\u{0301}', ccc: 230 },
    ];
    assert_eq!(compose_combining_sequence('a', &combining), ('a', vec!['b', '\u{0301}']));
    let mut out = String::new();
    compose_combining_sequence_into('a', &combining, &mut out);
    assert_eq!(out, "ab\u{0301}");
}
