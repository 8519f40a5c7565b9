use simd_normalizer::ccc::{CccBuffer, CharAndCcc};
use simd_normalizer::decompose::{decompose, is_cjk_ideograph, DecompForm};

fn decompose_to_vec(c: char, form: DecompForm) -> Vec<CharAndCcc> {
    let mut buf = CccBuffer::new();
    decompose(c, &mut buf, form);
    buf.as_slice().to_vec()
}

// --- ASCII passthrough ---

#[test]
fn test_ascii_passthrough() {
    for cp in 0x20u32..=0x7E {
        let c = char::from_u32(cp).unwrap();
        let result = decompose_to_vec(c, DecompForm::Canonical);
        assert_eq!(result.len(), 1, "ASCII U+{cp:04X} should not decompose");
        assert_eq!(result[0].ch, c);
        assert_eq!(result[0].ccc, 0);
    }
}

#[test]
fn test_nul_passthrough() {
    let result = decompose_to_vec('\0', DecompForm::Canonical);
    assert_eq!(result.len(), 1);
    assert_eq!(result[0].ch, '\0');
}

// --- Hangul syllable decomposition ---

#[test]
fn test_hangul_lv() {
    let result = decompose_to_vec('\u{AC00}', DecompForm::Canonical);
    assert_eq!(result.len(), 2);
    assert_eq!(result[0].ch, '\u{1100}');
    assert_eq!(result[1].ch, '\u{1161}');
}

#[test]
fn test_hangul_lvt() {
    let result = decompose_to_vec('\u{AC01}', DecompForm::Canonical);
    assert_eq!(result.len(), 3);
    assert_eq!(result[0].ch, '\u{1100}');
    assert_eq!(result[1].ch, '\u{1161}');
    assert_eq!(result[2].ch, '\u{11A8}');
}

// --- Decomposition from the Unicode data ---

#[test]
fn test_a_grave_nfd() {
    // U+00C0 A with grave -> U+0041 A + U+0300 combining grave
    let result = decompose_to_vec('\u{00C0}', DecompForm::Canonical);
    assert!(result.len() >= 2, "A-grave should decompose: got {:?}", result);
    assert_eq!(result[0].ch, 'A');
    assert_eq!(result[0].ccc, 0);
    assert_eq!(result[1].ch, '\u{0300}');
    assert_eq!(result[1].ccc, 230);
}

#[test]
fn test_e_acute_nfd() {
    // U+00E9 e with acute -> U+0065 e + U+0301 combining acute
    let result = decompose_to_vec('\u{00E9}', DecompForm::Canonical);
    assert!(result.len() >= 2, "e-acute should decompose: got {:?}", result);
    assert_eq!(result[0].ch, 'e');
    assert_eq!(result[1].ch, '\u{0301}');
}

#[test]
fn test_combining_mark_passthrough() {
    // U+0300 combining grave: no decomposition, CCC=230
    let result = decompose_to_vec('\u{0300}', DecompForm::Canonical);
    assert_eq!(result.len(), 1);
    assert_eq!(result[0].ch, '\u{0300}');
    assert_eq!(result[0].ccc, 230);
}

#[test]
fn test_cjk_passthrough() {
    let result = decompose_to_vec('\u{4E00}', DecompForm::Canonical);
    assert_eq!(result.len(), 1);
    assert_eq!(result[0].ch, '\u{4E00}');
    assert_eq!(result[0].ccc, 0);
}

#[test]
fn test_emoji_passthrough() {
    let result = decompose_to_vec('\u{1F600}', DecompForm::Canonical);
    assert_eq!(result.len(), 1);
    assert_eq!(result[0].ch, '\u{1F600}');
}

// --- Buffer accumulation ---

#[test]
fn test_multiple_chars_into_buffer() {
    let mut buf = CccBuffer::new();
    decompose('A', &mut buf, DecompForm::Canonical);
    decompose('\u{AC00}', &mut buf, DecompForm::Canonical); // -> 2 jamos
    decompose('B', &mut buf, DecompForm::Canonical);
    let slice = buf.as_slice();
    assert_eq!(slice.len(), 4);
    assert_eq!(slice[0].ch, 'A');
    assert_eq!(slice[1].ch, '\u{1100}');
    assert_eq!(slice[2].ch, '\u{1161}');
    assert_eq!(slice[3].ch, 'B');
}

// --- Additional scenarios ---

#[test]
fn compatibility_decomposition_of_ligature() {
    // U+FB01 LATIN SMALL LIGATURE FI: canonical maps to itself, compatible to "fi".
    let canonical = decompose_to_vec('\u{FB01}', DecompForm::Canonical);
    assert_eq!(canonical.len(), 1);
    assert_eq!(canonical[0].ch, '\u{FB01}');
    let compat = decompose_to_vec('\u{FB01}', DecompForm::Compatible);
    let chars: Vec<char> = compat.iter().map(|e| e.ch).collect();
    assert_eq!(chars, vec!['f', 'i']);
}

#[test]
fn cjk_ideograph_ranges() {
    assert!(is_cjk_ideograph(0x4E00));
    assert!(is_cjk_ideograph(0x20000));
    assert!(is_cjk_ideograph(0x323AF));
    assert!(!is_cjk_ideograph(0x323B0));
    assert!(!is_cjk_ideograph(0x4DC0));
}
