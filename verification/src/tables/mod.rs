//! Unicode character data: canonical combining classes, decompositions,
//! compositions, quick-check properties, simple case folding and confusable
//! prototypes, together with the packed trie-value helpers.
//!
//! The character data is read from the `unicode-normalization`,
//! `unicode-case-mapping` and `unicode-security` crates; every lookup below
//! that calls one of them states its result through a named function of its
//! argument.

use vstd::prelude::*;

use unicode_normalization::UnicodeNormalization;


verus! {

// ---------------------------------------------------------------------------
// Bit-field constants for packed decomposition trie values
// ---------------------------------------------------------------------------

/// First character of decomposition combines backwards.
pub const BACKWARD_COMBINING: u32 = 0x8000_0000;
/// Decomposition doesn't round-trip via NFC.
pub const NON_ROUND_TRIP: u32 = 0x4000_0000;
/// Code point needs decomposition (not a self-mapping).
pub const HAS_DECOMPOSITION: u32 = 0x2000_0000;
/// If set, DECOMP_INFO is an offset into the expansion table (not a singleton).
pub const IS_EXPANSION: u32 = 0x0100_0000;
/// Shift to extract the CCC byte from a decomposition trie value.
pub const CCC_SHIFT: u32 = 16;
/// Mask to isolate the CCC byte after shifting.
pub const CCC_MASK: u32 = 0x00FF_0000;
/// Mask for the 16-bit decomposition info field.
pub const DECOMP_INFO_MASK: u32 = 0xFFFF;

/// The CCC byte (bits 23..16) of a packed trie value.
pub open spec fn spec_ccc_from_trie_value(v: u32) -> u8 {
    ((v & CCC_MASK) >> CCC_SHIFT) as u8
}

/// Extract CCC from a decomposition trie value.
pub fn ccc_from_trie_value(v: u32) -> (r: u8)
    ensures
        r == spec_ccc_from_trie_value(v),
        r as u32 == (v / 0x10000) % 0x100,
{
    assert(((v & 0x00FF_0000u32) >> 16u32) == (v / 0x10000) % 0x100) by (bit_vector);
    assert(((v & 0x00FF_0000u32) >> 16u32) < 0x100) by (bit_vector);
    ((v & CCC_MASK) >> CCC_SHIFT) as u8
}

// ---------------------------------------------------------------------------
// Names for what the Unicode data crates return
// ---------------------------------------------------------------------------

/// `unicode_normalization::char::canonical_combining_class(c)`.
pub uninterp spec fn ccc_table_of(c: char) -> u8;

/// The code points whose class is 0 by range: those that map to themselves
/// by range, the rest of Latin-1, and the Hangul syllables.
pub open spec fn class_zero_by_range(c: char) -> bool {
    self_decomposing_by_range(c as u32) || (c as u32) < 0x300 || kana_by_range(c as u32)
        || syllable_by_range(c as u32)
}

/// The code points that decompose to themselves with class 0 by their
/// range: everything below U+00A0, the CJK unified ideographs
/// (U+3400..U+4DBF, U+4E00..U+9FFF, U+20000..U+2EBE0, U+30000..U+323AF), the
/// Hangul Jamo block U+1100..U+11FF, U+1F252..U+1FBEF, and everything from
/// U+20000 on but the compatibility ideographs U+2F800..U+2FA1F.
pub open spec fn self_decomposing_by_range(cp: u32) -> bool {
    cp < 0xA0 || (0x4E00 <= cp <= 0x9FFF) || (0x3400 <= cp <= 0x4DBF) || (0x20000 <= cp <= 0x2EBE0)
        || (0x30000 <= cp <= 0x323AF) || (0x1100 <= cp <= 0x11FF) || (0x1F252 <= cp <= 0x1FBEF) || (
    cp >= 0x20000 && !(0x2F800 <= cp <= 0x2FA1F))
}

/// The Hangul syllables U+AC00..U+D7A3.
pub open spec fn syllable_by_range(cp: u32) -> bool {
    0xAC00 <= cp <= 0xD7A3
}

/// The jamo a Hangul syllable decomposes into, by the arithmetic of the
/// Unicode Standard (section 3.12): `L V`, or `L V T` when it has a
/// trailing consonant.
pub open spec fn syllable_jamo(c: char) -> Seq<char> {
    let s = (c as u32 - 0xAC00) as u32;
    let l = (0x1100 + s / 588) as u32;
    let v = (0x1161 + (s % 588) / 28) as u32;
    let t = (0x11A7 + s % 28) as u32;
    if t == 0x11A7 {
        seq![l as char, v as char]
    } else {
        seq![l as char, v as char, t as char]
    }
}

/// The Hiragana and Katakana letters and marks of class 0 that every
/// quick-check table answers Yes for: U+3041..U+3098, U+309D, U+309E and
/// U+30A0..U+30FE (not the combining marks U+3099, U+309A, nor U+309B,
/// U+309C, U+309F, U+30FF, which have compatibility decompositions).
pub open spec fn kana_by_range(cp: u32) -> bool {
    (0x3041 <= cp <= 0x3098) || cp == 0x309D || cp == 0x309E || (0x30A0 <= cp <= 0x30FE)
}

/// The code points whose quick-check value is Yes in every form: ASCII,
/// the CJK unified ideographs of the BMP, and the supplementary ranges
/// U+1F252..U+1FBEF and from U+20000 on, except the compatibility
/// ideographs U+2F800..U+2FA1F.
pub open spec fn yes_in_every_form(cp: u32) -> bool {
    cp < 0x80 || (0x4E00 <= cp <= 0x9FFF) || (0x3400 <= cp <= 0x4DBF) || (cp >= 0x20000 && !(0x2F800
        <= cp <= 0x2FA1F)) || (0x1F252 <= cp <= 0x1FBEF)
}

/// The code points whose NFC quick-check value is Yes by range: those of
/// every form, everything below U+0300, the Hangul syllables and the kana
/// above.
pub open spec fn nfc_yes_by_range(cp: u32) -> bool {
    yes_in_every_form(cp) || cp < 0x300 || (0xAC00 <= cp <= 0xD7A3) || kana_by_range(cp)
}

/// The code points whose NFKC quick-check value is Yes by range: those of
/// every form, everything below U+00A0, U+00C0..U+00FF, the Hangul
/// syllables and the kana above.
pub open spec fn nfkc_yes_by_range(cp: u32) -> bool {
    yes_in_every_form(cp) || cp < 0xA0 || (0xC0 <= cp < 0x100) || (0xAC00 <= cp <= 0xD7A3)
        || kana_by_range(cp)
}

/// The code points whose NFD quick-check value is Yes by range: those of
/// every form and everything below U+00C0.
pub open spec fn nfd_yes_by_range(cp: u32) -> bool {
    yes_in_every_form(cp) || cp < 0xC0
}

/// The code points whose NFKD quick-check value is Yes by range: those of
/// every form and everything below U+00A0.
pub open spec fn nfkd_yes_by_range(cp: u32) -> bool {
    yes_in_every_form(cp) || cp < 0xA0
}

/// The canonical combining class of `c`: 0 for the code points whose class
/// is 0 by range, the class table's value otherwise (the table gives those
/// code points class 0 too).
pub open spec fn canonical_combining_class_of(c: char) -> u8 {
    if class_zero_by_range(c) {
        0
    } else {
        ccc_table_of(c)
    }
}

/// `c.nfd()` collected: the canonical decomposition of the one-character string `s`.
pub uninterp spec fn nfd_of(s: Seq<char>) -> Seq<char>;

/// `c.nfkd()` collected: the compatibility decomposition of the one-character string `s`.
pub uninterp spec fn nfkd_of(s: Seq<char>) -> Seq<char>;

/// `unicode_normalization::char::compose(a, b)`.
pub uninterp spec fn compose_of(a: char, b: char) -> Option<char>;

/// `unicode_normalization::is_nfc_quick` on the characters of `s`: 0 = Yes, 1 = Maybe, 2 = No.
pub uninterp spec fn is_nfc_quick_of(s: Seq<char>) -> u8;

/// `unicode_normalization::is_nfd_quick` on the characters of `s`: 0 = Yes, 1 = Maybe, 2 = No.
pub uninterp spec fn is_nfd_quick_of(s: Seq<char>) -> u8;

/// `unicode_normalization::is_nfkc_quick` on the characters of `s`: 0 = Yes, 1 = Maybe, 2 = No.
pub uninterp spec fn is_nfkc_quick_of(s: Seq<char>) -> u8;

/// `unicode_normalization::is_nfkd_quick` on the characters of `s`: 0 = Yes, 1 = Maybe, 2 = No.
pub uninterp spec fn is_nfkd_quick_of(s: Seq<char>) -> u8;

/// `unicode_case_mapping::case_folded(c)` as a code point (`None`: folds to itself).
pub uninterp spec fn case_folded_of(c: char) -> Option<u32>;

/// `unicode_security::skeleton` of the string `s`, collected.
pub uninterp spec fn skeleton_of(s: Seq<char>) -> Seq<char>;

// ---------------------------------------------------------------------------
// Trusted calls into the data crates
// ---------------------------------------------------------------------------

/// Calls `unicode_normalization::char::canonical_combining_class`. Claims
/// that the result is the named value for `c`, and that it is 0 for
/// everything below U+0300, the kana of `kana_by_range`, CJK ideographs, Hangul jamo, Hangul syllables
/// and the supplementary ranges the quick check accepts by range: the
/// crate's class table lists none of them, and its lookup answers 0 for a
/// character it does not list.
#[verifier::external_body]
fn ccc_of_char(c: char) -> (r: u8)
    ensures
        r == ccc_table_of(c),
        class_zero_by_range(c) ==> r == 0,
{
    unicode_normalization::char::canonical_combining_class(c)
}

/// A character of a full decomposition in `form`: it is no Hangul syllable
/// and the data decomposes it to itself in `form`.
pub open spec fn final_decomposed_char(d: char, form: DecompForm) -> bool {
    &&& !syllable_by_range(d as u32)
    &&& data_decomposition_of(d, form) == seq![d]
}

/// Every character of the data's decomposition of `c` in `form` is final.
pub open spec fn data_decomposition_is_final(c: char, form: DecompForm) -> bool {
    forall|i: int|
        0 <= i < data_decomposition_of(c, form).len() ==> #[trigger] final_decomposed_char(
            data_decomposition_of(c, form)[i],
            form,
        )
}

/// What the composition table shows of a pair `a`, `b` and its composite `p`:
/// none of `p`, `b` maps to itself by range, is a syllable or lies in
/// U+00A0..U+00BF; `a` is no syllable and maps to itself by range only when
/// it is ASCII; an ASCII `a`, or one in U+00A0..U+00BF, decomposes
/// canonically to itself (and an ASCII one compatibly too).
pub open spec fn table_pair(a: char, b: char, p: char) -> bool {
    &&& !self_decomposing_by_range(p as u32) && !syllable_by_range(p as u32)
    &&& !self_decomposing_by_range(b as u32) && !syllable_by_range(b as u32)
    &&& !syllable_by_range(a as u32)
    &&& !(0xA0 <= p as u32 && (p as u32) < 0xC0) && !(0xA0 <= b as u32 && (b as u32) < 0xC0)
    &&& 0xA0 <= a as u32 && (a as u32) < 0xC0 ==> nfd_of(seq![a]) == seq![a]
    &&& nfkd_of(seq![a]) == seq![a] ==> nfd_of(seq![a]) == seq![a]
    &&& nfkd_of(seq![b]) == seq![b] ==> nfd_of(seq![b]) == seq![b]
    &&& nfkd_of(seq![p]) != seq![p]
    &&& self_decomposing_by_range(a as u32) ==> (a as u32) <= 0x7F && nfd_of(seq![a])
        == seq![a] && nfkd_of(seq![a]) == seq![a]
}

/// Calls `UnicodeNormalization::nfd` on the one-character string `c` and
/// collects the characters. Claims that they are the named value, and that
/// each of them is final: the crate decomposes through its
/// `canonical_fully_decomposed` table (whose mappings are complete and hold
/// no Hangul syllable) or, for a Hangul syllable, the Hangul arithmetic
/// (which yields its jamo).
/// The table has no entry for U+00A0..U+00BF nor for a code point of
/// `self_decomposing_by_range`, which therefore decompose to themselves.
#[verifier::external_body]
fn nfd_of_char(c: char) -> (r: Vec<char>)
    ensures
        r@ == nfd_of(seq![c]),
        0xA0 <= c as u32 && (c as u32) < 0xC0 ==> r@ == seq![c],
        r@ != seq![c] ==> nfkd_of(seq![c]) != seq![c] && data_decomposition_is_final(
            c,
            DecompForm::Compatible,
        ),
        forall|i: int| 0 <= i < r@.len() ==> #[trigger] final_decomposed_char(r@[i], DecompForm::Canonical),
        syllable_by_range(c as u32) ==> r@ == syllable_jamo(c),
        self_decomposing_by_range(c as u32) ==> r@ == seq![c],
{
    c.nfd().collect()
}

/// Calls `UnicodeNormalization::nfkd` on the one-character string `c` and
/// collects the characters. Claims that they are the named value, and that
/// each of them is final: the crate decomposes through its
/// `compatibility_fully_decomposed` table, falling back to
/// `canonical_fully_decomposed` (complete mappings that hold no Hangul
/// syllable), or, for a Hangul syllable, the Hangul arithmetic. Neither
/// table has an entry for a code point of `self_decomposing_by_range`.
#[verifier::external_body]
fn nfkd_of_char(c: char) -> (r: Vec<char>)
    ensures
        r@ == nfkd_of(seq![c]),
        forall|i: int|
            0 <= i < r@.len() ==> #[trigger] final_decomposed_char(r@[i], DecompForm::Compatible),
        syllable_by_range(c as u32) ==> r@ == syllable_jamo(c),
        self_decomposing_by_range(c as u32) ==> r@ == seq![c],
{
    c.nfkd().collect()
}

/// Calls `unicode_normalization::char::compose`. Claims that the result is
/// the named value for the pair, and that a composite decomposes (canonically
/// and compatibly) to the decomposition of `a` followed by that of `b`: the
/// crate's composition table pairs `a`, `b` with the primary composite whose
/// full decomposition is theirs, and its Hangul arithmetic joins jamo. Every
/// composite has class 0, is not a quick-check No for NFC (nor for NFKC when
/// its compatibility decomposition is its canonical one), and its
/// decompositions are complete (the crate's decomposition tables are full
/// decompositions, every character of which is final). Outside the
/// Hangul arithmetic, what the table holds: no composite is ASCII, a CJK
/// ideograph, a jamo or a Hangul syllable; no second character is one of
/// these either; a first character is no CJK ideograph, jamo or syllable,
/// and an ASCII first character decomposes to itself. No pair, Hangul or
/// not, has a second character in `nfc_yes_by_range` (those have NFC
/// quick-check value Yes, which means they combine with nothing before
/// them).
#[verifier::external_body]
fn compose_chars(a: char, b: char) -> (r: Option<char>)
    ensures
        r == compose_of(a, b),
        r matches Some(p) ==> nfd_of(seq![p]) == nfd_of(seq![a]) + nfd_of(seq![b]) && nfkd_of(seq![p])
            == nfkd_of(seq![a]) + nfkd_of(seq![b]),
        r matches Some(p) ==> ccc_table_of(p) == 0 && is_nfc_quick_of(seq![p]) < 2,
        r matches Some(p) ==> (nfkd_of(seq![p]) == nfd_of(seq![p]) ==> is_nfkc_quick_of(seq![p]) < 2),
        r matches Some(p) ==> data_decomposition_is_final(p, DecompForm::Canonical)
            && data_decomposition_is_final(p, DecompForm::Compatible),
        r is Some && crate::hangul::spec_compose_hangul(a, b) is None ==> table_pair(a, b, r->0),
        r is Some ==> !nfc_yes_by_range(b as u32),
{
    unicode_normalization::char::compose(a, b)
}

/// Calls `unicode_normalization::is_nfc_quick` on the one-character string
/// `c`, mapping Yes/Maybe/No to 0/1/2. Its table lists no code point of `nfc_yes_by_range`, so
/// those are Yes. Its table lists no character of
/// U+00C0..U+00FF, which are therefore Yes. The crate's `qc_nfc` table answers
/// No only for characters with a canonical decomposition, so never for a
/// code point that maps to itself by range or lies in U+00A0..U+00BF. As for
/// any character,
/// the decomposition of one answered No is complete.
#[verifier::external_body]
fn nfc_quick_of_char(c: char) -> (r: u8)
    ensures
        r == is_nfc_quick_of(seq![c]),
        r <= 2,
        self_decomposing_by_range(c as u32) ==> r < 2,
        r == 2 ==> nfd_of(seq![c]) != seq![c] && data_decomposition_is_final(c, DecompForm::Canonical),
        r == 2 ==> nfkd_of(seq![c]) != seq![c] && data_decomposition_is_final(
            c,
            DecompForm::Compatible,
        ),
        0xA0 <= c as u32 && (c as u32) < 0xC0 ==> r < 2,
        0xC0 <= c as u32 && (c as u32) < 0x100 ==> r == 0,
        nfc_yes_by_range(c as u32) ==> r == 0,
{
    match unicode_normalization::is_nfc_quick(core::iter::once(c)) {
        unicode_normalization::IsNormalized::Yes => 0,
        unicode_normalization::IsNormalized::Maybe => 1,
        unicode_normalization::IsNormalized::No => 2,
    }
}

/// Calls `unicode_normalization::is_nfd_quick` on the one-character string
/// `c`, mapping Yes/Maybe/No to 0/1/2. Its table lists no code point of `nfd_yes_by_range`, so
/// those are Yes. The crate documents No as "the text
/// is definitely not normalized": then `c` is not its own decomposition.
/// Its table answers No exactly for the characters that have a
/// decomposition (Hangul syllables among them), so for no code point that
/// maps to itself by range nor any in U+00A0..U+00BF; and, as for any character, the decomposition of
/// one answered No is complete. A character it does not answer No is no
/// syllable and decomposes to itself in the data.
#[verifier::external_body]
fn nfd_quick_of_char(c: char) -> (r: u8)
    ensures
        r == is_nfd_quick_of(seq![c]),
        r <= 2,
        self_decomposing_by_range(c as u32) ==> r < 2,
        r == 2 ==> nfd_of(seq![c]) != seq![c] && data_decomposition_is_final(c, DecompForm::Canonical),
        r == 2 ==> nfkd_of(seq![c]) != seq![c] && data_decomposition_is_final(
            c,
            DecompForm::Compatible,
        ),
        r < 2 ==> final_decomposed_char(c, DecompForm::Canonical),
        0xA0 <= c as u32 && (c as u32) < 0xC0 ==> r < 2,
        nfd_yes_by_range(c as u32) ==> r == 0,
{
    match unicode_normalization::is_nfd_quick(core::iter::once(c)) {
        unicode_normalization::IsNormalized::Yes => 0,
        unicode_normalization::IsNormalized::Maybe => 1,
        unicode_normalization::IsNormalized::No => 2,
    }
}

/// Calls `unicode_normalization::is_nfkc_quick` on the one-character string
/// `c`, mapping Yes/Maybe/No to 0/1/2. Its table lists no code point of `nfkc_yes_by_range`, so
/// those are Yes. Its table lists no character of
/// U+00C0..U+00FF, which are therefore Yes. Its `qc_nfkc` table
/// answers No only for characters with a compatibility or canonical
/// decomposition, and never for a code point that maps to itself by range.
/// As for any character, the decomposition of one answered No
/// is complete.
#[verifier::external_body]
fn nfkc_quick_of_char(c: char) -> (r: u8)
    ensures
        r == is_nfkc_quick_of(seq![c]),
        r <= 2,
        self_decomposing_by_range(c as u32) ==> r < 2,
        r == 2 ==> nfkd_of(seq![c]) != seq![c] && data_decomposition_is_final(
            c,
            DecompForm::Compatible,
        ),
        0xC0 <= c as u32 && (c as u32) < 0x100 ==> r == 0,
        nfkc_yes_by_range(c as u32) ==> r == 0,
{
    match unicode_normalization::is_nfkc_quick(core::iter::once(c)) {
        unicode_normalization::IsNormalized::Yes => 0,
        unicode_normalization::IsNormalized::Maybe => 1,
        unicode_normalization::IsNormalized::No => 2,
    }
}

/// Calls `unicode_normalization::is_nfkd_quick` on the one-character string
/// `c`, mapping Yes/Maybe/No to 0/1/2. Its table lists no code point of `nfkd_yes_by_range`, so
/// those are Yes. The crate documents No as "the text
/// is definitely not normalized": then `c` is not its own decomposition.
/// Its table answers No exactly for the characters that have a
/// decomposition (Hangul syllables among them), so for no code point that
/// maps to itself by range; and, as for any character, the decomposition of
/// one answered No is complete. A character it does not answer No is no
/// syllable and decomposes to itself in the data.
#[verifier::external_body]
fn nfkd_quick_of_char(c: char) -> (r: u8)
    ensures
        r == is_nfkd_quick_of(seq![c]),
        r <= 2,
        self_decomposing_by_range(c as u32) ==> r < 2,
        r == 2 ==> nfkd_of(seq![c]) != seq![c] && data_decomposition_is_final(
            c,
            DecompForm::Compatible,
        ),
        r < 2 ==> final_decomposed_char(c, DecompForm::Compatible),
        nfkd_yes_by_range(c as u32) ==> r == 0,
{
    match unicode_normalization::is_nfkd_quick(core::iter::once(c)) {
        unicode_normalization::IsNormalized::Yes => 0,
        unicode_normalization::IsNormalized::Maybe => 1,
        unicode_normalization::IsNormalized::No => 2,
    }
}

/// What the simple case-folding table shows of `c`: a folding target is a
/// scalar value, no ASCII capital letter and not U+0130, and has no entry of
/// its own (it folds to itself).
pub open spec fn folding_is_final(c: char) -> bool {
    case_folded_of(c) matches Some(v) ==> crate::text::is_scalar_value(v) && !(0x41 <= v <= 0x5A) && v
        != 0x130 && case_folded_of(v as char) is None
}

/// Calls `unicode_case_mapping::case_folded`, giving the folded code point
/// (`None` when the character folds to itself). Besides naming the result,
/// claims what the crate's generated match table (`case_folding_simple`)
/// shows: every target is a scalar value, none is an ASCII capital or
/// U+0130, and no target is itself a key of the table.
#[verifier::external_body]
fn case_folded_char(c: char) -> (r: Option<u32>)
    ensures
        r == case_folded_of(c),
        r matches Some(v) ==> crate::text::is_scalar_value(v) && !(0x41 <= v <= 0x5A) && v != 0x130
            && case_folded_of(v as char) is None,
{
    unicode_case_mapping::case_folded(c).map(|n| n.get())
}

/// Every character of the skeleton of `c` is its own skeleton and
/// decomposes canonically to itself.
pub open spec fn skeleton_is_final(c: char) -> bool {
    forall|i: int|
        0 <= i < skeleton_of(seq![c]).len() ==> skeleton_of(
            seq![#[trigger] skeleton_of(seq![c])[i]],
        ) == seq![skeleton_of(seq![c])[i]] && final_decomposed_char(
            skeleton_of(seq![c])[i],
            DecompForm::Canonical,
        )
}

/// Calls `unicode_security::skeleton` on the one-character string `c` and
/// collects the characters. Claims that they are the named value, and what
/// the crate's tables show of them: each is a prototype of the confusables
/// table (which maps no prototype further and holds no default-ignorable
/// one) in canonical decomposition, so each is its own skeleton and
/// decomposes canonically to itself.
#[verifier::external_body]
fn skeleton_of_char(c: char) -> (r: Vec<char>)
    ensures
        r@ == skeleton_of(seq![c]),
        forall|i: int|
            0 <= i < r@.len() ==> skeleton_of(seq![#[trigger] r@[i]]) == seq![r@[i]]
                && final_decomposed_char(r@[i], DecompForm::Canonical),
{
    let mut buf = [0u8; 4];
    unicode_security::skeleton(c.encode_utf8(&mut buf)).collect()
}

// ---------------------------------------------------------------------------
// Lookups used by the normalizer and friends
// ---------------------------------------------------------------------------

/// Look up the Canonical Combining Class of a character.
pub fn lookup_ccc(c: char) -> (r: u8)
    ensures
        r == canonical_combining_class_of(c),
{
    ccc_of_char(c)
}

/// Which decomposition mapping to apply.
#[derive(Clone, Copy, Debug, PartialEq, Eq, Structural)]
pub enum DecompForm {
    /// Canonical decomposition (NFD, NFC).
    Canonical,
    /// Compatibility decomposition (NFKD, NFKC).
    Compatible,
}

/// The decomposition of `c` in the given form, as the data crate reports it.
pub open spec fn data_decomposition_of(c: char, form: DecompForm) -> Seq<char> {
    match form {
        DecompForm::Canonical => nfd_of(seq![c]),
        DecompForm::Compatible => nfkd_of(seq![c]),
    }
}

/// The full decomposition of `c` in the given form: itself for a code
/// point that decomposes to itself by range, its jamo for a Hangul
/// syllable, otherwise what the data crate reports, whose characters the
/// lookups guarantee to be final (were one not, `c` would stand for
/// itself).
pub open spec fn full_decomposition_of(c: char, form: DecompForm) -> Seq<char> {
    if self_decomposing_by_range(c as u32) {
        seq![c]
    } else if syllable_by_range(c as u32) {
        syllable_jamo(c)
    } else if data_decomposition_is_final(c, form) {
        data_decomposition_of(c, form)
    } else {
        seq![c]
    }
}

/// The full decomposition of `c` in the given form. A character with no
/// compatibility decomposition has no canonical one either, and the code
/// points U+00A0..U+00BF have no canonical decomposition.
pub open spec fn decomposition_of(c: char, form: DecompForm) -> Seq<char> {
    if form is Canonical && ((0xA0 <= c as u32 && (c as u32) < 0xC0) || full_decomposition_of(
        c,
        DecompForm::Compatible,
    ) == seq![c]) {
        seq![c]
    } else {
        full_decomposition_of(c, form)
    }
}

/// Look up the full canonical decomposition of a character, together with
/// the character's own combining class.
pub fn lookup_canonical_decomp(c: char) -> (r: (Vec<char>, u8))
    ensures
        r.0@ == nfd_of(seq![c]),
        0xA0 <= c as u32 && (c as u32) < 0xC0 ==> r.0@ == seq![c],
        r.0@ != seq![c] ==> nfkd_of(seq![c]) != seq![c] && data_decomposition_is_final(
            c,
            DecompForm::Compatible,
        ),
        forall|i: int| 0 <= i < r.0@.len() ==> #[trigger] final_decomposed_char(r.0@[i], DecompForm::Canonical),
        syllable_by_range(c as u32) ==> r.0@ == syllable_jamo(c),
        r.1 == canonical_combining_class_of(c),
        self_decomposing_by_range(c as u32) ==> r.0@ == seq![c],
{
    (nfd_of_char(c), ccc_of_char(c))
}

/// Look up the full compatibility decomposition of a character, together
/// with the character's own combining class.
pub fn lookup_compat_decomp(c: char) -> (r: (Vec<char>, u8))
    ensures
        r.0@ == nfkd_of(seq![c]),
        forall|i: int|
            0 <= i < r.0@.len() ==> #[trigger] final_decomposed_char(r.0@[i], DecompForm::Compatible),
        syllable_by_range(c as u32) ==> r.0@ == syllable_jamo(c),
        r.1 == canonical_combining_class_of(c),
        self_decomposing_by_range(c as u32) ==> r.0@ == seq![c],
{
    (nfkd_of_char(c), ccc_of_char(c))
}


/// Compose a `(starter, combining)` pair from the composition table.
pub fn compose_pair(a: char, b: char) -> (r: Option<char>)
    ensures
        r == compose_of(a, b),
        r matches Some(p) ==> nfd_of(seq![p]) == nfd_of(seq![a]) + nfd_of(seq![b]) && nfkd_of(seq![p])
            == nfkd_of(seq![a]) + nfkd_of(seq![b]),
        r matches Some(p) ==> ccc_table_of(p) == 0 && is_nfc_quick_of(seq![p]) < 2,
        r matches Some(p) ==> (nfkd_of(seq![p]) == nfd_of(seq![p]) ==> is_nfkc_quick_of(seq![p]) < 2),
        r matches Some(p) ==> data_decomposition_is_final(p, DecompForm::Canonical)
            && data_decomposition_is_final(p, DecompForm::Compatible),
        r is Some && crate::hangul::spec_compose_hangul(a, b) is None ==> table_pair(a, b, r->0),
        r is Some ==> !nfc_yes_by_range(b as u32),
{
    compose_chars(a, b)
}

/// NFC quick-check: 0=Yes, 1=Maybe, 2=No.
pub fn lookup_nfc_qc(c: char) -> (r: u8)
    ensures
        r == is_nfc_quick_of(seq![c]),
        r <= 2,
        self_decomposing_by_range(c as u32) ==> r < 2,
        r == 2 ==> nfd_of(seq![c]) != seq![c] && data_decomposition_is_final(c, DecompForm::Canonical),
        r == 2 ==> nfkd_of(seq![c]) != seq![c] && data_decomposition_is_final(
            c,
            DecompForm::Compatible,
        ),
        0xA0 <= c as u32 && (c as u32) < 0xC0 ==> r < 2,
        0xC0 <= c as u32 && (c as u32) < 0x100 ==> r == 0,
        nfc_yes_by_range(c as u32) ==> r == 0,
{
    nfc_quick_of_char(c)
}

/// NFD quick-check: 0=Yes, 1=Maybe, 2=No.
pub fn lookup_nfd_qc(c: char) -> (r: u8)
    ensures
        r == is_nfd_quick_of(seq![c]),
        r <= 2,
        self_decomposing_by_range(c as u32) ==> r < 2,
        r == 2 ==> nfd_of(seq![c]) != seq![c] && data_decomposition_is_final(c, DecompForm::Canonical),
        r == 2 ==> nfkd_of(seq![c]) != seq![c] && data_decomposition_is_final(
            c,
            DecompForm::Compatible,
        ),
        r < 2 ==> final_decomposed_char(c, DecompForm::Canonical),
        0xA0 <= c as u32 && (c as u32) < 0xC0 ==> r < 2,
        nfd_yes_by_range(c as u32) ==> r == 0,
{
    nfd_quick_of_char(c)
}

/// NFKC quick-check: 0=Yes, 1=Maybe, 2=No.
pub fn lookup_nfkc_qc(c: char) -> (r: u8)
    ensures
        r == is_nfkc_quick_of(seq![c]),
        r <= 2,
        self_decomposing_by_range(c as u32) ==> r < 2,
        r == 2 ==> nfkd_of(seq![c]) != seq![c] && data_decomposition_is_final(
            c,
            DecompForm::Compatible,
        ),
        0xC0 <= c as u32 && (c as u32) < 0x100 ==> r == 0,
        nfkc_yes_by_range(c as u32) ==> r == 0,
{
    nfkc_quick_of_char(c)
}

/// NFKD quick-check: 0=Yes, 1=Maybe, 2=No.
pub fn lookup_nfkd_qc(c: char) -> (r: u8)
    ensures
        r == is_nfkd_quick_of(seq![c]),
        r <= 2,
        self_decomposing_by_range(c as u32) ==> r < 2,
        r == 2 ==> nfkd_of(seq![c]) != seq![c] && data_decomposition_is_final(
            c,
            DecompForm::Compatible,
        ),
        r < 2 ==> final_decomposed_char(c, DecompForm::Compatible),
        nfkd_yes_by_range(c as u32) ==> r == 0,
{
    nfkd_quick_of_char(c)
}

/// Simple case folding (status C+S) of `c` from the case-folding table, as
/// a code point; `None` when `c` folds to itself.
pub fn lookup_casefold(c: char) -> (r: Option<u32>)
    ensures
        r == case_folded_of(c),
        folding_is_final(c),
{
    case_folded_char(c)
}

/// The skeleton of the one-character string `c` as `unicode_security`
/// computes it: `c` decomposed, default-ignorable characters dropped, each
/// remaining character replaced by its UTS #39 prototype, and the result
/// decomposed again. It is empty when `c` decomposes only to
/// default-ignorable characters.
pub fn lookup_confusable(c: char) -> (r: Vec<char>)
    ensures
        r@ == skeleton_of(seq![c]),
        skeleton_is_final(c),
{
    skeleton_of_char(c)
}

} // verus!
