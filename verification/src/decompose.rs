//! Canonical and compatible decomposition engine.
//!
//! Characters are fully decomposed, with results collected into a
//! CccBuffer for subsequent canonical ordering. ASCII and CJK ideographs
//! map to themselves; all other characters, Hangul syllables included, go
//! through the decomposition data.

use vstd::prelude::*;

use crate::ccc::{entry, CccBuffer, CharAndCcc};
use crate::hangul;
use crate::tables;

pub use crate::tables::DecompForm;

verus! {

/// The combining class used for a character: 0 for ASCII, else the data's value.
pub open spec fn char_ccc(c: char) -> u8 {
    if c as u32 <= 0x7F {
        0
    } else {
        tables::canonical_combining_class_of(c)
    }
}

proof fn lemma_with_classes(d: Seq<char>)
    ensures
        with_classes(d).len() == d.len(),
        forall|k: int| 0 <= k < d.len() ==> #[trigger] with_classes(d)[k] == entry(d[k], char_ccc(d[k])),
{
}

/// A code point in one of the CJK Unified Ideograph blocks (no decomposition, class 0).
pub open spec fn spec_is_cjk_ideograph(cp: u32) -> bool {
    (0x4E00 <= cp <= 0x9FFF) || (0x3400 <= cp <= 0x4DBF) || (0x20000 <= cp <= 0x2EBE0) || (0x30000
        <= cp <= 0x323AF)
}

/// Code points that decompose to themselves with class 0 by range: ASCII
/// and the C1 controls (below U+00A0), CJK ideographs, the Hangul Jamo block,
/// and the supplementary ranges the quick check accepts by range.
pub open spec fn spec_maps_to_itself(cp: u32) -> bool {
    cp < 0xA0 || spec_is_cjk_ideograph(cp) || hangul::spec_is_hangul_jamo(cp) || (cp >= 0x10000
        && crate::quick_check::spec_is_supp_safe(cp))
}

/// Whether `cp` decomposes to itself with class 0 by range.
pub fn maps_to_itself(cp: u32) -> (r: bool)
    ensures
        r == spec_maps_to_itself(cp),
{
    cp < 0xA0 || is_cjk_ideograph(cp) || (0x1100 <= cp && cp <= 0x11FF) || (cp >= 0x10000
        && crate::quick_check::is_supp_safe(cp))
}

/// Pair each character with its combining class.
pub open spec fn with_classes(d: Seq<char>) -> Seq<CharAndCcc> {
    Seq::new(d.len(), |k: int| entry(d[k], char_ccc(d[k])))
}

/// Pair each character with class 0.
pub open spec fn as_starters(d: Seq<char>) -> Seq<CharAndCcc> {
    Seq::new(d.len(), |k: int| entry(d[k], 0))
}

/// The entries (character, class) that `c` decomposes to in `form`.
pub open spec fn decomposition_entries(c: char, form: DecompForm) -> Seq<CharAndCcc> {
    if spec_maps_to_itself(c as u32) {
        seq![CharAndCcc { ch: c, ccc: 0 }]
    } else if hangul::spec_is_hangul_syllable(c) {
        as_starters(hangul::hangul_decomposition(c))
    } else {
        with_classes(tables::decomposition_of(c, form))
    }
}

/// The decomposition the pipeline uses for a character is the full
/// decomposition the Unicode data gives, each character with its combining
/// class: a code point that decomposes to itself by range stays itself, a
/// Hangul syllable gives its jamo, and any other character gives what the
/// data crate reports.
pub proof fn lemma_decomposition_is_data(c: char, df: DecompForm)
    ensures
        decomposition_entries(c, df) == with_classes(tables::decomposition_of(c, df)),
{
    if spec_maps_to_itself(c as u32) {
        assert(tables::self_decomposing_by_range(c as u32));
        assert(tables::decomposition_of(c, df) == seq![c]);
        assert(with_classes(seq![c]) =~= decomposition_entries(c, df));
    } else if hangul::spec_is_hangul_syllable(c) {
        hangul::lemma_hangul_decomposition_is_jamo(c);
        let d = hangul::hangul_decomposition(c);
        assert(d =~= tables::syllable_jamo(c));
        assert(tables::decomposition_of(c, df) == d);
        assert forall|k: int| 0 <= k < d.len() implies char_ccc(#[trigger] d[k]) == 0 by {
            assert(hangul::spec_is_hangul_jamo(d[k] as u32));
        }
        assert(with_classes(d) =~= as_starters(d));
    }
}

/// `c` decomposes to itself in `df`: its decomposition is the one entry `c`.
pub open spec fn is_decomposed_char(c: char, df: DecompForm) -> bool {
    decomposition_entries(c, df).len() == 1 && decomposition_entries(c, df)[0].ch == c
}

/// The combining class the decomposition of `c` carries for it.
pub open spec fn decomposed_class(c: char, df: DecompForm) -> u8 {
    decomposition_entries(c, df)[0].ccc
}

/// The entry `e` is final in `df`: its character decomposes to itself, with
/// the entry's class.
pub open spec fn final_entry(e: CharAndCcc, df: DecompForm) -> bool {
    is_decomposed_char(e.ch, df) && decomposed_class(e.ch, df) == e.ccc
}

/// The decomposition of `c` in `df` is complete: every character it yields
/// decomposes to itself, with the class its entry carries.
pub open spec fn fully_decomposes(c: char, df: DecompForm) -> bool {
    forall|j: int|
        0 <= j < decomposition_entries(c, df).len() ==> #[trigger] final_entry(
            decomposition_entries(c, df)[j],
            df,
        )
}

/// A decomposition whose characters are all final in the data is complete.
proof fn lemma_final_chars_fully_decompose(c: char, d: Seq<char>, df: DecompForm)
    requires
        d == tables::decomposition_of(c, df),
        decomposition_entries(c, df) == with_classes(d),
        forall|i: int| 0 <= i < d.len() ==> #[trigger] tables::final_decomposed_char(d[i], df),
    ensures
        fully_decomposes(c, df),
{
    lemma_with_classes(d);
    assert forall|j: int| 0 <= j < d.len() implies #[trigger] final_entry(
        decomposition_entries(c, df)[j],
        df,
    ) by {
        let x = d[j];
        assert(tables::final_decomposed_char(x, df));
        assert(decomposition_entries(c, df)[j] == entry(x, char_ccc(x)));
        if !(spec_maps_to_itself(x as u32)) {
            assert(tables::decomposition_of(x, df) == seq![x]);
            lemma_with_classes(seq![x]);
            assert(decomposition_entries(x, df) =~= seq![entry(x, char_ccc(x))]);
        }
    }
}

/// Every character's decomposition is complete: each character it yields
/// decomposes to itself, with the class its entry carries.
pub proof fn lemma_fully_decomposes(c: char, df: DecompForm)
    ensures
        fully_decomposes(c, df),
{
    if spec_maps_to_itself(c as u32) {
        assert(final_entry(decomposition_entries(c, df)[0], df));
    } else if hangul::spec_is_hangul_syllable(c) {
        hangul::lemma_hangul_decomposition_is_jamo(c);
        let es = decomposition_entries(c, df);
        let d = hangul::hangul_decomposition(c);
        assert forall|j: int| 0 <= j < es.len() implies #[trigger] final_entry(es[j], df) by {
            assert(es[j] == entry(d[j], 0));
            assert(hangul::spec_is_hangul_jamo(d[j] as u32));
        }
    } else {
        let d = tables::decomposition_of(c, df);
        if d != seq![c] {
            assert(tables::data_decomposition_is_final(c, df));
            lemma_final_chars_fully_decompose(c, d, df);
        } else {
            lemma_with_classes(d);
            assert(final_entry(decomposition_entries(c, df)[0], df));
        }
    }
}

/// What the decomposition data reports of `c` makes its decomposition complete.
proof fn lemma_data_fully_decomposes(c: char, d: Seq<char>, df: DecompForm)
    requires
        d == tables::decomposition_of(c, df),
        forall|i: int| 0 <= i < d.len() ==> #[trigger] tables::final_decomposed_char(d[i], df),
        hangul::spec_is_hangul_syllable(c) ==> d == hangul::hangul_decomposition(c) && forall|i: int|
            0 <= i < d.len() ==> #[trigger] tables::canonical_combining_class_of(d[i]) == 0,
    ensures
        fully_decomposes(c, df),
{
    if spec_maps_to_itself(c as u32) {
        assert(final_entry(decomposition_entries(c, df)[0], df));
    } else if hangul::spec_is_hangul_syllable(c) {
        let es = decomposition_entries(c, df);
        assert forall|j: int| 0 <= j < es.len() implies #[trigger] final_entry(es[j], df) by {
            let x = d[j];
            assert(tables::final_decomposed_char(x, df));
            assert(tables::canonical_combining_class_of(x) == 0);
            assert(es[j] == entry(x, 0));
            if !(spec_maps_to_itself(x as u32)) {
                assert(tables::decomposition_of(x, df) == seq![x]);
                lemma_with_classes(seq![x]);
                assert(decomposition_entries(x, df) =~= seq![entry(x, 0)]);
            }
        }
    } else {
        assert(decomposition_entries(c, df) == with_classes(d));
        lemma_final_chars_fully_decompose(c, d, df);
    }
}

/// Look up the decomposition and the class of a character.
pub fn lookup_decomp(c: char, form: DecompForm) -> (r: (Vec<char>, u8))
    ensures
        r.0@ == tables::decomposition_of(c, form),
        forall|i: int|
            0 <= i < r.0@.len() ==> #[trigger] tables::final_decomposed_char(r.0@[i], form),
        fully_decomposes(c, form),
        !(spec_maps_to_itself(c as u32)) ==> decomposition_entries(c, form)
            == with_classes(r.0@),
        r.1 == tables::canonical_combining_class_of(c),
{
    let r = match form {
        DecompForm::Canonical => tables::lookup_canonical_decomp(c),
        DecompForm::Compatible => tables::lookup_compat_decomp(c),
    };
    proof {
        lemma_data_fully_decomposes(c, r.0@, form);
        if hangul::spec_is_hangul_syllable(c) {
            assert(with_classes(r.0@) =~= as_starters(hangul::hangul_decomposition(c)));
        }
    }
    r
}

/// Check if a code point is a CJK Unified Ideograph (CCC=0, no decomposition).
pub fn is_cjk_ideograph(cp: u32) -> (r: bool)
    ensures
        r == spec_is_cjk_ideograph(cp),
{
    (0x4E00 <= cp && cp <= 0x9FFF) || (0x3400 <= cp && cp <= 0x4DBF) || (0x20000 <= cp && cp
        <= 0x2EBE0) || (0x30000 <= cp && cp <= 0x323AF)
}

/// Push a fully-decomposed character with its CCC.
pub fn push_final_char(ch: char, output: &mut CccBuffer)
    requires
        old(output).wf(),
    ensures
        final(output).wf(),
        final(output)@ == old(output)@.push(CharAndCcc { ch, ccc: char_ccc(ch) }),
{
    if (ch as u32) <= 0x7F {
        output.push(ch, 0);
    } else {
        output.push(ch, tables::lookup_ccc(ch));
    }
}

/// Push the characters of a full decomposition, each with its combining
/// class. The decomposition is already complete, so the characters are
/// final: only their classes are looked up.
pub fn decode_expansion(data: &[char], output: &mut CccBuffer)
    requires
        old(output).wf(),
    ensures
        final(output).wf(),
        final(output)@ == old(output)@ + with_classes(data@),
{
    let mut i: usize = 0;
    assert(output@ =~= old(output)@ + with_classes(data@.take(0)));
    while i < data.len()
        invariant
            i <= data@.len(),
            output.wf(),
            output@ == old(output)@ + with_classes(data@.take(i as int)),
        decreases data.len() - i,
    {
        push_final_char(data[i], output);
        proof {
            let a = with_classes(data@.take(i + 1));
            let b = with_classes(data@.take(i as int)).push(
                entry(data@[i as int], char_ccc(data@[i as int])),
            );
            lemma_with_classes(data@.take(i + 1));
            lemma_with_classes(data@.take(i as int));
            assert forall|j: int| 0 <= j < a.len() implies a[j] == b[j] by {
                assert(data@.take(i + 1)[j] == data@[j]);
                if j < i {
                    assert(data@.take(i as int)[j] == data@[j]);
                }
            }
            assert(a =~= b);
            assert(output@ =~= old(output)@ + a);
        }
        i += 1;
    }
    proof {
        assert(data@.take(data@.len() as int) =~= data@);
    }
}

/// Decompose a character, appending the resulting (character, class)
/// entries to the CccBuffer.
pub fn decompose(c: char, output: &mut CccBuffer, form: DecompForm)
    requires
        old(output).wf(),
    ensures
        final(output).wf(),
        final(output)@ == old(output)@ + decomposition_entries(c, form),
        fully_decomposes(c, form),
{
    // Fast path: 7-bit ASCII never decomposes; neither do CJK Unified Ideographs.
    if maps_to_itself(c as u32) {
        output.push(c, 0);
        assert(output@ =~= old(output)@ + decomposition_entries(c, form));
        return;
    }
    // Everything else, Hangul syllables included (the data crate decomposes
    // them by the Hangul arithmetic), through the decomposition data.
    let (d, ccc) = lookup_decomp(c, form);
    assert(decomposition_entries(c, form) == with_classes(d@));
    proof {
        lemma_with_classes(d@);
    }
    if d.len() == 1 && d[0] == c {
        // Maps to itself, with its own class.
        output.push(c, ccc);
        assert(output@ =~= old(output)@ + with_classes(d@));
    } else if d.len() == 1 {
        // Singleton: the target is final, only its class is needed.
        let target = d[0];
        push_final_char(target, output);
        assert(with_classes(d@) =~= seq![entry(target, char_ccc(target))]);
        assert(output@ =~= old(output)@ + with_classes(d@));
    } else {
        decode_expansion(d.as_slice(), output);
    }
}

} // verus!
