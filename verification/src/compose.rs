//! Canonical composition engine.
//!
//! Provides pairwise character composition and the combining-sequence
//! composition algorithm described in UAX#15 Section 4.

use vstd::prelude::*;

use crate::ccc::CharAndCcc;
use crate::hangul;
use crate::decompose::{decomposition_entries, with_classes};
use crate::tables;
use crate::tables::DecompForm;
use crate::text::string_push;

verus! {

/// What a composite `p` of `a` and `b` from the composition table keeps:
/// its decomposition (canonical and compatible) is that of `a` followed by
/// that of `b`, it has class 0, it is no NFC quick-check No, and, when it
/// decomposes the same way canonically and compatibly, no NFKC quick-check
/// No. The table lookup guarantees this of every composite it returns.
pub open spec fn table_composite_ok(a: char, b: char, p: char) -> bool {
    &&& decomposition_entries(p, DecompForm::Canonical) == decomposition_entries(
        a,
        DecompForm::Canonical,
    ) + decomposition_entries(b, DecompForm::Canonical)
    &&& decomposition_entries(p, DecompForm::Compatible) == decomposition_entries(
        a,
        DecompForm::Compatible,
    ) + decomposition_entries(b, DecompForm::Compatible)
    &&& tables::canonical_combining_class_of(p) == 0
    &&& crate::quick_check::spec_qc_of_char(crate::normalizer::Form::Nfc, p) < 2
    &&& decomposition_entries(p, DecompForm::Compatible) == decomposition_entries(
        p,
        DecompForm::Canonical,
    ) ==> crate::quick_check::spec_qc_of_char(crate::normalizer::Form::Nfkc, p) < 2
    &&& !tables::nfc_yes_by_range(b as u32)
}

/// Pairwise canonical composition: Hangul arithmetic first, then the
/// composition table, whose composites keep the decomposition of the pair.
///
/// No canonical composition pair has an ASCII second character or a CJK
/// unified ideograph as its second character, so such a `b` composes with
/// nothing and never reaches the table.
pub open spec fn spec_compose(a: char, b: char) -> Option<char> {
    if (b as u32) < 0x80 || crate::quick_check::spec_is_cjk_unified(b as u32) {
        None
    } else {
        match hangul::spec_compose_hangul(a, b) {
            Some(x) => Some(x),
            None => match tables::compose_of(a, b) {
                Some(p) => if table_composite_ok(a, b, p) {
                    Some(p)
                } else {
                    None
                },
                None => None,
            },
        }
    }
}

/// Pairwise composition is the Hangul arithmetic or the composition table:
/// a Hangul pair composes to its syllable; a pair the composition table has
/// a primary composite for (with what the table lookup guarantees of it)
/// composes to that composite; and every composition is one of the two.
pub proof fn lemma_compose_is_hangul_or_table(a: char, b: char, p: char)
    ensures
        hangul::spec_compose_hangul(a, b) matches Some(x) ==> spec_compose(a, b) == Some(x),
        spec_compose(a, b) matches Some(x) ==> hangul::spec_compose_hangul(a, b) == Some(x)
            || tables::compose_of(a, b) == Some(x),
        ({
            &&& hangul::spec_compose_hangul(a, b) is None
            &&& tables::compose_of(a, b) == Some(p)
            &&& tables::nfd_of(seq![p]) == tables::nfd_of(seq![a]) + tables::nfd_of(seq![b])
            &&& tables::nfkd_of(seq![p]) == tables::nfkd_of(seq![a]) + tables::nfkd_of(seq![b])
            &&& tables::ccc_table_of(p) == 0
            &&& tables::is_nfc_quick_of(seq![p]) < 2
            &&& (tables::nfkd_of(seq![p]) == tables::nfd_of(seq![p]) ==> tables::is_nfkc_quick_of(
                seq![p],
            ) < 2)
            &&& tables::data_decomposition_is_final(p, DecompForm::Canonical)
            &&& tables::data_decomposition_is_final(p, DecompForm::Compatible)
            &&& tables::table_pair(a, b, p)
            &&& !tables::nfc_yes_by_range(b as u32)
        }) ==> spec_compose(a, b) == Some(p),
{
    if hangul::spec_compose_hangul(a, b) is Some {
        hangul::lemma_compose_hangul_decomposition(a, b);
    }
    if hangul::spec_compose_hangul(a, b) is None && tables::compose_of(a, b) == Some(p)
        && tables::nfd_of(seq![p]) == tables::nfd_of(seq![a]) + tables::nfd_of(seq![b])
        && tables::nfkd_of(seq![p]) == tables::nfkd_of(seq![a]) + tables::nfkd_of(seq![b])
        && tables::ccc_table_of(p) == 0 && tables::is_nfc_quick_of(seq![p]) < 2 && (
    tables::nfkd_of(seq![p]) == tables::nfd_of(seq![p]) ==> tables::is_nfkc_quick_of(seq![p]) < 2)
        && tables::data_decomposition_is_final(p, DecompForm::Canonical)
        && tables::data_decomposition_is_final(p, DecompForm::Compatible) && tables::table_pair(
        a,
        b,
        p,
    ) && !tables::nfc_yes_by_range(b as u32) {
        lemma_table_composite_ok(a, b, p);
    }
}

/// A composite the table lookup returns keeps the decomposition of its pair.
proof fn lemma_table_composite_ok(a: char, b: char, p: char)
    requires
        tables::nfd_of(seq![p]) == tables::nfd_of(seq![a]) + tables::nfd_of(seq![b]),
        tables::nfkd_of(seq![p]) == tables::nfkd_of(seq![a]) + tables::nfkd_of(seq![b]),
        tables::ccc_table_of(p) == 0,
        tables::is_nfc_quick_of(seq![p]) < 2,
        tables::nfkd_of(seq![p]) == tables::nfd_of(seq![p]) ==> tables::is_nfkc_quick_of(seq![p]) < 2,
        tables::data_decomposition_is_final(p, DecompForm::Canonical),
        tables::data_decomposition_is_final(p, DecompForm::Compatible),
        tables::table_pair(a, b, p),
        !tables::nfc_yes_by_range(b as u32),
    ensures
        table_composite_ok(a, b, p),
{
    assert forall|df: DecompForm|
        tables::data_decomposition_is_final(a, df) && tables::data_decomposition_is_final(
            b,
            df,
        ) by {
        let x = tables::data_decomposition_of(a, df);
        let y = tables::data_decomposition_of(b, df);
        let z = tables::data_decomposition_of(p, df);
        assert(z == x + y);
        assert forall|i: int| 0 <= i < x.len() implies #[trigger] tables::final_decomposed_char(
            x[i],
            df,
        ) by {
            assert(z[i] == x[i]);
        }
        assert forall|i: int| 0 <= i < y.len() implies #[trigger] tables::final_decomposed_char(
            y[i],
            df,
        ) by {
            assert(z[x.len() + i] == y[i]);
        }
    }
    assert forall|df: DecompForm|
        decomposition_entries(p, df) == decomposition_entries(a, df) + decomposition_entries(
            b,
            df,
        ) by {
        let x = tables::data_decomposition_of(a, df);
        let y = tables::data_decomposition_of(b, df);
        let z = tables::data_decomposition_of(p, df);
        assert(tables::decomposition_of(a, df) == x);
        assert(tables::decomposition_of(b, df) == y);
        assert(tables::decomposition_of(p, df) == z);
        assert(decomposition_entries(p, df) == with_classes(x + y));
        assert(with_classes(x + y) =~= with_classes(x) + with_classes(y));
        if crate::decompose::spec_maps_to_itself(a as u32) {
            assert(x =~= seq![a]);
            assert(with_classes(x) =~= decomposition_entries(a, df));
        }
    }
    let zc = tables::data_decomposition_of(p, DecompForm::Compatible);
    let zn = tables::data_decomposition_of(p, DecompForm::Canonical);
    if decomposition_entries(p, DecompForm::Compatible) == decomposition_entries(
        p,
        DecompForm::Canonical,
    ) {
        assert(decomposition_entries(p, DecompForm::Compatible) == with_classes(zc));
        assert(decomposition_entries(p, DecompForm::Canonical) == with_classes(zn));
        assert(zc.len() == zn.len());
        assert forall|i: int| 0 <= i < zc.len() implies zc[i] == zn[i] by {
            assert(with_classes(zc)[i].ch == zc[i]);
            assert(with_classes(zn)[i].ch == zn[i]);
        }
        assert(zc =~= zn);
    }
    assert(decomposition_entries(p, DecompForm::Canonical) == decomposition_entries(
        a,
        DecompForm::Canonical,
    ) + decomposition_entries(b, DecompForm::Canonical));
    assert(decomposition_entries(p, DecompForm::Compatible) == decomposition_entries(
        a,
        DecompForm::Compatible,
    ) + decomposition_entries(b, DecompForm::Compatible));
}

/// A combining character is blocked from the starter when the last
/// character kept before it has a class at least as high as its own, or
/// class 0 (a kept starter blocks everything after it).
pub open spec fn blocked(last_ccc: Option<u8>, ccc: u8) -> bool {
    match last_ccc {
        None => false,
        Some(prev) => prev == 0 || prev >= ccc,
    }
}

/// Running state of the composition of `starter` with `combining`:
/// the current starter, the characters kept so far, and the class of the
/// last kept character.
pub open spec fn compose_state(starter: char, combining: Seq<CharAndCcc>) -> (
    char,
    Seq<char>,
    Option<u8>,
)
    decreases combining.len(),
{
    if combining.len() == 0 {
        (starter, Seq::empty(), None)
    } else {
        let (cur, kept, last) = compose_state(starter, combining.drop_last());
        let e = combining.last();
        if !blocked(last, e.ccc) && spec_compose(cur, e.ch) is Some {
            (spec_compose(cur, e.ch)->0, kept, last)
        } else {
            (cur, kept.push(e.ch), Some(e.ccc))
        }
    }
}

/// The composed starter and the characters that did not compose, in order.
pub open spec fn spec_compose_combining_sequence(starter: char, combining: Seq<CharAndCcc>) -> (
    char,
    Seq<char>,
) {
    let (cur, kept, _) = compose_state(starter, combining);
    (cur, kept)
}

/// The characters that composing `starter` with `combining` emits.
pub open spec fn composed_sequence(starter: char, combining: Seq<CharAndCcc>) -> Seq<char> {
    let (cur, kept) = spec_compose_combining_sequence(starter, combining);
    seq![cur] + kept
}

/// Try to compose two characters into one.
/// An ASCII or CJK unified ideograph second character composes with
/// nothing; otherwise Hangul is checked first (algorithmic), then the
/// composition table.
pub fn compose(a: char, b: char) -> (r: Option<char>)
    ensures
        r == spec_compose(a, b),
        hangul::spec_compose_hangul(a, b) is Some ==> r == hangul::spec_compose_hangul(a, b),
        hangul::spec_compose_hangul(a, b) is None && !((b as u32) < 0x80 || (0x4E00 <= b as u32
            <= 0x9FFF) || (0x3400 <= b as u32 <= 0x4DBF)) ==> r == tables::compose_of(a, b),
{
    proof {
        if hangul::spec_compose_hangul(a, b) is Some {
            hangul::lemma_compose_hangul_decomposition(a, b);
        }
    }
    if (b as u32) < 0x80 || crate::quick_check::is_cjk_unified(b as u32) {
        return None;
    }
    match hangul::compose_hangul(a, b) {
        Some(x) => Some(x),
        None => {
            let r = tables::compose_pair(a, b);
            proof {
                if r is Some {
                    lemma_table_composite_ok(a, b, r->0);
                }
            }
            r
        },
    }
}

/// Given a starter and a sorted sequence of combining characters (from CccBuffer),
/// perform canonical composition per UAX#15 Section 4.
///
/// The combining slice is assumed to already be sorted by CCC (canonical ordering).
/// A combining character is "blocked" from the starter when an intervening
/// character has CCC >= the candidate's CCC (or CCC == 0, which is a new starter).
///
/// Returns the (possibly recomposed) starter and any remaining characters
/// that could not be composed (in order).
pub fn compose_combining_sequence(starter: char, combining: &[CharAndCcc]) -> (r: (char, Vec<char>))
    ensures
        (r.0, r.1@) == spec_compose_combining_sequence(starter, combining@),
{
    if combining.len() == 0 {
        assert(combining@ =~= Seq::<CharAndCcc>::empty());
        return (starter, Vec::new());
    }
    let mut current_starter = starter;
    let mut remaining: Vec<char> = Vec::new();
    let mut last_ccc: Option<u8> = None;
    let mut i: usize = 0;
    while i < combining.len()
        invariant
            i <= combining@.len(),
            (current_starter, remaining@, last_ccc) == compose_state(
                starter,
                combining@.take(i as int),
            ),
        decreases combining.len() - i,
    {
        let entry = combining[i];
        let ch = entry.ch;
        let ch_ccc = entry.ccc;
        proof {
            assert(combining@.take(i + 1).drop_last() =~= combining@.take(i as int));
            assert(combining@.take(i + 1).last() == entry);
        }
        let is_blocked = match last_ccc {
            None => false,
            Some(prev_ccc) => prev_ccc == 0 || prev_ccc >= ch_ccc,
        };
        let mut done = false;
        if !is_blocked {
            match compose(current_starter, ch) {
                Some(composed) => {
                    current_starter = composed;
                    done = true;
                },
                None => {},
            }
        }
        if !done {
            remaining.push(ch);
            last_ccc = Some(ch_ccc);
        }
        i += 1;
    }
    proof {
        assert(combining@.take(combining@.len() as int) =~= combining@);
    }
    (current_starter, remaining)
}

/// Bit `i` of the 32-bit mask `m` is set.
pub open spec fn mask_bit(m: u32, i: int) -> bool {
    0 <= i < 32 && (m >> (i as u32)) & 1u32 == 1u32
}

/// The characters of `c[..i]` whose bit in `m` is clear, in order.
pub open spec fn kept_by_mask(c: Seq<CharAndCcc>, m: u32, i: int) -> Seq<char>
    decreases i,
{
    if i <= 0 {
        Seq::empty()
    } else if mask_bit(m, i - 1) {
        kept_by_mask(c, m, i - 1)
    } else {
        kept_by_mask(c, m, i - 1).push(c[i - 1].ch)
    }
}

proof fn lemma_set_mask_bit(m: u32, i: u32, j: u32)
    requires
        i < 32,
        j < 32,
    ensures
        ((m | (1u32 << i)) >> j) & 1u32 == 1u32 <==> (((m >> j) & 1u32 == 1u32) || i == j),
{
    assert(((m | (1u32 << i)) >> j) & 1u32 == 1u32 <==> (((m >> j) & 1u32 == 1u32) || i == j))
        by (bit_vector)
        requires
            i < 32,
            j < 32,
    ;
}

proof fn lemma_zero_mask(j: u32)
    requires
        j < 32,
    ensures
        (0u32 >> j) & 1u32 != 1u32,
{
    assert((0u32 >> j) & 1u32 != 1u32) by (bit_vector);
}

/// Masks that agree below `i` keep the same characters of `c[..i]`.
proof fn lemma_kept_by_mask_agree(c: Seq<CharAndCcc>, m1: u32, m2: u32, i: int)
    requires
        forall|j: int| 0 <= j < i ==> (mask_bit(m1, j) <==> mask_bit(m2, j)),
    ensures
        kept_by_mask(c, m1, i) == kept_by_mask(c, m2, i),
    decreases i,
{
    if i > 0 {
        lemma_kept_by_mask_agree(c, m1, m2, i - 1);
    }
}

/// Like [`compose_combining_sequence`], but writes results directly to `out`,
/// avoiding the heap allocation for the remaining-characters `Vec`.
///
/// Uses a `u32` bitmask to track which combining entries were consumed by
/// composition, supporting up to 32 combining marks without allocation.
/// Sequences longer than 32 marks fall back to the allocating version.
pub fn compose_combining_sequence_into(starter: char, combining: &[CharAndCcc], out: &mut String)
    ensures
        final(out)@ == old(out)@ + composed_sequence(starter, combining@),
{
    if combining.len() == 0 {
        string_push(out, starter);
        assert(combining@ =~= Seq::<CharAndCcc>::empty());
        assert(out@ =~= old(out)@ + composed_sequence(starter, combining@));
        return;
    }
    // For sequences > 32, fall back to the allocating version.
    if combining.len() > 32 {
        let (composed, remaining) = compose_combining_sequence(starter, combining);
        string_push(out, composed);
        let mut i: usize = 0;
        while i < remaining.len()
            invariant
                i <= remaining@.len(),
                out@ == old(out)@ + seq![composed] + remaining@.take(i as int),
            decreases remaining.len() - i,
        {
            string_push(out, remaining[i]);
            proof {
                assert(remaining@.take(i + 1) =~= remaining@.take(i as int).push(
                    remaining@[i as int],
                ));
            }
            i += 1;
        }
        proof {
            assert(remaining@.take(remaining@.len() as int) =~= remaining@);
            assert(out@ =~= old(out)@ + composed_sequence(starter, combining@));
        }
        return;
    }
    let n = combining.len();
    let mut current_starter = starter;
    let mut last_ccc: Option<u8> = None;
    let mut composed_mask: u32 = 0;
    let mut i: usize = 0;
    proof {
        assert forall|j: int| 0 <= j < 32 implies !mask_bit(composed_mask, j) by {
            lemma_zero_mask(j as u32);
        }
    }
    while i < n
        invariant
            n == combining@.len(),
            n <= 32,
            i <= n,
            forall|j: int| i <= j < 32 ==> !mask_bit(composed_mask, j),
            (current_starter, kept_by_mask(combining@, composed_mask, i as int), last_ccc)
                == compose_state(starter, combining@.take(i as int)),
        decreases n - i,
    {
        let entry = combining[i];
        proof {
            assert(combining@.take(i + 1).drop_last() =~= combining@.take(i as int));
            assert(combining@.take(i + 1).last() == entry);
        }
        let is_blocked = match last_ccc {
            None => false,
            Some(prev_ccc) => prev_ccc == 0 || prev_ccc >= entry.ccc,
        };
        let mut done = false;
        if !is_blocked {
            match compose(current_starter, entry.ch) {
                Some(composed) => {
                    let old_mask = composed_mask;
                    current_starter = composed;
                    composed_mask = composed_mask | (1u32 << (i as u32));
                    proof {
                        assert forall|j: int| 0 <= j < 32 implies (mask_bit(composed_mask, j) <==> (
                        mask_bit(old_mask, j) || j == i)) by {
                            lemma_set_mask_bit(old_mask, i as u32, j as u32);
                        }
                        lemma_kept_by_mask_agree(combining@, old_mask, composed_mask, i as int);
                        assert(mask_bit(composed_mask, i as int));
                    }
                    done = true;
                },
                None => {},
            }
        }
        if !done {
            last_ccc = Some(entry.ccc);
            assert(!mask_bit(composed_mask, i as int));
        }
        i += 1;
    }
    string_push(out, current_starter);
    let ghost kept = kept_by_mask(combining@, composed_mask, n as int);
    let mut k: usize = 0;
    while k < n
        invariant
            n == combining@.len(),
            n <= 32,
            k <= n,
            kept == kept_by_mask(combining@, composed_mask, n as int),
            out@ == old(out)@ + seq![current_starter] + kept_by_mask(combining@, composed_mask, k as int),
        decreases n - k,
    {
        if (composed_mask & (1u32 << (k as u32))) == 0 {
            assert(((composed_mask & (1u32 << (k as u32))) == 0u32) == !((composed_mask >> (
            k as u32)) & 1u32 == 1u32)) by (bit_vector)
                requires
                    k < 32,
            ;
            string_push(out, combining[k].ch);
        } else {
            assert(((composed_mask & (1u32 << (k as u32))) == 0u32) == !((composed_mask >> (
            k as u32)) & 1u32 == 1u32)) by (bit_vector)
                requires
                    k < 32,
            ;
        }
        k += 1;
    }
    proof {
        assert(combining@.take(n as int) =~= combining@);
        assert(out@ =~= old(out)@ + composed_sequence(starter, combining@));
    }
}

} // verus!
