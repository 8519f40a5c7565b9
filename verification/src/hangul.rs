//! Algorithmic Hangul Syllable decomposition and composition.
//!
//! Hangul Syllables (U+AC00..U+D7A3) are decomposed/composed using Jamo
//! arithmetic per Unicode Standard Section 3.12, not via lookup tables.

use vstd::prelude::*;

use crate::text::char_from_u32;

verus! {

/// Syllable base.
pub const S_BASE: u32 = 0xAC00;
/// Leading consonant (L) jamo base.
pub const L_BASE: u32 = 0x1100;
/// Vowel (V) jamo base.
pub const V_BASE: u32 = 0x1161;
/// Trailing consonant (T) jamo base.
/// Note: T_BASE itself (0x11A7) is *not* a valid trailing consonant.
pub const T_BASE: u32 = 0x11A7;
/// Number of leading consonant jamos.
pub const L_COUNT: u32 = 19;
/// Number of vowel jamos.
pub const V_COUNT: u32 = 21;
/// Number of trailing consonant jamos (including "no trailing" = index 0).
pub const T_COUNT: u32 = 28;
/// V_COUNT * T_COUNT.
pub const N_COUNT: u32 = 588;
/// Total number of Hangul Syllables (L_COUNT * N_COUNT).
pub const S_COUNT: u32 = 11172;

/// `c` is a precomposed Hangul syllable.
pub open spec fn spec_is_hangul_syllable(c: char) -> bool {
    S_BASE <= c as u32 && (c as u32) < S_BASE + S_COUNT
}

/// `cp` is in the Hangul Jamo block (U+1100..U+11FF).
pub open spec fn spec_is_hangul_jamo(cp: u32) -> bool {
    0x1100 <= cp <= 0x11FF
}

/// `c` is a leading-consonant jamo.
pub open spec fn spec_is_hangul_lpart(c: char) -> bool {
    L_BASE <= c as u32 && (c as u32) < L_BASE + L_COUNT
}

/// `c` is a vowel jamo.
pub open spec fn spec_is_hangul_vpart(c: char) -> bool {
    V_BASE <= c as u32 && (c as u32) < V_BASE + V_COUNT
}

/// `c` is a trailing-consonant jamo (T_BASE itself excluded).
pub open spec fn spec_is_hangul_tpart(c: char) -> bool {
    T_BASE < c as u32 && (c as u32) < T_BASE + T_COUNT
}

/// The jamo code points of a syllable: (L, V, T) where T == T_BASE means "no trailing".
pub open spec fn hangul_jamo_values(c: char) -> (u32, u32, u32) {
    let s = (c as u32 - S_BASE) as u32;
    (
        (L_BASE + s / N_COUNT) as u32,
        (V_BASE + (s % N_COUNT) / T_COUNT) as u32,
        (T_BASE + s % T_COUNT) as u32,
    )
}

/// The canonical decomposition of a Hangul syllable: `L V` or `L V T`.
pub open spec fn hangul_decomposition(c: char) -> Seq<char> {
    let (l, v, t) = hangul_jamo_values(c);
    if t == T_BASE {
        seq![l as char, v as char]
    } else {
        seq![l as char, v as char, t as char]
    }
}

/// Hangul composition of a pair: `L + V -> LV`, `LV + T -> LVT`, else none.
pub open spec fn spec_compose_hangul(a: char, b: char) -> Option<char> {
    let a_cp = a as u32;
    let b_cp = b as u32;
    if spec_is_hangul_lpart(a) {
        if spec_is_hangul_vpart(b) {
            Some((S_BASE + (a_cp - L_BASE) * N_COUNT + (b_cp - V_BASE) * T_COUNT) as char)
        } else {
            None
        }
    } else if spec_is_hangul_syllable(a) && (a_cp - S_BASE) % (T_COUNT as int) == 0
        && spec_is_hangul_tpart(b) {
        Some((a_cp + (b_cp - T_BASE)) as char)
    } else {
        None
    }
}

/// Check if a character is a Hangul Syllable (U+AC00..U+D7A3).
pub fn is_hangul_syllable(c: char) -> (r: bool)
    ensures
        r == spec_is_hangul_syllable(c),
{
    let cp = c as u32;
    S_BASE <= cp && cp < S_BASE + S_COUNT
}

/// Check if a character is a Hangul L (leading consonant) jamo.
pub fn is_hangul_lpart(c: char) -> (r: bool)
    ensures
        r == spec_is_hangul_lpart(c),
{
    let cp = c as u32;
    L_BASE <= cp && cp < L_BASE + L_COUNT
}

/// Check if a character is a Hangul V (vowel) jamo.
pub fn is_hangul_vpart(c: char) -> (r: bool)
    ensures
        r == spec_is_hangul_vpart(c),
{
    let cp = c as u32;
    V_BASE <= cp && cp < V_BASE + V_COUNT
}

/// Check if a character is a Hangul T (trailing consonant) jamo.
/// Note: T_BASE (U+11A7) itself is NOT a valid trailing consonant.
pub fn is_hangul_tpart(c: char) -> (r: bool)
    ensures
        r == spec_is_hangul_tpart(c),
{
    let cp = c as u32;
    cp > T_BASE && cp < T_BASE + T_COUNT
}

/// A jamo code point produced by the syllable arithmetic is a valid `char`.
fn jamo_char(v: u32) -> (r: char)
    requires
        0x1100 <= v < 0x1200,
    ensures
        r as u32 == v,
        r == v as char,
{
    char_from_u32(v).unwrap()
}

/// Decompose a Hangul Syllable into its constituent jamos.
/// Returns `(L, V, None)` for LV syllables or `(L, V, Some(T))` for LVT.
pub fn decompose_hangul(c: char) -> (r: (char, char, Option<char>))
    requires
        spec_is_hangul_syllable(c),
    ensures
        ({
            let (l, v, t) = hangul_jamo_values(c);
            &&& r.0 as u32 == l
            &&& r.1 as u32 == v
            &&& (t == T_BASE ==> r.2 is None)
            &&& (t != T_BASE ==> r.2 == Some(t as char))
            &&& spec_is_hangul_lpart(r.0)
            &&& spec_is_hangul_vpart(r.1)
            &&& (r.2 matches Some(tc) ==> spec_is_hangul_tpart(tc))
            &&& hangul_decomposition(c) == (match r.2 {
                Some(tc) => seq![r.0, r.1, tc],
                None => seq![r.0, r.1],
            })
        }),
{
    let s_index = c as u32 - S_BASE;
    let l_index = s_index / N_COUNT;
    let v_index = (s_index % N_COUNT) / T_COUNT;
    let t_index = s_index % T_COUNT;
    let l = jamo_char(L_BASE + l_index);
    let v = jamo_char(V_BASE + v_index);
    let t = if t_index > 0 {
        Some(jamo_char(T_BASE + t_index))
    } else {
        None
    };
    (l, v, t)
}

/// Attempt to compose a Hangul pair.
/// L + V -> LV Syllable, LV Syllable + T -> LVT Syllable.
/// Returns `None` if pair does not form a Hangul composition.
pub fn compose_hangul(a: char, b: char) -> (r: Option<char>)
    ensures
        r == spec_compose_hangul(a, b),
        r matches Some(x) ==> spec_is_hangul_syllable(x),
{
    let a_cp = a as u32;
    let b_cp = b as u32;
    // Case 1: L + V -> LV
    if L_BASE <= a_cp && a_cp - L_BASE < L_COUNT {
        let l_index = a_cp - L_BASE;
        if V_BASE <= b_cp && b_cp - V_BASE < V_COUNT {
            let v_index = b_cp - V_BASE;
            let lv = S_BASE + l_index * N_COUNT + v_index * T_COUNT;
            return char_from_u32(lv);
        }
        return None;
    }
    // Case 2: LV + T -> LVT
    if S_BASE <= a_cp && a_cp - S_BASE < S_COUNT && (a_cp - S_BASE) % T_COUNT == 0 {
        if T_BASE < b_cp && b_cp - T_BASE < T_COUNT {
            let t_index = b_cp - T_BASE;
            return char_from_u32(a_cp + t_index);
        }
    }
    None
}

/// Return the decomposition length: 2 for LV, 3 for LVT.
pub fn hangul_decomposition_length(c: char) -> (r: usize)
    requires
        spec_is_hangul_syllable(c),
    ensures
        r == hangul_decomposition(c).len(),
{
    let s_index = c as u32 - S_BASE;
    if s_index % T_COUNT == 0 {
        2
    } else {
        3
    }
}

/// Decomposing a syllable and composing its jamo back gives the syllable:
/// `compose(L, V)` is the LV syllable, and for LVT syllables `compose(LV, T)`
/// is the original syllable.
pub proof fn lemma_hangul_round_trip(c: char)
    requires
        spec_is_hangul_syllable(c),
    ensures
        ({
            let d = hangul_decomposition(c);
            let lv = spec_compose_hangul(d[0], d[1]);
            &&& lv is Some
            &&& d.len() == 2 ==> lv == Some(c)
            &&& d.len() == 3 ==> spec_compose_hangul(lv->0, d[2]) == Some(c)
        }),
{
    let d = hangul_decomposition(c);
    let (l, v, t) = hangul_jamo_values(c);
    let s = (c as u32 - S_BASE) as u32;
    assert((l as char) as u32 == l);
    assert((v as char) as u32 == v);
    assert((t as char) as u32 == t);
    let lv_cp = (S_BASE + (l - L_BASE) * N_COUNT + (v - V_BASE) * T_COUNT) as u32;
    assert(s == (s / N_COUNT) * N_COUNT + ((s % N_COUNT) / T_COUNT) * T_COUNT + s % T_COUNT)
        by (nonlinear_arith);
    assert(lv_cp == S_BASE + s - s % T_COUNT);
    assert((lv_cp as char) as u32 == lv_cp);
    assert((lv_cp - S_BASE) % (T_COUNT as int) == 0) by (nonlinear_arith)
        requires
            lv_cp - S_BASE == s - s % T_COUNT,
    ;
    assert((c as u32) as char == c);
}

/// The number of jamo a syllable decomposes into is 3 exactly when it has a
/// trailing consonant.
pub proof fn lemma_hangul_decomposition_length(c: char)
    requires
        spec_is_hangul_syllable(c),
    ensures
        hangul_decomposition(c).len() == (if (c as u32 - S_BASE) % (T_COUNT as int) == 0 {
            2int
        } else {
            3int
        }),
{
}

/// Composing `L + V` gives the LV syllable, which decomposes to `L V`;
/// composing an LV syllable with `T` gives the LVT syllable, which
/// decomposes to `L V T`.
pub proof fn lemma_compose_hangul_decomposition(a: char, b: char)
    requires
        spec_compose_hangul(a, b) is Some,
    ensures
        spec_is_hangul_syllable(spec_compose_hangul(a, b)->0),
        spec_is_hangul_lpart(a) ==> spec_is_hangul_vpart(b) && hangul_decomposition(
            spec_compose_hangul(a, b)->0,
        ) == seq![a, b],
        !spec_is_hangul_lpart(a) ==> spec_is_hangul_syllable(a) && spec_is_hangul_tpart(b)
            && hangul_decomposition(a).len() == 2 && hangul_decomposition(
            spec_compose_hangul(a, b)->0,
        ) == hangul_decomposition(a).push(b),
{
    let p = spec_compose_hangul(a, b)->0;
    let a_cp = a as u32;
    let b_cp = b as u32;
    if spec_is_hangul_lpart(a) {
        let li = a_cp - L_BASE;
        let vi = b_cp - V_BASE;
        let x = S_BASE + li * N_COUNT + vi * T_COUNT;
        assert(0 <= li < 19 && 0 <= vi < 21);
        assert(li * 588 + vi * 28 < 11172 && li * 588 + vi * 28 >= 0) by (nonlinear_arith)
            requires
                0 <= li < 19,
                0 <= vi < 21,
        ;
        assert((x as char) as u32 == x);
        assert(p as u32 == x);
        let s = (p as u32 - S_BASE) as u32;
        assert(s == li * 588 + vi * 28);
        assert(s / 588 == li && (s % 588) / 28 == vi && s % 28 == 0) by (nonlinear_arith)
            requires
                s == li * 588 + vi * 28,
                0 <= li < 19,
                0 <= vi < 21,
        ;
        assert(((L_BASE + li) as char) == a);
        assert(((V_BASE + vi) as char) == b);
    } else {
        let s0 = (a_cp - S_BASE) as u32;
        let ti = b_cp - T_BASE;
        assert(0 < ti < 28);
        assert(s0 % 28 == 0);
        let x = a_cp + ti;
        assert(s0 < 11172);
        assert(s0 + ti < 11172) by (nonlinear_arith)
            requires
                s0 % 28 == 0,
                s0 < 11172,
                0 < ti < 28,
        ;
        assert((x as char) as u32 == x);
        assert(p as u32 == x);
        let s = (p as u32 - S_BASE) as u32;
        assert(s == s0 + ti);
        assert(s / 588 == s0 / 588 && (s % 588) / 28 == (s0 % 588) / 28 && s % 28 == ti)
            by (nonlinear_arith)
            requires
                s == s0 + ti,
                s0 % 28 == 0,
                0 < ti < 28,
        ;
        assert(((T_BASE + ti) as char) == b);
        assert(hangul_decomposition(p) =~= hangul_decomposition(a).push(b));
    }
}

/// The characters a syllable decomposes into are in the Hangul Jamo block.
pub proof fn lemma_hangul_decomposition_is_jamo(c: char)
    requires
        spec_is_hangul_syllable(c),
    ensures
        forall|i: int|
            0 <= i < hangul_decomposition(c).len() ==> spec_is_hangul_jamo(
                #[trigger] hangul_decomposition(c)[i] as u32,
            ),
{
    let (l, v, t) = hangul_jamo_values(c);
    let s = (c as u32 - S_BASE) as u32;
    assert(s / 588 < 19 && (s % 588) / 28 < 21 && s % 28 < 28) by (nonlinear_arith)
        requires
            s < 11172,
    ;
    assert((l as char) as u32 == l);
    assert((v as char) as u32 == v);
    assert((t as char) as u32 == t);
}

} // verus!
