//! UTF-8 decode/encode helpers used by the scanner and normalizer.

use vstd::prelude::*;
use vstd::utf8::*;

verus! {

/// Number of bytes of the UTF-8 sequence that starts with `b`: 0 for
/// continuation bytes and for the bytes that never start a sequence
/// (0xC0, 0xC1, 0xF5..=0xFF).
pub open spec fn spec_utf8_char_width(b: u8) -> usize {
    if b < 0x80 {
        1
    } else if b < 0xC2 {
        0
    } else if b < 0xE0 {
        2
    } else if b < 0xF0 {
        3
    } else if b < 0xF5 {
        4
    } else {
        0
    }
}

/// Returns the number of bytes in a UTF-8 character given the leading byte.
///
/// Returns 0 for continuation bytes (0x80..=0xBF) and invalid leading bytes
/// (0xC0, 0xC1, 0xF5..=0xFF).  Callers that operate on known-valid UTF-8
/// never see a 0 return.
pub fn utf8_char_width(first_byte: u8) -> (r: usize)
    ensures
        r == spec_utf8_char_width(first_byte),
{
    if first_byte < 0x80 {
        1
    } else if first_byte < 0xC2 {
        0
    } else if first_byte < 0xE0 {
        2
    } else if first_byte < 0xF0 {
        3
    } else if first_byte < 0xF5 {
        4
    } else {
        0
    }
}

/// Returns `true` if the byte is a UTF-8 continuation byte (`10xxxxxx`).
pub fn is_continuation_byte(b: u8) -> (r: bool)
    ensures
        r == vstd::utf8::is_continuation_byte(b),
{
    assert(((b & 0xC0u8) == 0x80u8) == (0x80u8 <= b && b <= 0xBFu8)) by (bit_vector);
    (b & 0xC0) == 0x80
}

/// Decode one UTF-8 character from `bytes` starting at `pos`.
///
/// Returns `(char, byte_length)`; the bytes from `pos` must start with a
/// well-formed encoding of one scalar value.
pub fn decode_char_at(bytes: &[u8], pos: usize) -> (r: (char, usize))
    requires
        pos < bytes@.len(),
        valid_first_scalar(bytes@.subrange(pos as int, bytes@.len() as int)),
    ensures
        r.0 as u32 == decode_first_scalar(bytes@.subrange(pos as int, bytes@.len() as int)),
        r.1 == length_of_first_scalar(bytes@.subrange(pos as int, bytes@.len() as int)),
{
    let ghost rest = bytes@.subrange(pos as int, bytes@.len() as int);
    let b0 = bytes[pos];
    assert(rest[0] == b0);
    let cp: u32;
    let width: usize;
    if b0 < 0x80 {
        cp = b0 as u32;
        width = 1;
        assert((b0 & 0x7Fu8) as u32 == b0 as u32) by (bit_vector)
            requires
                b0 < 0x80u8,
        ;
    } else if b0 < 0xE0 {
        let b1 = bytes[pos + 1];
        assert(rest[1] == b1);
        cp = ((b0 as u32 & 0x1F) << 6) | (b1 as u32 & 0x3F);
        width = 2;
        assert(((b0 as u32 & 0x1Fu32) << 6u32) | (b1 as u32 & 0x3Fu32) <= 0x7FFu32) by (bit_vector);
        assert(((b0 as u32 & 0x1Fu32) << 6u32) | (b1 as u32 & 0x3Fu32) == (((b0 & 0x1Fu8) as u32)
            << 6u32) | ((b1 & 0x3Fu8) as u32)) by (bit_vector);
    } else if b0 < 0xF0 {
        let b1 = bytes[pos + 1];
        let b2 = bytes[pos + 2];
        assert(rest[1] == b1 && rest[2] == b2);
        cp = ((b0 as u32 & 0x0F) << 12) | ((b1 as u32 & 0x3F) << 6) | (b2 as u32 & 0x3F);
        width = 3;
        assert(((b0 as u32 & 0x0Fu32) << 12u32) | ((b1 as u32 & 0x3Fu32) << 6u32) | (b2 as u32
            & 0x3Fu32) <= 0xFFFFu32) by (bit_vector);
        assert(((b0 as u32 & 0x0Fu32) << 12u32) | ((b1 as u32 & 0x3Fu32) << 6u32) | (b2 as u32
            & 0x3Fu32) == (((b0 & 0x0Fu8) as u32) << 12u32) | (((b1 & 0x3Fu8) as u32) << 6u32) | ((b2
            & 0x3Fu8) as u32)) by (bit_vector);
    } else {
        let b1 = bytes[pos + 1];
        let b2 = bytes[pos + 2];
        let b3 = bytes[pos + 3];
        assert(rest[1] == b1 && rest[2] == b2 && rest[3] == b3);
        cp = ((b0 as u32 & 0x07) << 18) | ((b1 as u32 & 0x3F) << 12) | ((b2 as u32 & 0x3F) << 6)
            | (b3 as u32 & 0x3F);
        width = 4;
        assert(((b0 as u32 & 0x07u32) << 18u32) | ((b1 as u32 & 0x3Fu32) << 12u32) | ((b2 as u32
            & 0x3Fu32) << 6u32) | (b3 as u32 & 0x3Fu32) == (((b0 & 0x07u8) as u32) << 18u32) | (((b1
            & 0x3Fu8) as u32) << 12u32) | (((b2 & 0x3Fu8) as u32) << 6u32) | ((b3 & 0x3Fu8) as u32))
            by (bit_vector);
    }
    assert(cp == decode_first_scalar(rest));
    assert(crate::text::is_scalar_value(cp));
    let ch = crate::text::char_from_u32(cp).unwrap();
    (ch, width)
}

/// Encode a Unicode scalar value as UTF-8 into `buf`.
///
/// Returns the number of bytes written (1--4).
pub fn encode_char(c: char, buf: &mut [u8; 4]) -> (r: usize)
    ensures
        1 <= r <= 4,
        final(buf)@.subrange(0, r as int) == encode_scalar(c as u32),
        final(buf)@.subrange(r as int, 4) == old(buf)@.subrange(r as int, 4),
{
    let cp = c as u32;
    if cp < 0x80 {
        assert((cp & 0x7Fu32) as u8 == cp as u8) by (bit_vector)
            requires
                cp < 0x80u32,
        ;
        buf[0] = cp as u8;
        assert(buf@.subrange(0, 1) =~= encode_scalar(cp));
        assert(buf@.subrange(1, 4) =~= old(buf)@.subrange(1, 4));
        1
    } else if cp < 0x800 {
        let x0 = 0xC0 | (cp >> 6) as u8;
        let x1 = 0x80 | (cp & 0x3F) as u8;
        assert(0xC0u8 | (cp >> 6u32) as u8 == 0xC0u8 | ((cp >> 6u32) & 0x1Fu32) as u8) by (bit_vector)
            requires
                cp < 0x800u32,
        ;
        buf[0] = x0;
        buf[1] = x1;
        assert(buf@.subrange(0, 2) =~= encode_scalar(cp));
        assert(buf@.subrange(2, 4) =~= old(buf)@.subrange(2, 4));
        2
    } else if cp < 0x10000 {
        let x0 = 0xE0 | (cp >> 12) as u8;
        let x1 = 0x80 | ((cp >> 6) & 0x3F) as u8;
        let x2 = 0x80 | (cp & 0x3F) as u8;
        assert(0xE0u8 | (cp >> 12u32) as u8 == 0xE0u8 | ((cp >> 12u32) & 0x0Fu32) as u8)
            by (bit_vector)
            requires
                cp < 0x10000u32,
        ;
        buf[0] = x0;
        buf[1] = x1;
        buf[2] = x2;
        assert(buf@.subrange(0, 3) =~= encode_scalar(cp));
        assert(buf@.subrange(3, 4) =~= old(buf)@.subrange(3, 4));
        3
    } else {
        let x0 = 0xF0 | (cp >> 18) as u8;
        let x1 = 0x80 | ((cp >> 12) & 0x3F) as u8;
        let x2 = 0x80 | ((cp >> 6) & 0x3F) as u8;
        let x3 = 0x80 | (cp & 0x3F) as u8;
        assert(0xF0u8 | (cp >> 18u32) as u8 == 0xF0u8 | ((cp >> 18u32) & 0x7u32) as u8)
            by (bit_vector)
            requires
                cp <= 0x10FFFFu32,
        ;
        buf[0] = x0;
        buf[1] = x1;
        buf[2] = x2;
        buf[3] = x3;
        assert(buf@.subrange(0, 4) =~= encode_scalar(cp));
        assert(buf@.subrange(4, 4) =~= old(buf)@.subrange(4, 4));
        4
    }
}

/// Decoding the UTF-8 encoding of a character gives back the character and
/// the encoding's length.
pub proof fn lemma_encode_decode_round_trip(c: char)
    ensures
        valid_first_scalar(encode_scalar(c as u32)),
        decode_first_scalar(encode_scalar(c as u32)) == c as u32,
        length_of_first_scalar(encode_scalar(c as u32)) == encode_scalar(c as u32).len(),
{
    let bytes = encode_scalar(c as u32);
    let cp = c as u32;
    assert(is_scalar(cp)) by {
        vstd::utf8::char_is_scalar(c);
    }
    if has_width_1_encoding(cp) {
        assert(cp <= 0x7F ==> (cp & 0x7Fu32) as u8 <= 0x7Fu8 && ((cp & 0x7Fu32) as u8 & 0x7Fu8)
            as u32 == cp) by (bit_vector);
    } else if has_width_2_encoding(cp) {
        assert(0x80 <= cp <= 0x7FF ==> {
            let b0 = 0xC0u8 | ((cp >> 6u32) & 0x1Fu32) as u8;
            let b1 = 0x80u8 | (cp & 0x3Fu32) as u8;
            &&& 0xc0u8 <= b0 <= 0xdfu8
            &&& 0x80u8 <= b1 <= 0xbfu8
            &&& (((b0 & 0x1Fu8) as u32) << 6u32) | ((b1 & 0x3fu8) as u32) == cp
        }) by (bit_vector);
    } else if has_width_3_encoding(cp) {
        assert(0x800 <= cp <= 0xFFFF ==> {
            let b0 = 0xE0u8 | ((cp >> 12u32) & 0x0Fu32) as u8;
            let b1 = 0x80u8 | ((cp >> 6u32) & 0x3Fu32) as u8;
            let b2 = 0x80u8 | (cp & 0x3Fu32) as u8;
            &&& 0xe0u8 <= b0 <= 0xefu8
            &&& 0x80u8 <= b1 <= 0xbfu8
            &&& 0x80u8 <= b2 <= 0xbfu8
            &&& (((b0 & 0x0Fu8) as u32) << 12u32) | (((b1 & 0x3fu8) as u32) << 6u32) | ((b2
                & 0x3fu8) as u32) == cp
        }) by (bit_vector);
    } else {
        assert(0x10000 <= cp <= 0x10FFFF ==> {
            let b0 = 0xF0u8 | ((cp >> 18u32) & 0x7u32) as u8;
            let b1 = 0x80u8 | ((cp >> 12u32) & 0x3Fu32) as u8;
            let b2 = 0x80u8 | ((cp >> 6u32) & 0x3Fu32) as u8;
            let b3 = 0x80u8 | (cp & 0x3Fu32) as u8;
            &&& 0xf0u8 <= b0 <= 0xf7u8
            &&& 0x80u8 <= b1 <= 0xbfu8
            &&& 0x80u8 <= b2 <= 0xbfu8
            &&& 0x80u8 <= b3 <= 0xbfu8
            &&& (((b0 & 0x07u8) as u32) << 18u32) | (((b1 & 0x3fu8) as u32) << 12u32) | (((b2
                & 0x3fu8) as u32) << 6u32) | ((b3 & 0x3fu8) as u32) == cp
        }) by (bit_vector);
    }
}

/// Byte offset of character `k` in the UTF-8 encoding of `s`.
pub open spec fn char_start(s: Seq<char>, k: int) -> int {
    encode_utf8(s.take(k)).len() as int
}

/// Encoding a concatenation concatenates the encodings.
pub proof fn lemma_encode_utf8_concat(a: Seq<char>, c: Seq<char>)
    ensures
        encode_utf8(a + c) == encode_utf8(a) + encode_utf8(c),
    decreases a.len(),
{
    if a.len() == 0 {
        assert(a + c =~= c);
        assert(encode_utf8(a) =~= Seq::<u8>::empty());
        assert(encode_utf8(a + c) =~= encode_utf8(a) + encode_utf8(c));
    } else {
        assert((a + c)[0] == a[0]);
        assert((a + c).drop_first() =~= a.drop_first() + c);
        lemma_encode_utf8_concat(a.drop_first(), c);
        assert(encode_utf8(a + c) =~= encode_utf8(a) + encode_utf8(c));
    }
}

/// The shape of the UTF-8 encoding of one character: one to four bytes, a
/// leading byte followed by continuation bytes; a leading byte below 0x80
/// means a one-byte encoding of that very value, and a two-byte encoding's
/// leading byte bounds the value from above.
pub proof fn lemma_scalar_bytes(c: char)
    ensures
        1 <= encode_scalar(c as u32).len() <= 4,
        !vstd::utf8::is_continuation_byte(encode_scalar(c as u32)[0]),
        (encode_scalar(c as u32)[0] < 0x80) == (encode_scalar(c as u32).len() == 1),
        encode_scalar(c as u32).len() == 1 ==> c as u32 == encode_scalar(c as u32)[0] as u32,
        encode_scalar(c as u32).len() >= 2 ==> encode_scalar(c as u32)[0] >= 0xC2,
        encode_scalar(c as u32).len() == 2 ==> (c as u32) < (encode_scalar(c as u32)[0] - 0xC0 + 1)
            * 64,
        encode_scalar(c as u32).len() >= 3 ==> encode_scalar(c as u32)[0] >= 0xE0,
        forall|j: int|
            1 <= j < encode_scalar(c as u32).len() ==> vstd::utf8::is_continuation_byte(
                #[trigger] encode_scalar(c as u32)[j],
            ),
{
    let cp = c as u32;
    assert(is_scalar(cp)) by {
        vstd::utf8::char_is_scalar(c);
    }
    let e = encode_scalar(cp);
    if has_width_1_encoding(cp) {
        assert(cp <= 0x7F ==> (cp & 0x7Fu32) as u8 <= 0x7Fu8 && ((cp & 0x7Fu32) as u8) as u32 == cp)
            by (bit_vector);
    } else if has_width_2_encoding(cp) {
        assert(0x80 <= cp <= 0x7FF ==> {
            let b0 = 0xC0u8 | ((cp >> 6u32) & 0x1Fu32) as u8;
            let b1 = 0x80u8 | (cp & 0x3Fu32) as u8;
            &&& 0xC2u8 <= b0 <= 0xDFu8
            &&& 0x80u8 <= b1 <= 0xBFu8
            &&& cp < ((b0 as u32) - 0xC0u32 + 1u32) * 64u32
        }) by (bit_vector);
    } else if has_width_3_encoding(cp) {
        assert(0x800 <= cp <= 0xFFFF ==> {
            let b0 = 0xE0u8 | ((cp >> 12u32) & 0x0Fu32) as u8;
            let b1 = 0x80u8 | ((cp >> 6u32) & 0x3Fu32) as u8;
            let b2 = 0x80u8 | (cp & 0x3Fu32) as u8;
            &&& 0xE0u8 <= b0 <= 0xEFu8
            &&& 0x80u8 <= b1 <= 0xBFu8
            &&& 0x80u8 <= b2 <= 0xBFu8
        }) by (bit_vector);
    } else {
        assert(0x10000 <= cp <= 0x10FFFF ==> {
            let b0 = 0xF0u8 | ((cp >> 18u32) & 0x7u32) as u8;
            let b1 = 0x80u8 | ((cp >> 12u32) & 0x3Fu32) as u8;
            let b2 = 0x80u8 | ((cp >> 6u32) & 0x3Fu32) as u8;
            let b3 = 0x80u8 | (cp & 0x3Fu32) as u8;
            &&& 0xF0u8 <= b0 <= 0xF7u8
            &&& 0x80u8 <= b1 <= 0xBFu8
            &&& 0x80u8 <= b2 <= 0xBFu8
            &&& 0x80u8 <= b3 <= 0xBFu8
        }) by (bit_vector);
    }
}

/// Where character `k` of `s` sits in the encoding of `s`: its bytes start at
/// `char_start(s, k)`, the rest of the encoding from there encodes `s[k..]`,
/// and the next character starts right after its bytes.
pub proof fn lemma_char_position(s: Seq<char>, k: int)
    requires
        0 <= k < s.len(),
    ensures
        char_start(s, k + 1) == char_start(s, k) + encode_scalar(s[k] as u32).len(),
        char_start(s, k + 1) <= encode_utf8(s).len(),
        encode_utf8(s).subrange(char_start(s, k), encode_utf8(s).len() as int) == encode_utf8(
            s.skip(k),
        ),
        forall|j: int|
            0 <= j < encode_scalar(s[k] as u32).len() ==> encode_utf8(s)[char_start(s, k) + j]
                == #[trigger] encode_scalar(s[k] as u32)[j],
        valid_first_scalar(encode_utf8(s.skip(k))),
        decode_first_scalar(encode_utf8(s.skip(k))) == s[k] as u32,
        length_of_first_scalar(encode_utf8(s.skip(k))) == encode_scalar(s[k] as u32).len(),
{
    assert(s =~= s.take(k) + s.skip(k));
    lemma_encode_utf8_concat(s.take(k), s.skip(k));
    assert(s.take(k + 1) =~= s.take(k) + seq![s[k]]);
    lemma_encode_utf8_concat(s.take(k), seq![s[k]]);
    let one = seq![s[k]];
    assert(one[0] == s[k]);
    assert(one.drop_first() =~= Seq::<char>::empty());
    assert(encode_utf8(one.drop_first()) =~= Seq::<u8>::empty());
    assert(encode_utf8(one) == encode_scalar(one[0] as u32) + encode_utf8(one.drop_first()));
    assert(encode_utf8(one) =~= encode_scalar(s[k] as u32));
    assert(s.skip(k) =~= seq![s[k]] + s.skip(k + 1));
    lemma_encode_utf8_concat(seq![s[k]], s.skip(k + 1));
    assert(s.skip(k)[0] == s[k]);
    encode_utf8_first_scalar(s.skip(k));
    let e = encode_utf8(s);
    let a = char_start(s, k);
    assert(e.subrange(a, e.len() as int) =~= encode_utf8(s.skip(k)));
}

/// Offsets of characters only grow, and the offset past the last character
/// is the length of the encoding.
pub proof fn lemma_char_start_bounds(s: Seq<char>, k: int)
    requires
        0 <= k <= s.len(),
    ensures
        0 <= char_start(s, k) <= encode_utf8(s).len(),
        char_start(s, 0) == 0,
        k == s.len() ==> char_start(s, k) == encode_utf8(s).len(),
        k < s.len() ==> char_start(s, k) < encode_utf8(s).len(),
        forall|j: int| 0 <= j < k ==> char_start(s, j) < char_start(s, k),
    decreases k,
{
    assert(s.take(0) =~= Seq::<char>::empty());
    assert(encode_utf8(s.take(0)) =~= Seq::<u8>::empty());
    if k == 0 {
        if s.len() == 0 {
            assert(s.take(0) =~= s);
        } else {
            lemma_char_position(s, 0);
            lemma_scalar_bytes(s[0]);
        }
    } else {
        lemma_char_start_bounds(s, k - 1);
        lemma_char_position(s, k - 1);
        lemma_scalar_bytes(s[k - 1]);
        if k == s.len() {
            assert(s.take(k) =~= s);
        } else {
            lemma_char_position(s, k);
            lemma_scalar_bytes(s[k]);
        }
    }
}

/// Inside the encoding of `s`, the bytes strictly between the start of a
/// character and the start of the next one are continuation bytes, and the
/// byte at a character's start is not.
pub proof fn lemma_char_bytes_in_string(s: Seq<char>, k: int)
    requires
        0 <= k < s.len(),
    ensures
        !vstd::utf8::is_continuation_byte(encode_utf8(s)[char_start(s, k)]),
        forall|i: int|
            char_start(s, k) < i < char_start(s, k + 1) ==> vstd::utf8::is_continuation_byte(
                #[trigger] encode_utf8(s)[i],
            ),
        (encode_utf8(s)[char_start(s, k)] < 0x80) ==> s[k] as u32 == encode_utf8(s)[char_start(
            s,
            k,
        )] as u32,
        encode_utf8(s)[char_start(s, k)] >= 0x80 ==> encode_utf8(s)[char_start(s, k)] >= 0xC2,
        encode_utf8(s)[char_start(s, k)] < 0xE0 && encode_utf8(s)[char_start(s, k)] >= 0x80 ==> (
        s[k] as u32) < (encode_utf8(s)[char_start(s, k)] - 0xC0 + 1) * 64,
{
    lemma_char_position(s, k);
    lemma_scalar_bytes(s[k]);
    let a = char_start(s, k);
    let e = encode_scalar(s[k] as u32);
    assert(encode_utf8(s)[a] == e[0]);
    assert forall|i: int| a < i < char_start(s, k + 1) implies vstd::utf8::is_continuation_byte(
        #[trigger] encode_utf8(s)[i],
    ) by {
        assert(encode_utf8(s)[a + (i - a)] == e[i - a]);
    }
}

/// A byte of the encoding of `s` that is not a continuation byte, lying
/// after the start of character `j - 1` and no later than the start of
/// character `j`, is exactly where character `j` starts.
pub proof fn lemma_lead_byte_is_char_start(s: Seq<char>, j: int, q: int)
    requires
        0 <= j <= s.len(),
        0 <= q < encode_utf8(s).len(),
        !vstd::utf8::is_continuation_byte(encode_utf8(s)[q]),
        q <= char_start(s, j),
        j > 0 ==> char_start(s, j - 1) < q,
    ensures
        j < s.len(),
        char_start(s, j) == q,
{
    lemma_char_start_bounds(s, j);
    if j == s.len() || char_start(s, j) > q {
        assert(j > 0);
        lemma_char_bytes_in_string(s, j - 1);
    }
}

/// The bytes of characters `i..j` of `s` are the encoding of `s[i..j]`.
pub proof fn lemma_encode_subrange(s: Seq<char>, i: int, j: int)
    requires
        0 <= i <= j <= s.len(),
    ensures
        encode_utf8(s).subrange(char_start(s, i), char_start(s, j)) == encode_utf8(
            s.subrange(i, j),
        ),
        char_start(s, j) == char_start(s, i) + encode_utf8(s.subrange(i, j)).len(),
{
    assert(s.take(j) =~= s.take(i) + s.subrange(i, j));
    lemma_encode_utf8_concat(s.take(i), s.subrange(i, j));
    assert(s =~= s.take(j) + s.skip(j));
    lemma_encode_utf8_concat(s.take(j), s.skip(j));
    let e = encode_utf8(s);
    assert(e.subrange(char_start(s, i), char_start(s, j)) =~= encode_utf8(s.subrange(i, j)));
}

/// Equal encodings come from equal character sequences.
pub proof fn lemma_encode_utf8_injective(a: Seq<char>, b: Seq<char>)
    requires
        encode_utf8(a) == encode_utf8(b),
    ensures
        a == b,
{
    encode_utf8_decode_utf8(a);
    encode_utf8_decode_utf8(b);
}

/// The start of every character, and the end of the encoding, are character
/// boundaries of the encoding.
pub proof fn lemma_char_start_is_boundary(s: Seq<char>, i: int)
    requires
        0 <= i <= s.len(),
    ensures
        is_char_boundary(encode_utf8(s), char_start(s, i)),
{
    encode_utf8_valid_utf8(s);
    lemma_char_start_bounds(s, i);
    if i == s.len() {
        is_char_boundary_start_end_of_seq(encode_utf8(s));
    } else {
        lemma_char_bytes_in_string(s, i);
        is_char_boundary_iff_not_is_continuation_byte(encode_utf8(s), char_start(s, i));
    }
}

/// The first character of `s`, from `k` on, that starts at or after byte `q`
/// (or the end of `s`).
pub proof fn lemma_find_char(s: Seq<char>, k: int, q: int) -> (k2: int)
    requires
        0 <= k <= s.len(),
    ensures
        k <= k2 <= s.len(),
        k2 == s.len() || char_start(s, k2) >= q,
        forall|j: int| k <= j < k2 ==> char_start(s, j) < q,
    decreases s.len() - k,
{
    if k == s.len() || char_start(s, k) >= q {
        k
    } else {
        lemma_find_char(s, k + 1, q)
    }
}

/// When the first `p` bytes of the encoding of `s` are ASCII, they are the
/// first `p` characters, one byte each.
pub proof fn lemma_ascii_prefix(s: Seq<char>, p: int)
    requires
        0 <= p <= encode_utf8(s).len(),
        forall|m: int| 0 <= m < p ==> #[trigger] encode_utf8(s)[m] < 0x80,
    ensures
        p <= s.len(),
        p == encode_utf8(s).len() ==> p == s.len(),
        forall|j: int| 0 <= j <= p ==> #[trigger] char_start(s, j) == j,
        forall|j: int| 0 <= j < p ==> (#[trigger] s[j] as u32) == encode_utf8(s)[j] as u32,
    decreases p,
{
    lemma_char_start_bounds(s, 0);
    lemma_char_start_bounds(s, s.len() as int);
    if p > 0 {
        lemma_ascii_prefix(s, p - 1);
        let q = p - 1;
        assert(char_start(s, q) == q);
        if q == s.len() {
            assert(false);
        }
        lemma_char_position(s, q);
        lemma_scalar_bytes(s[q]);
        lemma_char_bytes_in_string(s, q);
        assert(encode_utf8(s)[char_start(s, q)] < 0x80);
        assert(char_start(s, p) == p);
    }
    if p == encode_utf8(s).len() && p < s.len() {
        assert(char_start(s, p) < char_start(s, s.len() as int));
    }
}

} // verus!
