//! Chunk scanning: per-chunk bitmasks of the bytes at or above a bound.
//!
//! A chunk is 64 bytes; bit `i` of the mask is set exactly when byte `i` of
//! the chunk is `>= bound`.

use vstd::prelude::*;
use vstd::std_specs::bits::{axiom_u64_trailing_zeros, u64_trailing_zeros};

verus! {

/// Bytes per scanned chunk.
pub const CHUNK_SIZE: usize = 64;

/// How many chunks ahead the level-1 read hint points.
pub const PREFETCH_L1_DISTANCE: usize = 4;

/// How many chunks ahead the level-2 read hint points.
pub const PREFETCH_L2_DISTANCE: usize = 16;

/// Bit `i` of `m` is set.
pub open spec fn bit_set(m: u64, i: u64) -> bool {
    (m >> i) & 1u64 == 1u64
}

/// `m` has bit `i` set exactly for the positions of `chunk` whose byte is `>= bound`.
pub open spec fn is_scan_mask(chunk: Seq<u8>, bound: u8, m: u64) -> bool {
    forall|i: u64| i < 64 ==> (#[trigger] bit_set(m, i) <==> chunk[i as int] >= bound)
}

proof fn lemma_set_bit(m: u64, i: u64, j: u64)
    requires
        i < 64,
        j < 64,
    ensures
        bit_set(m | (1u64 << i), j) == (bit_set(m, j) || i == j),
{
    assert(((m | (1u64 << i)) >> j) & 1u64 == 1u64 <==> (((m >> j) & 1u64 == 1u64) || i == j))
        by (bit_vector)
        requires
            i < 64,
            j < 64,
    ;
}

pub proof fn lemma_zero_bits(j: u64)
    requires
        j < 64,
    ensures
        !bit_set(0u64, j),
{
    assert((0u64 >> j) & 1u64 != 1u64) by (bit_vector);
}

/// Clearing the lowest set bit of a nonzero mask (`m & (m - 1)`) leaves
/// every other bit, and no bit below the lowest one is set.
pub proof fn lemma_clear_lowest_bit(m: u64)
    requires
        m != 0,
    ensures
        u64_trailing_zeros(m) < 64,
        bit_set(m, u64_trailing_zeros(m) as u64),
        forall|i: u64| i < u64_trailing_zeros(m) ==> !#[trigger] bit_set(m, i),
        forall|i: u64|
            i < 64 ==> (#[trigger] bit_set(m & ((m - 1) as u64), i) <==> (bit_set(m, i) && i
                != u64_trailing_zeros(m))),
        m & ((m - 1) as u64) < m,
{
    axiom_u64_trailing_zeros(m);
    let t = u64_trailing_zeros(m) as u64;
    assert(m << ((64 - t) as u64) == 0);
    assert forall|i: u64| i < t implies !#[trigger] bit_set(m, i) by {
        assert((m >> i) & 1u64 == 0u64);
    }
    assert forall|i: u64| i < 64 implies (#[trigger] bit_set(m & ((m - 1) as u64), i) <==> (bit_set(m, i)
        && i != t)) by {
        assert((((m & ((m - 1) as u64)) >> i) & 1u64 == 1u64) <==> (((m >> i) & 1u64 == 1u64) && i != t))
            by (bit_vector)
            requires
                m != 0,
                t < 64,
                i < 64,
                (m >> t) & 1u64 == 1u64,
                m << ((64 - t) as u64) == 0,
        ;
    }
    assert(m & ((m - 1) as u64) < m) by (bit_vector)
        requires
            m != 0,
    ;
}

/// Scan the first 64 bytes of `chunk`. Returns a `u64` bitmask where bit
/// `i` is set if `chunk[i] >= bound`.
pub fn scan_chunk(chunk: &[u8], bound: u8) -> (r: u64)
    requires
        chunk@.len() >= 64,
    ensures
        is_scan_mask(chunk@, bound, r),
{
    let mut mask: u64 = 0;
    let mut i: u64 = 0;
    proof {
        assert forall|j: u64| 0 <= j < 64 implies !#[trigger] bit_set(mask, j) by {
            lemma_zero_bits(j);
        }
    }
    while i < 64
        invariant
            i <= 64,
            chunk@.len() >= 64,
            forall|j: u64| j < i ==> (#[trigger] bit_set(mask, j) <==> chunk@[j as int] >= bound),
            forall|j: u64| i <= j < 64 ==> !#[trigger] bit_set(mask, j),
        decreases 64 - i,
    {
        if chunk[i as usize] >= bound {
            let old_mask = mask;
            mask = mask | (1u64 << i);
            assert forall|j: u64| j < 64 implies #[trigger] bit_set(mask, j) == (bit_set(old_mask, j)
                || i == j) by {
                lemma_set_bit(old_mask, i, j);
            }
        }
        i += 1;
    }
    mask
}

/// Scan a chunk while hinting that the bytes at the two given offsets will
/// be read soon. The hints do not change the result.
pub fn scan_and_prefetch(chunk: &[u8], prefetch_l1: usize, prefetch_l2: usize, bound: u8) -> (r: u64)
    requires
        chunk@.len() >= 64,
    ensures
        is_scan_mask(chunk@, bound, r),
{
    scan_chunk(chunk, bound)
}

/// Find the byte offset of the first byte >= `bound` in `bytes`.
///
/// Scans 64-byte chunks with [`scan_chunk`], then the tail byte-by-byte.
/// Returns `bytes.len()` if no such byte exists.
pub fn find_first_above(bytes: &[u8], bound: u8) -> (r: usize)
    ensures
        r <= bytes@.len(),
        forall|k: int| 0 <= k < r ==> bytes@[k] < bound,
        r < bytes@.len() ==> bytes@[r as int] >= bound,
{
    let len = bytes.len();
    let mut offset: usize = 0;

    while len - offset >= 64
        invariant
            len == bytes@.len(),
            offset <= len,
            forall|k: int| 0 <= k < offset ==> bytes@[k] < bound,
        decreases len - offset,
    {
        let chunk = vstd::slice::slice_subrange(bytes, offset, offset + 64);
        let mask = scan_chunk(chunk, bound);
        if mask != 0 {
            let tz = mask.trailing_zeros();
            proof {
                axiom_u64_trailing_zeros(mask);
                assert(bit_set(mask, tz as u64));
                assert forall|k: int| offset <= k < offset + tz implies bytes@[k] < bound by {
                    assert(!bit_set(mask, (k - offset) as u64));
                    assert(chunk@[k - offset] == bytes@[k]);
                }
                assert(chunk@[tz as int] == bytes@[offset + tz]);
            }
            return offset + tz as usize;
        }
        proof {
            assert forall|k: int| offset <= k < offset + 64 implies bytes@[k] < bound by {
                assert(!bit_set(mask, (k - offset) as u64)) by {
                    lemma_zero_bits((k - offset) as u64);
                }
                assert(chunk@[k - offset] == bytes@[k]);
            }
        }
        offset += 64;
    }

    while offset < len
        invariant
            len == bytes@.len(),
            offset <= len,
            forall|k: int| 0 <= k < offset ==> bytes@[k] < bound,
        decreases len - offset,
    {
        if bytes[offset] >= bound {
            return offset;
        }
        offset += 1;
    }
    len
}

} // verus!
