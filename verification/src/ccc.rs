//! Canonical Combining Class lookup and canonical ordering sort.
//!
//! The canonical ordering algorithm requires that combining marks are sorted
//! by their CCC value, with the sort being *stable* (preserving original
//! order among marks with the same CCC).

use vstd::prelude::*;

use crate::tables;

verus! {

/// A character paired with its Canonical Combining Class.
#[derive(Clone, Copy, Debug, PartialEq, Eq, Structural)]
pub struct CharAndCcc {
    /// The character.
    pub ch: char,
    /// Its canonical combining class.
    pub ccc: u8,
}

/// The entry for `ch` with class `ccc`.
pub open spec fn entry(ch: char, ccc: u8) -> CharAndCcc {
    CharAndCcc { ch, ccc }
}

/// Insert `e` into `t` after every entry whose class is at most `e.ccc`,
/// scanning from the back (one step of a stable insertion sort).
pub open spec fn insert_by_ccc(t: Seq<CharAndCcc>, e: CharAndCcc) -> Seq<CharAndCcc>
    decreases t.len(),
{
    if t.len() == 0 {
        seq![e]
    } else if t.last().ccc > e.ccc {
        insert_by_ccc(t.drop_last(), e).push(t.last())
    } else {
        t.push(e)
    }
}

/// The stable sort of `s` by canonical combining class.
pub open spec fn sort_by_ccc(s: Seq<CharAndCcc>) -> Seq<CharAndCcc>
    decreases s.len(),
{
    if s.len() == 0 {
        s
    } else {
        insert_by_ccc(sort_by_ccc(s.drop_last()), s.last())
    }
}

/// The classes in `s` never decrease.
pub open spec fn ccc_sorted(s: Seq<CharAndCcc>) -> bool {
    forall|i: int, j: int| 0 <= i <= j < s.len() ==> s[i].ccc <= s[j].ccc
}

/// The entries of `s` whose class is `k`, in order.
pub open spec fn with_ccc(s: Seq<CharAndCcc>, k: u8) -> Seq<CharAndCcc> {
    s.filter(|e: CharAndCcc| e.ccc == k)
}

/// Inline capacity for the common case.
pub const INLINE_CAP: usize = 32;

/// Buffer for collecting combining characters before canonical ordering sort.
///
/// Uses inline storage for the common case (most combining sequences have
/// at most a few marks). Falls back to heap allocation for longer sequences.
pub struct CccBuffer {
    inline: [CharAndCcc; 32],
    len: usize,
    overflow: Option<Vec<CharAndCcc>>,
}

impl View for CccBuffer {
    type V = Seq<CharAndCcc>;

    closed spec fn view(&self) -> Seq<CharAndCcc> {
        match self.overflow {
            Some(v) => v@,
            None => self.inline@.take(self.len as int),
        }
    }
}

impl CccBuffer {
    /// The length field agrees with the storage in use.
    pub closed spec fn wf(&self) -> bool {
        match self.overflow {
            Some(v) => v@.len() == self.len,
            None => self.len <= 32,
        }
    }

    /// Create a new, empty buffer.
    pub fn new() -> (r: Self)
        ensures
            r.wf(),
            r@ == Seq::<CharAndCcc>::empty(),
            !r.is_spilled_spec(),
    {
        let r = CccBuffer { inline: [CharAndCcc { ch: '\0', ccc: 0 }; 32], len: 0, overflow: None };
        assert(r@ =~= Seq::<CharAndCcc>::empty());
        r
    }

    /// Push a character with its CCC into the buffer.
    pub fn push(&mut self, ch: char, ccc: u8)
        requires
            old(self).wf(),
        ensures
            final(self).wf(),
            final(self)@ == old(self)@.push(CharAndCcc { ch, ccc }),
            final(self).is_spilled_spec() <==> (old(self).is_spilled_spec() || old(self)@.len()
                >= INLINE_CAP),
    {
        let entry = CharAndCcc { ch, ccc };
        if self.overflow.is_some() {
            let mut vec = self.overflow.take().unwrap();
            vec.push(entry);
            self.len = vec.len();
            self.overflow = Some(vec);
        } else if self.len < INLINE_CAP {
            let ghost before = self.inline@;
            self.inline[self.len] = entry;
            self.len = self.len + 1;
            assert(self@ =~= old(self)@.push(entry));
        } else {
            let mut vec: Vec<CharAndCcc> = Vec::with_capacity(INLINE_CAP * 2);
            vec.extend_from_slice(self.inline.as_slice());
            vec.push(entry);
            self.len = vec.len();
            self.overflow = Some(vec);
            assert(self@ =~= old(self)@.push(entry));
        }
    }

    /// The buffer holds no entries.
    pub fn is_empty(&self) -> (r: bool)
        requires
            self.wf(),
        ensures
            r == (self@.len() == 0),
    {
        self.len == 0
    }

    /// The number of buffered entries.
    pub fn len(&self) -> (r: usize)
        requires
            self.wf(),
        ensures
            r == self@.len(),
    {
        self.len
    }

    /// The entries moved to heap storage after the inline capacity ran out.
    pub fn is_spilled(&self) -> (r: bool)
        requires
            self.wf(),
        ensures
            r == self.is_spilled_spec(),
            !r ==> self@.len() <= INLINE_CAP,
    {
        self.overflow.is_some()
    }

    /// Sort entries by CCC (stable sort), then return all elements in sorted
    /// order, leaving the buffer empty and reusable.
    pub fn sort_and_drain(&mut self) -> (r: Vec<CharAndCcc>)
        requires
            old(self).wf(),
        ensures
            final(self).wf(),
            r@ == sort_by_ccc(old(self)@),
            final(self)@ == Seq::<CharAndCcc>::empty(),
    {
        self.sort_in_place();
        let r = vstd::slice::slice_to_vec(self.as_slice());
        self.clear();
        r
    }

    /// Sort entries by CCC (stable sort) in place. Buffer remains populated
    /// and can be iterated via `as_slice()`.
    pub fn sort_in_place(&mut self)
        requires
            old(self).wf(),
        ensures
            final(self).wf(),
            final(self)@ == sort_by_ccc(old(self)@),
    {
        if self.overflow.is_some() {
            let mut vec = self.overflow.take().unwrap();
            let n = vec.len();
            insertion_sort_prefix(vec.as_mut_slice(), n);
            assert(vec@.take(n as int) =~= vec@);
            assert(old(self)@.take(n as int) =~= old(self)@);
            self.overflow = Some(vec);
        } else {
            let n = self.len;
            insertion_sort_prefix(&mut self.inline, n);
        }
    }

    /// Clear the buffer for reuse. Overflow Vec capacity is preserved.
    pub fn clear(&mut self)
        requires
            old(self).wf(),
        ensures
            final(self).wf(),
            final(self)@ == Seq::<CharAndCcc>::empty(),
    {
        if self.overflow.is_some() {
            let mut vec = self.overflow.take().unwrap();
            vec.clear();
            self.len = 0;
            self.overflow = Some(vec);
        } else {
            self.len = 0;
        }
        assert(self@ =~= Seq::<CharAndCcc>::empty());
    }

    /// If the buffer has exactly one entry in inline storage, return it and
    /// reset the buffer to empty. Returns `None` if empty, has multiple entries,
    /// or has overflowed to heap.
    pub fn take_single_inline(&mut self) -> (r: Option<CharAndCcc>)
        requires
            old(self).wf(),
        ensures
            final(self).wf(),
            r matches Some(e) ==> old(self)@ == seq![e] && final(self)@ == Seq::<CharAndCcc>::empty(),
            r is None ==> final(self)@ == old(self)@,
            r is Some <==> (old(self)@.len() == 1 && !old(self).is_spilled_spec()),
    {
        if self.len == 1 && self.overflow.is_none() {
            self.len = 0;
            let e = self.inline[0];
            assert(old(self)@ =~= seq![e]);
            assert(self@ =~= Seq::<CharAndCcc>::empty());
            Some(e)
        } else {
            None
        }
    }

    /// The buffer's entries live in heap storage.
    pub closed spec fn is_spilled_spec(&self) -> bool {
        self.overflow is Some
    }

    /// Access elements as a slice.
    pub fn as_slice(&self) -> (r: &[CharAndCcc])
        requires
            self.wf(),
        ensures
            r@ == self@,
    {
        match &self.overflow {
            Some(vec) => vec.as_slice(),
            None => {
                let s = vstd::slice::slice_subrange(self.inline.as_slice(), 0, self.len);
                assert(s@ =~= self@);
                s
            },
        }
    }
}

/// One step of the insertion sort: the prefix `s[..i]` is sorted, insert `s[i]`.
proof fn lemma_insert_step(prefix: Seq<CharAndCcc>, e: CharAndCcc, j: int, shifted: Seq<CharAndCcc>)
    requires
        0 <= j <= prefix.len(),
        shifted == prefix.subrange(j, prefix.len() as int),
        forall|k: int| 0 <= k < shifted.len() ==> shifted[k].ccc > e.ccc,
        j == 0 || prefix[j - 1].ccc <= e.ccc,
    ensures
        insert_by_ccc(prefix, e) == prefix.subrange(0, j).push(e) + shifted,
    decreases prefix.len() - j,
{
    if j == prefix.len() {
        assert(shifted =~= Seq::<CharAndCcc>::empty());
        if prefix.len() == 0 {
            assert(prefix.subrange(0, j).push(e) + shifted =~= seq![e]);
        } else {
            assert(prefix.subrange(0, j) =~= prefix);
            assert(prefix.subrange(0, j).push(e) + shifted =~= prefix.push(e));
        }
    } else {
        let p2 = prefix.drop_last();
        assert(prefix.last() == shifted.last());
        assert(prefix.last().ccc > e.ccc);
        assert forall|k: int| 0 <= k < p2.subrange(j, p2.len() as int).len() implies p2.subrange(
            j,
            p2.len() as int,
        )[k].ccc > e.ccc by {
            assert(p2.subrange(j, p2.len() as int)[k] == shifted[k]);
        }
        if j > 0 {
            assert(p2[j - 1] == prefix[j - 1]);
        }
        lemma_insert_step(p2, e, j, p2.subrange(j, p2.len() as int));
        assert(p2.subrange(0, j) =~= prefix.subrange(0, j));
        assert(shifted =~= p2.subrange(j, p2.len() as int).push(prefix.last()));
        assert((p2.subrange(0, j).push(e) + p2.subrange(j, p2.len() as int)).push(prefix.last())
            =~= prefix.subrange(0, j).push(e) + shifted);
    }
}

proof fn lemma_insert_filter(t: Seq<CharAndCcc>, e: CharAndCcc, k: u8)
    ensures
        with_ccc(insert_by_ccc(t, e), k) == (if e.ccc == k {
            with_ccc(t, k).push(e)
        } else {
            with_ccc(t, k)
        }),
    decreases t.len(),
{
    reveal(Seq::filter);
    let p = |x: CharAndCcc| x.ccc == k;
    if t.len() == 0 {
        assert(seq![e].drop_last() =~= t);
        assert(seq![e].last() == e);
    } else if t.last().ccc > e.ccc {
        lemma_insert_filter(t.drop_last(), e, k);
        let ins = insert_by_ccc(t.drop_last(), e);
        assert(ins.push(t.last()).drop_last() =~= ins);
        assert(ins.push(t.last()).last() == t.last());
        if e.ccc == k {
            assert(!p(t.last()));
        }
    } else {
        assert(t.push(e).drop_last() =~= t);
        assert(t.push(e).last() == e);
    }
}

proof fn lemma_insert_sorted(t: Seq<CharAndCcc>, e: CharAndCcc)
    requires
        ccc_sorted(t),
    ensures
        ccc_sorted(insert_by_ccc(t, e)),
        insert_by_ccc(t, e).len() == t.len() + 1,
        insert_by_ccc(t, e).to_multiset() == t.to_multiset().insert(e),
        forall|i: int|
            0 <= i < insert_by_ccc(t, e).len() ==> (#[trigger] insert_by_ccc(t, e)[i] == e || t.contains(
                insert_by_ccc(t, e)[i],
            )),
    decreases t.len(),
{
    broadcast use vstd::seq_lib::group_to_multiset_ensures;

    if t.len() == 0 {
        assert(seq![e] =~= Seq::<CharAndCcc>::empty().push(e));
    } else if t.last().ccc > e.ccc {
        let d = t.drop_last();
        lemma_insert_sorted(d, e);
        let ins = insert_by_ccc(d, e);
        assert forall|i: int| 0 <= i < ins.len() implies ins[i].ccc <= t.last().ccc by {
            if ins[i] != e {
                assert(d.contains(ins[i]));
                let j = choose|j: int| 0 <= j < d.len() && d[j] == ins[i];
                assert(t[j] == d[j]);
            }
        }
        assert(t =~= d.push(t.last()));
        assert forall|i: int| 0 <= i < ins.push(t.last()).len() implies (#[trigger] ins.push(
            t.last(),
        )[i] == e || t.contains(ins.push(t.last())[i])) by {
            if i < ins.len() && ins[i] != e {
                assert(d.contains(ins[i]));
                let j = choose|j: int| 0 <= j < d.len() && d[j] == ins[i];
                assert(t[j] == d[j]);
            } else if i == ins.len() {
                assert(t[t.len() - 1] == t.last());
            }
        }
    } else {
        assert forall|i: int| 0 <= i < t.push(e).len() implies (#[trigger] t.push(e)[i] == e
            || t.contains(t.push(e)[i])) by {
            if i < t.len() {
                assert(t.push(e)[i] == t[i]);
            }
        }
    }
}

/// Canonical ordering sorts stably: the result is ordered by combining
/// class, holds the same entries, and keeps the relative order of entries
/// that share a class.
pub proof fn lemma_sort_by_ccc_is_stable_sort(s: Seq<CharAndCcc>)
    ensures
        ccc_sorted(sort_by_ccc(s)),
        sort_by_ccc(s).len() == s.len(),
        sort_by_ccc(s).to_multiset() == s.to_multiset(),
        forall|k: u8| #[trigger] with_ccc(sort_by_ccc(s), k) == with_ccc(s, k),
    decreases s.len(),
{
    broadcast use vstd::seq_lib::group_to_multiset_ensures;

    reveal(Seq::filter);
    if s.len() == 0 {
    } else {
        let d = s.drop_last();
        lemma_sort_by_ccc_is_stable_sort(d);
        lemma_insert_sorted(sort_by_ccc(d), s.last());
        assert(s =~= d.push(s.last()));
        assert forall|k: u8| #[trigger] with_ccc(sort_by_ccc(s), k) == with_ccc(s, k) by {
            lemma_insert_filter(sort_by_ccc(d), s.last(), k);
            assert(with_ccc(d, k) == with_ccc(sort_by_ccc(d), k));
        }
    }
}

/// Sorting a sequence that is already in class order leaves it unchanged.
pub proof fn lemma_sort_sorted_is_identity(s: Seq<CharAndCcc>)
    requires
        ccc_sorted(s),
    ensures
        sort_by_ccc(s) == s,
    decreases s.len(),
{
    if s.len() > 0 {
        let d = s.drop_last();
        assert(ccc_sorted(d));
        lemma_sort_sorted_is_identity(d);
        if d.len() > 0 {
            assert(d.last().ccc <= s.last().ccc);
        }
        assert(d.push(s.last()) =~= s);
    }
}

/// Inserting an entry whose class is at least every class of a sorted
/// sequence appends it.
pub proof fn lemma_insert_at_end(t: Seq<CharAndCcc>, e: CharAndCcc)
    requires
        forall|i: int| 0 <= i < t.len() ==> (#[trigger] t[i]).ccc <= e.ccc,
    ensures
        insert_by_ccc(t, e) == t.push(e),
{
    if t.len() == 0 {
        assert(seq![e] =~= t.push(e));
    } else {
        assert(t[t.len() - 1].ccc <= e.ccc);
    }
}

/// Inserting two entries of different classes into a sorted sequence gives
/// the same result in either order.
pub proof fn lemma_insert_commute(t: Seq<CharAndCcc>, e: CharAndCcc, f: CharAndCcc)
    requires
        ccc_sorted(t),
        f.ccc < e.ccc,
    ensures
        insert_by_ccc(insert_by_ccc(t, e), f) == insert_by_ccc(insert_by_ccc(t, f), e),
    decreases t.len(),
{
    if t.len() == 0 {
        assert(seq![e].drop_last() =~= t);
        assert(seq![f].drop_last() =~= t);
        assert(seq![e].last() == e);
        assert(seq![f].last() == f);
        assert(t =~= Seq::<CharAndCcc>::empty());
        assert(seq![e].drop_last() =~= Seq::<CharAndCcc>::empty());
        assert(insert_by_ccc(Seq::<CharAndCcc>::empty(), f) == seq![f]);
        assert(insert_by_ccc(seq![e], f) == seq![f].push(e));
        assert(seq![f].push(e) =~= seq![f, e]);
        assert(insert_by_ccc(seq![f], e) =~= seq![f, e]);
    } else {
        let d = t.drop_last();
        let l = t.last();
        assert(ccc_sorted(d));
        if l.ccc > e.ccc {
            lemma_insert_commute(d, e, f);
            let a = insert_by_ccc(d, e).push(l);
            assert(a.drop_last() =~= insert_by_ccc(d, e));
            assert(a.last() == l);
            let b = insert_by_ccc(d, f).push(l);
            assert(b.drop_last() =~= insert_by_ccc(d, f));
            assert(b.last() == l);
        } else if l.ccc > f.ccc {
            let a = t.push(e);
            assert(a.drop_last() =~= t);
            assert(a.last() == e);
            let b = insert_by_ccc(d, f).push(l);
            assert(b.last() == l);
        } else {
            let a = t.push(e);
            assert(a.drop_last() =~= t);
            assert(a.last() == e);
            let b = t.push(f);
            assert(b.last() == f);
        }
    }
}

/// An entry may move past entries of strictly lower classes without
/// changing the canonical order.
pub proof fn lemma_sort_move_past_lower(y: Seq<CharAndCcc>, e: CharAndCcc, w: Seq<CharAndCcc>)
    requires
        forall|i: int| 0 <= i < w.len() ==> (#[trigger] w[i]).ccc < e.ccc,
    ensures
        sort_by_ccc(y + seq![e] + w) == sort_by_ccc(y + w + seq![e]),
    decreases w.len(),
{
    if w.len() == 0 {
        assert(y + seq![e] + w =~= y + w + seq![e]);
    } else {
        let wd = w.drop_last();
        let f = w.last();
        assert(f.ccc < e.ccc);
        lemma_sort_move_past_lower(y, e, wd);
        let left = y + seq![e] + w;
        assert(left.drop_last() =~= y + seq![e] + wd);
        assert(left.last() == f);
        let right = y + w + seq![e];
        assert(right.drop_last() =~= y + w);
        assert(right.last() == e);
        let yw = y + w;
        assert(yw.drop_last() =~= y + wd);
        assert(yw.last() == f);
        let ywd_e = y + wd + seq![e];
        assert(ywd_e.drop_last() =~= y + wd);
        assert(ywd_e.last() == e);
        lemma_sort_by_ccc_is_stable_sort(y + wd);
        lemma_insert_commute(sort_by_ccc(y + wd), e, f);
        assert(sort_by_ccc(left) == insert_by_ccc(sort_by_ccc(y + seq![e] + wd), f));
        assert(sort_by_ccc(y + seq![e] + wd) == sort_by_ccc(ywd_e));
        assert(sort_by_ccc(ywd_e) == insert_by_ccc(sort_by_ccc(y + wd), e));
        assert(sort_by_ccc(right) == insert_by_ccc(sort_by_ccc(yw), e));
        assert(sort_by_ccc(yw) == insert_by_ccc(sort_by_ccc(y + wd), f));
    }
}

/// Stable insertion sort by CCC of the first `n` entries of `slice`.
pub fn insertion_sort_prefix(slice: &mut [CharAndCcc], n: usize)
    requires
        n <= old(slice)@.len(),
    ensures
        final(slice)@.len() == old(slice)@.len(),
        final(slice)@.take(n as int) == sort_by_ccc(old(slice)@.take(n as int)),
        final(slice)@.skip(n as int) == old(slice)@.skip(n as int),
{
    let ghost orig = slice@;
    let mut i: usize = 1;
    if n == 0 {
        assert(slice@.take(0) =~= sort_by_ccc(orig.take(0)));
        return;
    }
    assert(orig.take(1).drop_last() =~= Seq::<CharAndCcc>::empty());
    assert(sort_by_ccc(Seq::<CharAndCcc>::empty()) =~= Seq::<CharAndCcc>::empty());
    assert(insert_by_ccc(Seq::<CharAndCcc>::empty(), orig[0]) =~= seq![orig[0]]);
    assert(sort_by_ccc(orig.take(1)) =~= seq![orig[0]]);
    assert(slice@.take(1) =~= seq![orig[0]]);
    while i < n
        invariant
            1 <= i <= n,
            n <= orig.len(),
            slice@.len() == orig.len(),
            slice@.take(i as int) == sort_by_ccc(orig.take(i as int)),
            slice@.skip(i as int) == orig.skip(i as int),
        decreases n - i,
    {
        let key = slice[i];
        let ghost prefix = slice@.take(i as int);
        assert(key == orig[i as int]) by {
            assert(slice@.skip(i as int)[0] == orig.skip(i as int)[0]);
        }
        let key_ccc = key.ccc;
        let mut j: usize = i;
        assert(slice@.skip(i + 1) =~= orig.skip(i + 1)) by {
            assert forall|k: int| 0 <= k < slice@.skip(i + 1).len() implies #[trigger] slice@.skip(
                i + 1,
            )[k] == orig.skip(i + 1)[k] by {
                assert(slice@.skip(i + 1)[k] == slice@.skip(i as int)[k + 1]);
                assert(orig.skip(i + 1)[k] == orig.skip(i as int)[k + 1]);
            }
        }
        assert(slice@.take(j as int) =~= prefix.take(j as int));
        while j > 0 && slice[j - 1].ccc > key_ccc
            invariant
                0 <= j <= i < n <= orig.len(),
                slice@.len() == orig.len(),
                prefix == sort_by_ccc(orig.take(i as int)),
                slice@.take(j as int) == prefix.take(j as int),
                forall|k: int| j < k <= i ==> #[trigger] slice@[k] == prefix[k - 1],
                forall|k: int| j <= k < i ==> #[trigger] prefix[k].ccc > key_ccc,
                slice@.skip(i + 1) == orig.skip(i + 1),
                prefix.len() == i,
            decreases j,
        {
            let prev = slice[j - 1];
            let ghost jo = j as int;
            assert(prev == prefix[jo - 1]) by {
                assert(slice@.take(jo)[jo - 1] == prefix.take(jo)[jo - 1]);
            }
            slice[j] = prev;
            j -= 1;
            proof {
                assert(slice@[jo] == prefix[jo - 1]);
                assert(slice@.take(j as int) =~= prefix.take(j as int));
                assert(slice@.skip(i + 1) =~= orig.skip(i + 1));
            }
        }
        slice[j] = key;
        proof {
            let shifted = prefix.subrange(j as int, i as int);
            assert forall|k: int| 0 <= k < shifted.len() implies shifted[k].ccc > key.ccc by {
                assert(shifted[k] == prefix[j + k]);
            }
            if j > 0 {
                assert(prefix[j - 1] == slice@[j - 1]);
            }
            lemma_insert_step(prefix, key, j as int, shifted);
            assert(orig.take(i + 1).drop_last() =~= orig.take(i as int));
            assert(orig.take(i + 1).last() == key);
            assert(slice@.take(i + 1) =~= prefix.subrange(0, j as int).push(key) + shifted);
            assert(slice@.skip(i + 1) =~= orig.skip(i + 1));
        }
        i += 1;
    }
}

/// Stable insertion sort of a whole slice by CCC.
pub fn insertion_sort_by_ccc(slice: &mut [CharAndCcc])
    ensures
        final(slice)@ == sort_by_ccc(old(slice)@),
{
    let n = slice.len();
    insertion_sort_prefix(slice, n);
    assert(old(slice)@.take(n as int) =~= old(slice)@);
    assert(slice@.take(n as int) =~= slice@);
}

/// Look up the Canonical Combining Class for a character.
pub fn canonical_combining_class(c: char) -> (r: u8)
    ensures
        r == tables::canonical_combining_class_of(c),
{
    tables::lookup_ccc(c)
}

} // verus!
