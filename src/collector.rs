use vstd::prelude::*;
use crate::word::Word;

verus! {

/// How many words a collector keeps unless told otherwise.
pub const MAX_SOLUTIONS: usize = 256;

/// The ranking key of a word.
pub open spec fn key(w: Word) -> int {
    w.sorting_score as int
}

/// Keys never grow from the front to the back.
pub open spec fn sorted_desc(s: Seq<Word>) -> bool {
    forall|i: int, j: int| 0 <= i < j < s.len() ==> key(#[trigger] s[i]) >= key(#[trigger] s[j])
}

/// The number of leading words whose key is at least that of `w`: where `w` goes, after every
/// word ranked as high as it.
pub open spec fn insert_pos(s: Seq<Word>, w: Word) -> int
    decreases s.len(),
{
    if s.len() == 0 {
        0
    } else if key(s[0]) >= key(w) {
        1 + insert_pos(s.drop_first(), w)
    } else {
        0
    }
}

/// `s` with `w` placed after every word ranked as high as it.
pub open spec fn inserted(s: Seq<Word>, w: Word) -> Seq<Word> {
    s.insert(insert_pos(s, w), w)
}

/// The first `k` words of `s`.
pub open spec fn capped(s: Seq<Word>, k: nat) -> Seq<Word> {
    if s.len() > k {
        s.take(k as int)
    } else {
        s
    }
}

/// `s` after one push of `w` with a limit of `k` words.
pub open spec fn pushed(s: Seq<Word>, w: Word, k: nat) -> Seq<Word> {
    capped(inserted(s, w), k)
}

/// `s` after pushing every word of `ws` in order, with a limit of `k` words.
pub open spec fn pushed_all(s: Seq<Word>, ws: Seq<Word>, k: nat) -> Seq<Word>
    decreases ws.len(),
{
    if ws.len() == 0 {
        s
    } else {
        pushed(pushed_all(s, ws.drop_last(), k), ws.last(), k)
    }
}

/// `s` after inserting every word of `ws` in order, with no limit.
pub open spec fn inserted_all(s: Seq<Word>, ws: Seq<Word>) -> Seq<Word>
    decreases ws.len(),
{
    if ws.len() == 0 {
        s
    } else {
        inserted(inserted_all(s, ws.drop_last()), ws.last())
    }
}

/// Where a word goes in a sorted sequence: after every word of at least its key, before every
/// word of a smaller key.
proof fn lemma_insert_pos(s: Seq<Word>, w: Word)
    requires
        sorted_desc(s),
    ensures
        0 <= insert_pos(s, w) <= s.len(),
        forall|i: int| 0 <= i < insert_pos(s, w) ==> key(#[trigger] s[i]) >= key(w),
        forall|i: int| insert_pos(s, w) <= i < s.len() ==> key(#[trigger] s[i]) < key(w),
    decreases s.len(),
{
    if s.len() > 0 {
        let t = s.drop_first();
        assert(sorted_desc(t)) by {
            assert forall|i: int, j: int| 0 <= i < j < t.len() implies key(#[trigger] t[i]) >= key(
                #[trigger] t[j],
            ) by {
                assert(t[i] == s[i + 1] && t[j] == s[j + 1]);
            }
        }
        lemma_insert_pos(t, w);
        if key(s[0]) >= key(w) {
            assert forall|i: int| 0 <= i < insert_pos(s, w) implies key(#[trigger] s[i]) >= key(w) by {
                if i > 0 {
                    assert(s[i] == t[i - 1]);
                }
            }
            assert forall|i: int| insert_pos(s, w) <= i < s.len() implies key(#[trigger] s[i]) < key(
                w,
            ) by {
                assert(s[i] == t[i - 1]);
            }
        } else {
            assert forall|i: int| 0 <= i < s.len() implies key(#[trigger] s[i]) < key(w) by {
                if i > 0 {
                    assert(key(s[0]) >= key(s[i]));
                }
            }
        }
    }
}

/// Any split point of a sorted sequence between the words ranked at least as high as `w` and
/// those ranked lower is where `w` goes.
proof fn lemma_insert_pos_at(s: Seq<Word>, w: Word, p: int)
    requires
        sorted_desc(s),
        0 <= p <= s.len(),
        forall|i: int| 0 <= i < p ==> key(#[trigger] s[i]) >= key(w),
        forall|i: int| p <= i < s.len() ==> key(#[trigger] s[i]) < key(w),
    ensures
        insert_pos(s, w) == p,
{
    lemma_insert_pos(s, w);
    let q = insert_pos(s, w);
    if q < p {
        assert(key(s[q]) < key(w));
    } else if p < q {
        assert(key(s[p]) < key(w));
    }
}

proof fn lemma_inserted_sorted(s: Seq<Word>, w: Word)
    requires
        sorted_desc(s),
    ensures
        sorted_desc(inserted(s, w)),
        inserted(s, w).len() == s.len() + 1,
{
    lemma_insert_pos(s, w);
    let p = insert_pos(s, w);
    let r = inserted(s, w);
    assert forall|i: int, j: int| 0 <= i < j < r.len() implies key(#[trigger] r[i]) >= key(
        #[trigger] r[j],
    ) by {
        if i < p && j < p {
            assert(r[i] == s[i] && r[j] == s[j]);
        } else if i < p && j == p {
            assert(r[i] == s[i]);
        } else if i < p {
            assert(r[i] == s[i] && r[j] == s[j - 1]);
        } else if i == p {
            assert(r[j] == s[j - 1]);
        } else {
            assert(r[i] == s[i - 1] && r[j] == s[j - 1]);
        }
    }
}

proof fn lemma_capped_sorted(s: Seq<Word>, k: nat)
    requires
        sorted_desc(s),
    ensures
        sorted_desc(capped(s, k)),
        capped(s, k).len() <= k,
        capped(s, k).len() <= s.len(),
{
    let c = capped(s, k);
    assert forall|i: int, j: int| 0 <= i < j < c.len() implies key(#[trigger] c[i]) >= key(
        #[trigger] c[j],
    ) by {
        assert(c[i] == s[i] && c[j] == s[j]);
    }
}


/// Capping before an insertion changes nothing that capping after it keeps.
proof fn lemma_cap_then_insert(s: Seq<Word>, w: Word, k: nat)
    requires
        sorted_desc(s),
    ensures
        capped(inserted(capped(s, k), w), k) == capped(inserted(s, w), k),
{
    if s.len() > k {
        let c = s.take(k as int);
        lemma_insert_pos(s, w);
        let p = insert_pos(s, w);
        let q = if p < k {
            p
        } else {
            k as int
        };
        lemma_capped_sorted(s, k);
        lemma_insert_pos_at(c, w, q);
        assert(capped(inserted(c, w), k) =~= capped(inserted(s, w), k));
    }
}

proof fn lemma_inserted_all_sorted(s: Seq<Word>, ws: Seq<Word>)
    requires
        sorted_desc(s),
    ensures
        sorted_desc(inserted_all(s, ws)),
        inserted_all(s, ws).len() == s.len() + ws.len(),
    decreases ws.len(),
{
    if ws.len() > 0 {
        lemma_inserted_all_sorted(s, ws.drop_last());
        lemma_inserted_sorted(inserted_all(s, ws.drop_last()), ws.last());
    }
}

/// Pushing with a limit keeps the first words of inserting with none.
proof fn lemma_pushed_all_capped(s: Seq<Word>, ws: Seq<Word>, k: nat)
    requires
        sorted_desc(s),
        s.len() <= k,
    ensures
        pushed_all(s, ws, k) == capped(inserted_all(s, ws), k),
    decreases ws.len(),
{
    if ws.len() > 0 {
        lemma_pushed_all_capped(s, ws.drop_last(), k);
        lemma_inserted_all_sorted(s, ws.drop_last());
        lemma_cap_then_insert(inserted_all(s, ws.drop_last()), ws.last(), k);
    }
}

proof fn lemma_inserted_all_concat(v: Seq<Word>, a: Seq<Word>, b: Seq<Word>)
    ensures
        inserted_all(v, a + b) == inserted_all(inserted_all(v, a), b),
    decreases b.len(),
{
    if b.len() == 0 {
        assert(a + b =~= a);
    } else {
        assert((a + b).drop_last() =~= a + b.drop_last());
        assert((a + b).last() == b.last());
        lemma_inserted_all_concat(v, a, b.drop_last());
    }
}

/// Pushing `a + b` is pushing `a`, then `b`.
pub proof fn lemma_pushed_all_concat(v: Seq<Word>, a: Seq<Word>, b: Seq<Word>, k: nat)
    ensures
        pushed_all(v, a + b, k) == pushed_all(pushed_all(v, a, k), b, k),
    decreases b.len(),
{
    if b.len() == 0 {
        assert(a + b =~= a);
    } else {
        assert((a + b).drop_last() =~= a + b.drop_last());
        assert((a + b).last() == b.last());
        lemma_pushed_all_concat(v, a, b.drop_last(), k);
    }
}

/// Two insertions of different keys give the same result in either order.
proof fn lemma_commute(v: Seq<Word>, x: Word, y: Word)
    requires
        sorted_desc(v),
        key(y) < key(x),
    ensures
        inserted(inserted(v, x), y) == inserted(inserted(v, y), x),
{
    lemma_insert_pos(v, x);
    lemma_insert_pos(v, y);
    let px = insert_pos(v, x);
    let py = insert_pos(v, y);
    if py < px {
        assert(key(v[py]) >= key(x));
    }
    let v1 = inserted(v, x);
    let v2 = inserted(v, y);
    lemma_inserted_sorted(v, x);
    lemma_inserted_sorted(v, y);
    assert forall|i: int| 0 <= i < py + 1 implies key(#[trigger] v1[i]) >= key(y) by {
        if i < px {
            assert(v1[i] == v[i]);
        } else if i > px {
            assert(v1[i] == v[i - 1]);
        }
    }
    assert forall|i: int| py + 1 <= i < v1.len() implies key(#[trigger] v1[i]) < key(y) by {
        assert(v1[i] == v[i - 1]);
    }
    lemma_insert_pos_at(v1, y, py + 1);
    assert forall|i: int| 0 <= i < px implies key(#[trigger] v2[i]) >= key(x) by {
        assert(v2[i] == v[i]);
    }
    assert forall|i: int| px <= i < v2.len() implies key(#[trigger] v2[i]) < key(x) by {
        if i < py {
            assert(v2[i] == v[i]);
        } else if i > py {
            assert(v2[i] == v[i - 1]);
        }
    }
    lemma_insert_pos_at(v2, x, px);
    assert(inserted(v1, y) =~= inserted(v2, x));
}

/// Inserting `x` before words that all rank below it is the same as inserting it after them.
proof fn lemma_insert_before_lower(v: Seq<Word>, x: Word, r: Seq<Word>)
    requires
        sorted_desc(v),
        forall|i: int| 0 <= i < r.len() ==> key(#[trigger] r[i]) < key(x),
    ensures
        inserted_all(inserted(v, x), r) == inserted(inserted_all(v, r), x),
    decreases r.len(),
{
    if r.len() > 0 {
        let r0 = r.drop_last();
        assert forall|i: int| 0 <= i < r0.len() implies key(#[trigger] r0[i]) < key(x) by {
            assert(r0[i] == r[i]);
        }
        lemma_insert_before_lower(v, x, r0);
        lemma_inserted_all_sorted(v, r0);
        assert(key(r[r.len() - 1]) < key(x));
        lemma_commute(inserted_all(v, r0), x, r.last());
    }
}

/// Inserting the words of `b` one by one, or first sorting them the same way and inserting the
/// result, ends the same.
proof fn lemma_presorted(u: Seq<Word>, b: Seq<Word>)
    requires
        sorted_desc(u),
    ensures
        inserted_all(u, inserted_all(Seq::empty(), b)) == inserted_all(u, b),
    decreases b.len(),
{
    if b.len() > 0 {
        let b0 = b.drop_last();
        let x = b.last();
        let t = inserted_all(Seq::empty(), b0);
        lemma_inserted_all_sorted(Seq::empty(), b0);
        lemma_insert_pos(t, x);
        let p = insert_pos(t, x);
        let front = t.take(p);
        let back = t.skip(p);
        assert(inserted(t, x) =~= (front + seq![x]) + back);
        lemma_inserted_all_concat(u, front + seq![x], back);
        assert((front + seq![x]).drop_last() =~= front);
        assert((front + seq![x]).last() == x);
        assert(inserted_all(u, front + seq![x]) == inserted(inserted_all(u, front), x));
        lemma_inserted_all_sorted(u, front);
        assert forall|i: int| 0 <= i < back.len() implies key(#[trigger] back[i]) < key(x) by {
            assert(back[i] == t[p + i]);
        }
        lemma_insert_before_lower(inserted_all(u, front), x, back);
        lemma_inserted_all_concat(u, front, back);
        assert(front + back =~= t);
        lemma_presorted(u, b0);
    }
}

/// Inserting the first `j` words of a sorted `t` leaves at least `j` words ranked at least as high
/// as the `j`-th of them.
proof fn lemma_prefix_rank(u: Seq<Word>, t: Seq<Word>, j: int)
    requires
        sorted_desc(u),
        sorted_desc(t),
        0 <= j <= t.len(),
    ensures
        sorted_desc(inserted_all(u, t.take(j))),
        inserted_all(u, t.take(j)).len() == u.len() + j,
        j > 0 ==> key(inserted_all(u, t.take(j))[j - 1]) >= key(t[j - 1]),
    decreases j,
{
    lemma_inserted_all_sorted(u, t.take(j));
    if j > 0 {
        lemma_prefix_rank(u, t, j - 1);
        let w = inserted_all(u, t.take(j - 1));
        let x = t[j - 1];
        assert(t.take(j).drop_last() =~= t.take(j - 1));
        assert(t.take(j).last() == x);
        lemma_insert_pos(w, x);
        let p = insert_pos(w, x);
        if j > 1 {
            assert(key(w[j - 2]) >= key(x));
            if p < j - 1 {
                assert(key(w[p]) >= key(w[j - 2]));
            }
        }
        let w1 = inserted(w, x);
        if p < j - 1 {
        } else if p == j - 1 {
            assert(w1[j - 1] == x);
        } else {
            assert(w1[j - 1] == w[j - 1]);
        }
    }
}

/// Inserting words that rank no higher than the `k`-th word leaves the first `k` words as they are.
proof fn lemma_tail_below(v: Seq<Word>, r: Seq<Word>, k: nat, m: int)
    requires
        sorted_desc(v),
        v.len() >= k >= 1,
        key(v[k - 1]) >= m,
        forall|i: int| 0 <= i < r.len() ==> key(#[trigger] r[i]) <= m,
    ensures
        sorted_desc(inserted_all(v, r)),
        inserted_all(v, r).len() >= k,
        inserted_all(v, r).take(k as int) == v.take(k as int),
    decreases r.len(),
{
    lemma_inserted_all_sorted(v, r);
    if r.len() > 0 {
        let r0 = r.drop_last();
        assert forall|i: int| 0 <= i < r0.len() implies key(#[trigger] r0[i]) <= m by {
            assert(r0[i] == r[i]);
        }
        lemma_tail_below(v, r0, k, m);
        let z = inserted_all(v, r0);
        let x = r.last();
        assert(key(r[r.len() - 1]) <= m);
        assert(z[k - 1] == z.take(k as int)[k - 1]);
        lemma_insert_pos(z, x);
        let p = insert_pos(z, x);
        if p < k {
            assert(key(z[p]) >= key(z[k - 1]));
        }
        assert(inserted(z, x).take(k as int) =~= z.take(k as int));
    }
}

/// Capping the words to insert first does not change the first `k` words of the result.
proof fn lemma_cap_source(u: Seq<Word>, t: Seq<Word>, k: nat)
    requires
        sorted_desc(u),
        sorted_desc(t),
    ensures
        capped(inserted_all(u, capped(t, k)), k) == capped(inserted_all(u, t), k),
{
    if t.len() > k {
        lemma_inserted_all_sorted(u, t);
        lemma_inserted_all_sorted(u, t.take(k as int));
        if k == 0 {
            assert(capped(inserted_all(u, capped(t, k)), k) =~= Seq::<Word>::empty());
            assert(capped(inserted_all(u, t), k) =~= Seq::<Word>::empty());
        } else {
            lemma_prefix_rank(u, t, k as int);
            let v = inserted_all(u, t.take(k as int));
            let back = t.skip(k as int);
            let m = key(t[k - 1]);
            assert forall|i: int| 0 <= i < back.len() implies key(#[trigger] back[i]) <= m by {
                assert(back[i] == t[k + i]);
            }
            lemma_tail_below(v, back, k, m);
            lemma_inserted_all_concat(u, t.take(k as int), back);
            assert(t.take(k as int) + back =~= t);
        }
    }
}

/// After any pushes into a collector that was sorted and within its limit, it is still sorted and
/// holds at most `k` words.
pub proof fn lemma_pushes_stay_bounded(s: Seq<Word>, ws: Seq<Word>, k: nat)
    requires
        sorted_desc(s),
        s.len() <= k,
    ensures
        sorted_desc(pushed_all(s, ws, k)),
        pushed_all(s, ws, k).len() <= k,
{
    lemma_pushed_all_capped(s, ws, k);
    lemma_inserted_all_sorted(s, ws);
    lemma_capped_sorted(inserted_all(s, ws), k);
}

/// Pushing the contents of a collector that received `b` into a collector gives what pushing all
/// of `b` into it gives.
pub proof fn lemma_merge_into(s: Seq<Word>, b: Seq<Word>, k: nat)
    requires
        sorted_desc(s),
        s.len() <= k,
    ensures
        pushed_all(s, pushed_all(Seq::empty(), b, k), k) == pushed_all(s, b, k),
{
    let e = Seq::<Word>::empty();
    lemma_pushed_all_capped(e, b, k);
    lemma_inserted_all_sorted(e, b);
    let t = inserted_all(e, b);
    lemma_capped_sorted(t, k);
    lemma_pushed_all_capped(s, capped(t, k), k);
    lemma_cap_source(s, t, k);
    lemma_presorted(s, b);
    lemma_pushed_all_capped(s, b, k);
}

/// Merging two collectors with the same limit, by pushing the words of the second into the
/// first, yields the same words in the same order as pushing everything into one collector.
pub proof fn lemma_merge_collectors(a: Seq<Word>, b: Seq<Word>, k: nat)
    ensures
        pushed_all(pushed_all(Seq::empty(), a, k), pushed_all(Seq::empty(), b, k), k)
            == pushed_all(Seq::empty(), a + b, k),
{
    let e = Seq::<Word>::empty();
    lemma_pushes_stay_bounded(e, a, k);
    lemma_merge_into(pushed_all(e, a, k), b, k);
    lemma_pushed_all_concat(e, a, b, k);
}

/// The words of all parts, part after part.
pub open spec fn joined(parts: Seq<Seq<Word>>) -> Seq<Word>
    decreases parts.len(),
{
    if parts.len() == 0 {
        Seq::empty()
    } else {
        joined(parts.drop_last()) + parts.last()
    }
}

/// One collector per part, each filled with its part's words, merged part after part into a
/// fresh collector; every collector keeps `k` words.
pub open spec fn merged(parts: Seq<Seq<Word>>, k: nat) -> Seq<Word>
    decreases parts.len(),
{
    if parts.len() == 0 {
        Seq::empty()
    } else {
        pushed_all(merged(parts.drop_last(), k), pushed_all(Seq::empty(), parts.last(), k), k)
    }
}

/// Splitting the words into parts, collecting each part on its own and merging the collectors in
/// the parts' order yields the same words, in the same order, as collecting all words in one
/// collector: the number of parts does not matter.
pub proof fn lemma_merge_parts(parts: Seq<Seq<Word>>, k: nat)
    ensures
        merged(parts, k) == pushed_all(Seq::empty(), joined(parts), k),
    decreases parts.len(),
{
    if parts.len() > 0 {
        let init = parts.drop_last();
        lemma_merge_parts(init, k);
        lemma_pushes_stay_bounded(Seq::empty(), joined(init), k);
        lemma_merge_into(pushed_all(Seq::empty(), joined(init), k), parts.last(), k);
        lemma_pushed_all_concat(Seq::empty(), joined(init), parts.last(), k);
    }
}

/// Words kept in order of ranking, at most `limit` of them: the best words met so far.
pub struct SortedWordVec {
    inner: Vec<Word>,
    limit: usize,
}

impl View for SortedWordVec {
    type V = Seq<Word>;

    closed spec fn view(&self) -> Seq<Word> {
        self.inner@
    }
}

impl SortedWordVec {
    /// The most words the collector keeps.
    pub closed spec fn cap(&self) -> nat {
        self.limit as nat
    }

    /// Sorted by key, highest first, and never longer than the limit.
    pub open spec fn wf(&self) -> bool {
        sorted_desc(self@) && self@.len() <= self.cap()
    }

    /// An empty collector that keeps at most `MAX_SOLUTIONS` words.
    pub fn new() -> (r: SortedWordVec)
        ensures
            r@ == Seq::<Word>::empty(),
            r.cap() == MAX_SOLUTIONS,
            r.wf(),
    {
        SortedWordVec { inner: Vec::new(), limit: MAX_SOLUTIONS }
    }

    /// An empty collector that keeps at most `limit` words.
    pub fn with_limit(limit: usize) -> (r: SortedWordVec)
        ensures
            r@ == Seq::<Word>::empty(),
            r.cap() == limit,
            r.wf(),
    {
        SortedWordVec { inner: Vec::new(), limit }
    }

    /// Returns the most words the collector keeps.
    pub fn limit(&self) -> (r: usize)
        ensures
            r == self.cap(),
    {
        self.limit
    }

    /// Returns the number of words held.
    pub fn len(&self) -> (r: usize)
        ensures
            r == self@.len(),
    {
        self.inner.len()
    }

    /// Returns the words held, best first.
    pub fn words(&self) -> (r: &Vec<Word>)
        ensures
            r@ == self@,
    {
        &self.inner
    }

    /// Gives up the collector for the words it held, best first.
    pub fn into_vec(self) -> (r: Vec<Word>)
        ensures
            r@ == self@,
    {
        self.inner
    }

    /// Inserts `value` after every word whose sorting score is at least its own (so among equal
    /// scores the earlier push ranks first), found by binary search; then drops the last word if
    /// the collector holds more than its limit.
    pub fn push(&mut self, value: Word)
        requires
            old(self).wf(),
        ensures
            final(self)@ == pushed(old(self)@, value, old(self).cap()),
            final(self).cap() == old(self).cap(),
            final(self).wf(),
    {
        let mut l: usize = 0;
        let mut r: usize = self.inner.len();
        while l < r
            invariant
                self.wf(),
                self.inner@ == old(self).inner@,
                self.limit == old(self).limit,
                l <= r <= self.inner@.len(),
                forall|i: int| 0 <= i < l ==> key(#[trigger] self.inner@[i]) >= key(value),
                forall|i: int| r <= i < self.inner@.len() ==> key(#[trigger] self.inner@[i]) < key(
                    value,
                ),
            decreases r - l,
        {
            let m = l + (r - l) / 2;
            if self.inner[m].sorting_score >= value.sorting_score {
                assert forall|i: int| 0 <= i < m + 1 implies key(#[trigger] self.inner@[i]) >= key(
                    value,
                ) by {
                    if i < m {
                        assert(key(self.inner@[i]) >= key(self.inner@[m as int]));
                    }
                }
                l = m + 1;
            } else {
                assert forall|i: int| m <= i < self.inner@.len() implies key(
                    #[trigger] self.inner@[i],
                ) < key(value) by {
                    if i > m {
                        assert(key(self.inner@[m as int]) >= key(self.inner@[i]));
                    }
                }
                r = m;
            }
        }
        proof {
            lemma_insert_pos_at(self@, value, l as int);
            lemma_inserted_sorted(self@, value);
        }
        let ghost grown = inserted(self@, value);
        self.inner.insert(l, value);
        assert(self@ == grown);
        if self.inner.len() > self.limit {
            self.inner.pop();
            assert(self@ == grown.take(old(self).limit as int));
        }
        proof {
            lemma_capped_sorted(grown, old(self).cap());
        }
    }

    /// Pushes every word of `other`, best first, into this collector: how the collectors of
    /// separate workers are merged.
    pub fn absorb(&mut self, other: SortedWordVec)
        requires
            old(self).wf(),
        ensures
            final(self)@ == pushed_all(old(self)@, other@, old(self).cap()),
            final(self).cap() == old(self).cap(),
            final(self).wf(),
    {
        let ghost start = self@;
        let ghost items = other@;
        let mut rest = other.inner;
        assert(items.len() == rest.len());
        assert(items.skip(0) =~= items);
        let mut taken: usize = 0;
        while rest.len() > 0
            invariant
                self.wf(),
                self.limit == old(self).limit,
                taken <= items.len(),
                items.len() <= usize::MAX,
                rest@ == items.skip(taken as int),
                self@ == pushed_all(start, items.take(taken as int), old(self).cap()),
            decreases rest@.len(),
        {
            let w = rest.remove(0);
            assert(w == items[taken as int]);
            proof {
                assert(items.take(taken as int + 1).drop_last() =~= items.take(taken as int));
                assert(items.take(taken as int + 1).last() == w);
            }
            self.push(w);
            taken = taken + 1;
            assert(rest@ =~= items.skip(taken as int));
        }
        assert(items.take(items.len() as int) =~= items);
    }
}

} // verus!
