//! Interval arithmetic over non-negative byte offsets.
//!
//! A `RangeSet` stores disjoint, non-touching, non-empty half-open ranges
//! ordered by start; adjacent or overlapping ranges are merged on insertion.

use vstd::prelude::*;

verus! {

/// A half-open interval of byte offsets `[start, start + length)`.
#[derive(Clone, Copy, PartialEq, Eq, Structural, Debug)]
pub struct Range {
    pub start: usize,
    pub length: usize,
}

impl Range {
    /// The offset one past the last byte of the range.
    pub open spec fn spec_end(self) -> int {
        self.start + self.length
    }

    /// Does the range contain byte offset `x`?
    pub open spec fn spec_contains(self, x: int) -> bool {
        self.start <= x < self.start + self.length
    }

    pub fn new(start: usize, length: usize) -> (r: Range)
        ensures
            r.start == start,
            r.length == length,
    {
        Range { start, length }
    }

    pub fn end(&self) -> (r: usize)
        requires
            self.start + self.length <= usize::MAX,
        ensures
            r == self.spec_end(),
    {
        self.start + self.length
    }
}

/// Do the ranges of `s` cover byte offset `x`?
pub closed spec fn seq_covers(s: Seq<Range>, x: int) -> bool {
    exists|i: int| 0 <= i < s.len() && #[trigger] s[i].spec_contains(x)
}

/// Ranges are non-empty, fit in `usize` arithmetic, and are sorted with a
/// gap of at least one byte between consecutive ranges.
pub open spec fn seq_wf(s: Seq<Range>) -> bool {
    &&& forall|i: int| 0 <= i < s.len() ==> (#[trigger] s[i]).length > 0
    &&& forall|i: int| 0 <= i < s.len() ==> (#[trigger] s[i]).start + s[i].length <= usize::MAX
    &&& forall|i: int, j: int|
        0 <= i < j < s.len() ==> (#[trigger] s[i]).start + s[i].length < (#[trigger] s[j]).start
}

/// An empty sequence covers nothing.
pub proof fn lemma_seq_covers_empty(s: Seq<Range>)
    requires
        s.len() == 0,
    ensures
        forall|x: int| !(#[trigger] seq_covers(s, x)),
{
}

/// A range of the sequence that contains `x` shows that `x` is covered.
pub proof fn lemma_covers_from_index(s: Seq<Range>, k: int, x: int)
    requires
        0 <= k < s.len(),
        s[k].spec_contains(x),
    ensures
        seq_covers(s, x),
{
}

/// A covered offset lies in one of the stored ranges.
pub proof fn lemma_covers_witness(s: Seq<Range>, x: int)
    requires
        seq_covers(s, x),
    ensures
        exists|k: int| 0 <= k < s.len() && #[trigger] s[k].spec_contains(x),
{
}

/// Every covered byte brings the rest of its 4-byte word with it.
#[verifier::opaque]
pub open spec fn word_closed(s: Seq<Range>) -> bool {
    forall|x: int|
        #[trigger] seq_covers(s, x) ==> seq_covers(s, x - x % 4) && seq_covers(s, x - x % 4 + 1)
            && seq_covers(s, x - x % 4 + 2) && seq_covers(s, x - x % 4 + 3)
}

/// One instance of word closure: a covered byte's whole word is covered.
pub proof fn lemma_word_closed_at(s: Seq<Range>, x: int)
    requires
        word_closed(s),
        seq_covers(s, x),
    ensures
        seq_covers(s, x - x % 4),
        seq_covers(s, x - x % 4 + 1),
        seq_covers(s, x - x % 4 + 2),
        seq_covers(s, x - x % 4 + 3),
{
    reveal(word_closed);
}

/// In a word-closed well-formed set, the stored ranges begin and end on
/// 4-byte word boundaries.
#[verifier::rlimit(100)]
pub proof fn lemma_word_closed_ranges_aligned(s: Seq<Range>)
    requires
        seq_wf(s),
        word_closed(s),
    ensures
        forall|k: int|
            0 <= k < s.len() ==> (#[trigger] s[k]).start % 4 == 0 && s[k].length % 4 == 0,
{
    assert forall|k: int| 0 <= k < s.len() implies (#[trigger] s[k]).start % 4 == 0
        && s[k].length % 4 == 0 by {
        let e = s[k];
        let st = e.start as int;
        let en = e.start + e.length;
        lemma_covers_from_index(s, k, st);
        if st % 4 != 0 {
            // The byte just below the start shares its word, so it would be
            // covered, but no stored range can contain it.
            lemma_word_closed_at(s, st);
            assert(st - st % 4 <= st - 1 < st);
            assert(seq_covers(s, st - 1));
            let j = choose|j: int| 0 <= j < s.len() && #[trigger] s[j].spec_contains(st - 1);
            if j < k {
                assert(s[j].start + s[j].length < s[k].start);
                assert(false);
            } else if j > k {
                assert(s[k].start + s[k].length < s[j].start);
                assert(false);
            } else {
                assert(false);
            }
        }
        lemma_covers_from_index(s, k, en - 1);
        if en % 4 != 0 {
            // The byte at the end shares the last covered byte's word, so it
            // would be covered, but no stored range can contain it.
            lemma_word_closed_at(s, en - 1);
            assert((en - 1) - (en - 1) % 4 + 3 >= en);
            assert((en - 1) - (en - 1) % 4 <= en - 1);
            assert(seq_covers(s, en));
            let j = choose|j: int| 0 <= j < s.len() && #[trigger] s[j].spec_contains(en);
            if j < k {
                assert(s[j].start + s[j].length < s[k].start);
                assert(false);
            } else if j > k {
                assert(s[k].start + s[k].length < s[j].start);
                assert(false);
            } else {
                assert(false);
            }
        }
        assert((st % 4 == 0 && en % 4 == 0) ==> e.length % 4 == 0);
    }
}

/// How many bytes of `r` lie at or after offset `v`.
pub open spec fn part_from(r: Range, v: int) -> int {
    if r.start + r.length <= v {
        0
    } else if r.start <= v {
        r.start + r.length - v
    } else {
        r.length as int
    }
}

/// Total number of covered bytes at or after offset `v`.
pub open spec fn seq_contained_from(s: Seq<Range>, v: int) -> int
    decreases s.len(),
{
    if s.len() == 0 {
        0
    } else {
        part_from(s[0], v) + seq_contained_from(s.drop_first(), v)
    }
}

/// The contained length is never negative.
pub proof fn lemma_contained_nonneg(s: Seq<Range>, v: int)
    ensures
        seq_contained_from(s, v) >= 0,
    decreases s.len(),
{
    if s.len() > 0 {
        lemma_contained_nonneg(s.drop_first(), v);
    }
}

/// Counting from anywhere below every range counts whole ranges.
pub proof fn lemma_contained_shift(s: Seq<Range>, v: int, w: int)
    requires
        v <= w,
        forall|k: int| 0 <= k < s.len() ==> w <= (#[trigger] s[k]).start,
    ensures
        seq_contained_from(s, v) == seq_contained_from(s, w),
    decreases s.len(),
{
    if s.len() > 0 {
        assert(s[0].start >= w);
        assert(forall|k: int| 0 <= k < s.drop_first().len()
            ==> (#[trigger] s.drop_first()[k]) == s[k + 1]);
        lemma_contained_shift(s.drop_first(), v, w);
    }
}

/// The contained length from `v` fits under the last range's end.
pub proof fn lemma_contained_upper(s: Seq<Range>, v: int)
    requires
        seq_wf(s),
        s.len() > 0,
    ensures
        seq_contained_from(s, v) <= if v >= s[s.len() - 1].start + s[s.len() - 1].length {
            0int
        } else {
            s[s.len() - 1].start + s[s.len() - 1].length - v
        },
    decreases s.len(),
{
    let rest = s.drop_first();
    let e = s[0];
    let last = s[s.len() - 1];
    assert(forall|k: int| 0 <= k < rest.len() ==> (#[trigger] rest[k]) == s[k + 1]);
    if s.len() == 1 {
        assert(seq_contained_from(rest, v) == 0);
    } else {
        assert(seq_wf(rest));
        assert(e.start + e.length < rest[0].start);
        if v >= e.start + e.length {
            lemma_contained_upper(rest, v);
        } else {
            lemma_contained_shift(rest, v, e.start + e.length);
            lemma_contained_upper(rest, e.start + e.length);
        }
        assert(rest[rest.len() - 1] == last);
    }
}

/// Appending a range adds its own contribution.
pub proof fn lemma_contained_push(s: Seq<Range>, e: Range, v: int)
    ensures
        seq_contained_from(s.push(e), v) == seq_contained_from(s, v) + part_from(e, v),
    decreases s.len(),
{
    if s.len() == 0 {
        assert(s.push(e)[0] == e);
        assert(s.push(e).drop_first() =~= Seq::<Range>::empty());
        assert(seq_contained_from(Seq::<Range>::empty(), v) == 0);
        assert(seq_contained_from(s.push(e), v) == part_from(e, v));
    } else {
        assert(s.push(e).drop_first() =~= s.drop_first().push(e));
        assert(s.push(e)[0] == s[0]);
        lemma_contained_push(s.drop_first(), e, v);
    }
}

/// If every byte of `[v, hi)` is covered, at least `hi - v` bytes are counted.
pub proof fn lemma_covered_length_lower(s: Seq<Range>, v: int, hi: int)
    requires
        seq_wf(s),
        0 <= v,
        forall|x: int| v <= x < hi ==> seq_covers(s, x),
    ensures
        seq_contained_from(s, v) >= hi - v,
    decreases s.len(),
{
    lemma_contained_nonneg(s, v);
    if hi <= v {
        // nothing to show
    } else if s.len() == 0 {
        assert(seq_covers(s, v));
        let k = choose|k: int| 0 <= k < s.len() && #[trigger] s[k].spec_contains(v);
        assert(false);
    } else {
        let e = s[0];
        let rest = s.drop_first();
        assert(forall|k: int| 0 <= k < rest.len() ==> (#[trigger] rest[k]) == s[k + 1]);
        assert(seq_wf(rest));
        let e_end = e.start + e.length;
        if e_end <= v {
            // `e` lies entirely below `v`; the rest must cover `[v, hi)`.
            assert forall|x: int| v <= x < hi implies seq_covers(rest, x) by {
                assert(seq_covers(s, x));
                let k = choose|k: int| 0 <= k < s.len() && #[trigger] s[k].spec_contains(x);
                assert(k > 0);
                assert(rest[k - 1].spec_contains(x));
            }
            lemma_covered_length_lower(rest, v, hi);
            assert(seq_contained_from(rest, v) == seq_contained_from(s, v) - part_from(e, v));
        } else {
            // `v` itself must lie in `e`, the first range.
            assert(seq_covers(s, v));
            let k = choose|k: int| 0 <= k < s.len() && #[trigger] s[k].spec_contains(v);
            if k > 0 {
                assert(e.start + e.length < s[k].start);
                assert(false);
            }
            assert(e.spec_contains(v));
            assert(part_from(e, v) == e_end - v);
            // Everything at or past `e_end` is covered by the rest.
            assert forall|x: int| e_end <= x < hi implies seq_covers(rest, x) by {
                assert(seq_covers(s, x));
                let j = choose|j: int| 0 <= j < s.len() && #[trigger] s[j].spec_contains(x);
                assert(j > 0);
                assert(rest[j - 1].spec_contains(x));
            }
            lemma_covered_length_lower(rest, e_end, hi);
            lemma_contained_shift(rest, v, e_end);
        }
    }
}

/// If some byte of `[v, hi)` is uncovered while every range ends by `hi`,
/// strictly fewer than `hi - v` bytes are counted from `v`.
pub proof fn lemma_gap_bounds_contained(s: Seq<Range>, v: int, y: int, hi: int)
    requires
        seq_wf(s),
        v <= y < hi,
        !seq_covers(s, y),
        forall|k: int| 0 <= k < s.len() ==> (#[trigger] s[k]).start + s[k].length <= hi,
    ensures
        seq_contained_from(s, v) <= hi - v - 1,
    decreases s.len(),
{
    if s.len() == 0 {
    } else {
        let e = s[0];
        let e_end = e.start + e.length;
        let rest = s.drop_first();
        assert(forall|k: int| 0 <= k < rest.len() ==> (#[trigger] rest[k]) == s[k + 1]);
        assert(seq_wf(rest));
        assert forall|x: int| #[trigger] seq_covers(rest, x) implies seq_covers(s, x) by {
            let k = choose|k: int| 0 <= k < rest.len() && #[trigger] rest[k].spec_contains(x);
            lemma_covers_from_index(s, k + 1, x);
        }
        if e_end <= v {
            assert(part_from(e, v) == 0);
            lemma_gap_bounds_contained(rest, v, y, hi);
        } else if y < e.start {
            // The gap sits below the first range: everything counted lies in
            // `[e.start, hi)`, which starts strictly above `v`.
            lemma_contained_shift(rest, v, e_end);
            if rest.len() > 0 {
                lemma_contained_upper(rest, e_end);
                assert(rest[rest.len() - 1] == s[s.len() - 1]);
            }
            lemma_contained_nonneg(rest, e_end);
            assert(part_from(e, v) <= e_end - (if v >= e.start { v } else { e.start as int }));
        } else {
            // `y` lies at or above the first range but outside it.
            if e.spec_contains(y) {
                lemma_covers_from_index(s, 0, y);
                assert(false);
            }
            assert(y >= e_end);
            lemma_contained_shift(rest, v, e_end);
            assert(!seq_covers(rest, y));
            lemma_gap_bounds_contained(rest, e_end, y, hi);
            assert(part_from(e, v) <= e_end - v);
        }
    }
}

/// Two well-formed sequences covering the same bytes are the same sequence:
/// the representation is canonical in its coverage.
pub proof fn lemma_wf_unique(s1: Seq<Range>, s2: Seq<Range>)
    requires
        seq_wf(s1),
        seq_wf(s2),
        forall|x: int| #[trigger] seq_covers(s1, x) <==> seq_covers(s2, x),
    ensures
        s1 == s2,
    decreases s1.len(),
{
    if s1.len() == 0 {
        if s2.len() > 0 {
            lemma_covers_from_index(s2, 0, s2[0].start as int);
            assert(seq_covers(s1, s2[0].start as int));
            lemma_covers_witness(s1, s2[0].start as int);
            assert(false);
        }
        assert(s1 =~= s2);
    } else if s2.len() == 0 {
        lemma_covers_from_index(s1, 0, s1[0].start as int);
        assert(seq_covers(s2, s1[0].start as int));
        lemma_covers_witness(s2, s1[0].start as int);
        assert(false);
    } else {
        let a = s1[0];
        let b = s2[0];
        // The first starts agree: each is the least covered offset.
        lemma_covers_from_index(s1, 0, a.start as int);
        assert(seq_covers(s2, a.start as int));
        lemma_covers_witness(s2, a.start as int);
        let k2 = choose|k: int| 0 <= k < s2.len() && #[trigger] s2[k].spec_contains(a.start as int);
        if k2 > 0 {
            assert(s2[0].start + s2[0].length < s2[k2].start);
        }
        assert(b.start <= a.start);
        lemma_covers_from_index(s2, 0, b.start as int);
        assert(seq_covers(s1, b.start as int));
        lemma_covers_witness(s1, b.start as int);
        let k1 = choose|k: int| 0 <= k < s1.len() && #[trigger] s1[k].spec_contains(b.start as int);
        if k1 > 0 {
            assert(s1[0].start + s1[0].length < s1[k1].start);
        }
        assert(a.start == b.start);
        // The first ends agree: the end is the first uncovered offset above.
        if a.start + a.length < b.start + b.length {
            lemma_covers_from_index(s2, 0, a.start + a.length);
            assert(seq_covers(s1, a.start + a.length));
            lemma_covers_witness(s1, a.start + a.length);
            let j = choose|j: int|
                0 <= j < s1.len() && #[trigger] s1[j].spec_contains(a.start + a.length);
            if j > 0 {
                assert(s1[0].start + s1[0].length < s1[j].start);
            }
            assert(false);
        }
        if b.start + b.length < a.start + a.length {
            lemma_covers_from_index(s1, 0, b.start + b.length);
            assert(seq_covers(s2, b.start + b.length));
            lemma_covers_witness(s2, b.start + b.length);
            let j = choose|j: int|
                0 <= j < s2.len() && #[trigger] s2[j].spec_contains(b.start + b.length);
            if j > 0 {
                assert(s2[0].start + s2[0].length < s2[j].start);
            }
            assert(false);
        }
        assert(a == b);
        let r1 = s1.drop_first();
        let r2 = s2.drop_first();
        assert(forall|k: int| 0 <= k < r1.len() ==> (#[trigger] r1[k]) == s1[k + 1]);
        assert(forall|k: int| 0 <= k < r2.len() ==> (#[trigger] r2[k]) == s2[k + 1]);
        assert(seq_wf(r1));
        assert(seq_wf(r2));
        assert forall|x: int| #[trigger] seq_covers(r1, x) <==> seq_covers(r2, x) by {
            if seq_covers(r1, x) {
                let k = choose|k: int| 0 <= k < r1.len() && #[trigger] r1[k].spec_contains(x);
                assert(s1[0].start + s1[0].length < s1[k + 1].start);
                lemma_covers_from_index(s1, k + 1, x);
                assert(seq_covers(s2, x));
                lemma_covers_witness(s2, x);
                let j = choose|j: int| 0 <= j < s2.len() && #[trigger] s2[j].spec_contains(x);
                if j == 0 {
                    assert(false);
                }
                assert(r2[j - 1].spec_contains(x));
                lemma_covers_from_index(r2, j - 1, x);
            }
            if seq_covers(r2, x) {
                let k = choose|k: int| 0 <= k < r2.len() && #[trigger] r2[k].spec_contains(x);
                assert(s2[0].start + s2[0].length < s2[k + 1].start);
                lemma_covers_from_index(s2, k + 1, x);
                assert(seq_covers(s1, x));
                lemma_covers_witness(s1, x);
                let j = choose|j: int| 0 <= j < s1.len() && #[trigger] s1[j].spec_contains(x);
                if j == 0 {
                    assert(false);
                }
                assert(r1[j - 1].spec_contains(x));
                lemma_covers_from_index(r1, j - 1, x);
            }
        }
        lemma_wf_unique(r1, r2);
        assert(s1.len() == s2.len());
        assert forall|i: int| 0 <= i < s1.len() implies s1[i] == s2[i] by {
            if i > 0 {
                assert(r1[i - 1] == s1[i]);
                assert(r2[i - 1] == s2[i]);
            }
        }
        assert(s1 =~= s2);
    }
}

/// Two well-formed sequences covering the same bytes count the same length.
pub proof fn lemma_same_coverage_same_length(s1: Seq<Range>, s2: Seq<Range>, v: int)
    requires
        seq_wf(s1),
        seq_wf(s2),
        forall|x: int| #[trigger] seq_covers(s1, x) <==> seq_covers(s2, x),
    ensures
        seq_contained_from(s1, v) == seq_contained_from(s2, v),
{
    lemma_wf_unique(s1, s2);
}

/// No covered offset lies below the first range's start.
pub proof fn lemma_first_range_is_min(s: Seq<Range>)
    requires
        seq_wf(s),
        s.len() > 0,
    ensures
        forall|x: int| #[trigger] seq_covers(s, x) ==> s[0].start <= x,
{
    assert forall|x: int| #[trigger] seq_covers(s, x) implies s[0].start <= x by {
        let k = choose|k: int| 0 <= k < s.len() && #[trigger] s[k].spec_contains(x);
        if k > 0 {
            assert(s[0].start + s[0].length < s[k].start);
        }
    }
}

/// `out` covers exactly the bytes of the first `i` ranges of `orig` that lie
/// outside `range`.
pub open spec fn covers_prefix_minus(out: Seq<Range>, orig: Seq<Range>, i: int, range: Range) -> bool {
    forall|x: int|
        #[trigger] seq_covers(out, x) <==> (seq_covers(orig.subrange(0, i), x)
            && !range.spec_contains(x))
}

/// Appending a range to a sequence covers exactly the old bytes plus its own.
pub proof fn lemma_seq_covers_push(s: Seq<Range>, e: Range, x: int)
    ensures
        seq_covers(s.push(e), x) <==> (seq_covers(s, x) || e.spec_contains(x)),
{
    if seq_covers(s.push(e), x) {
        let k = choose|k: int| 0 <= k < s.push(e).len() && #[trigger] s.push(e)[k].spec_contains(x);
        if k < s.len() {
            assert(s[k].spec_contains(x));
        } else {
            assert(e.spec_contains(x));
        }
    }
    if seq_covers(s, x) {
        let k = choose|k: int| 0 <= k < s.len() && #[trigger] s[k].spec_contains(x);
        assert(s.push(e)[k].spec_contains(x));
    }
    if e.spec_contains(x) {
        assert(s.push(e)[s.len() as int].spec_contains(x));
    }
}

/// Concatenation covers exactly what either part covers.
proof fn lemma_seq_covers_concat(a: Seq<Range>, b: Seq<Range>, x: int)
    ensures
        seq_covers(a + b, x) <==> (seq_covers(a, x) || seq_covers(b, x)),
{
    if seq_covers(a + b, x) {
        let k = choose|k: int| 0 <= k < (a + b).len() && #[trigger] (a + b)[k].spec_contains(x);
        if k < a.len() {
            assert(a[k].spec_contains(x));
        } else {
            assert(b[k - a.len()].spec_contains(x));
        }
    }
    if seq_covers(a, x) {
        let k = choose|k: int| 0 <= k < a.len() && #[trigger] a[k].spec_contains(x);
        assert((a + b)[k].spec_contains(x));
    }
    if seq_covers(b, x) {
        let k = choose|k: int| 0 <= k < b.len() && #[trigger] b[k].spec_contains(x);
        assert((a + b)[k + a.len()].spec_contains(x));
    }
}

/// `cur` covers exactly the bytes of `base` not covered by the first `j`
/// ranges of `other`.
pub open spec fn covers_diff_prefix(
    cur: Seq<Range>,
    base: Seq<Range>,
    other: Seq<Range>,
    j: int,
) -> bool {
    forall|x: int|
        #[trigger] seq_covers(cur, x) <==> (seq_covers(base, x)
            && !seq_covers(other.subrange(0, j), x))
}

/// One subtraction step extends the removed prefix by one range.
proof fn lemma_diff_prefix_step(
    prev: Seq<Range>,
    cur: Seq<Range>,
    base: Seq<Range>,
    other: Seq<Range>,
    j: int,
)
    requires
        0 <= j < other.len(),
        covers_diff_prefix(prev, base, other, j),
        forall|x: int|
            seq_covers(cur, x) <==> (seq_covers(prev, x) && !other[j].spec_contains(x)),
    ensures
        covers_diff_prefix(cur, base, other, j + 1),
{
    assert(other.subrange(0, j + 1) =~= other.subrange(0, j).push(other[j]));
    assert forall|x: int|
        seq_covers(cur, x) <==> (seq_covers(base, x)
            && !seq_covers(other.subrange(0, j + 1), x)) by {
        lemma_seq_covers_push(other.subrange(0, j), other[j], x);
    }
}

/// Reading one instance out of `covers_prefix_minus`.
proof fn lemma_covers_prefix_minus_unfold(
    out: Seq<Range>,
    orig: Seq<Range>,
    i: int,
    range: Range,
    x: int,
)
    requires
        covers_prefix_minus(out, orig, i, range),
    ensures
        seq_covers(out, x) <==> (seq_covers(orig.subrange(0, i), x) && !range.spec_contains(x)),
{
}

/// One step of range subtraction: appending the surviving pieces of
/// `orig[i]` keeps the output well formed and covering exactly the processed
/// prefix minus `range`.
proof fn lemma_subtract_step(
    orig: Seq<Range>,
    i: int,
    out_pre: Seq<Range>,
    pieces: Seq<Range>,
    out_post: Seq<Range>,
    range: Range,
)
    requires
        seq_wf(orig),
        0 <= i < orig.len(),
        seq_wf(out_pre),
        seq_wf(pieces),
        out_post == out_pre + pieces,
        covers_prefix_minus(out_pre, orig, i, range),
        out_pre.len() == 0 || out_pre[out_pre.len() - 1].start
            + out_pre[out_pre.len() - 1].length < orig[i].start,
        forall|k: int|
            0 <= k < pieces.len() ==> orig[i].start <= (#[trigger] pieces[k]).start
                && pieces[k].start + pieces[k].length <= orig[i].start + orig[i].length,
        forall|x: int|
            seq_covers(pieces, x) <==> (orig[i].spec_contains(x) && !range.spec_contains(x)),
    ensures
        seq_wf(out_post),
        covers_prefix_minus(out_post, orig, i + 1, range),
        i + 1 < orig.len() ==> (out_post.len() == 0 || out_post[out_post.len() - 1].start
            + out_post[out_post.len() - 1].length < orig[i + 1].start),
{
    let e = orig[i];
    assert(orig.subrange(0, i + 1) =~= orig.subrange(0, i).push(e));

    assert forall|a: int, b: int| 0 <= a < b < out_post.len() implies
        (#[trigger] out_post[a]).start + out_post[a].length
            < (#[trigger] out_post[b]).start by {
        if b < out_pre.len() {
            assert(out_post[a] == out_pre[a]);
            assert(out_post[b] == out_pre[b]);
        } else if a >= out_pre.len() {
            assert(out_post[a] == pieces[a - out_pre.len()]);
            assert(out_post[b] == pieces[b - out_pre.len()]);
        } else {
            assert(out_post[a] == out_pre[a]);
            assert(out_post[b] == pieces[b - out_pre.len()]);
            if a < out_pre.len() - 1 {
                assert(out_pre[a].start + out_pre[a].length
                    < out_pre[out_pre.len() - 1].start);
            }
            assert(out_pre[out_pre.len() - 1].start + out_pre[out_pre.len() - 1].length
                < orig[i].start);
            assert(orig[i].start <= pieces[b - out_pre.len()].start);
        }
    }
    assert(seq_wf(out_post));

    assert forall|x: int|
        seq_covers(out_post, x) <==> (seq_covers(orig.subrange(0, i + 1), x)
            && !range.spec_contains(x)) by {
        lemma_seq_covers_concat(out_pre, pieces, x);
        lemma_seq_covers_push(orig.subrange(0, i), e, x);
        assert(seq_covers(out_post, x) == (seq_covers(out_pre, x) || seq_covers(pieces, x)));
        assert(seq_covers(orig.subrange(0, i + 1), x)
            == (seq_covers(orig.subrange(0, i), x) || e.spec_contains(x)));
    }
    assert(covers_prefix_minus(out_post, orig, i + 1, range));

    if i + 1 < orig.len() && out_post.len() > 0 {
        let last = out_post.len() - 1;
        assert(orig[i].start + orig[i].length < orig[i + 1].start);
        if last >= out_pre.len() {
            assert(out_post[last] == pieces[last - out_pre.len()]);
        } else {
            assert(out_post[last] == out_pre[out_pre.len() - 1]);
        }
    }
}

/// A prefix of `orig`, one merged block, and a suffix of `orig` form a
/// well-formed sequence that covers the old bytes plus those of `range`.
proof fn lemma_add_assemble(
    orig: Seq<Range>,
    out: Seq<Range>,
    i1: int,
    i2: int,
    merged: Range,
    range: Range,
)
    requires
        seq_wf(orig),
        0 <= i1 <= i2 <= orig.len(),
        out == orig.subrange(0, i1) + seq![merged] + orig.subrange(i2, orig.len() as int),
        merged.length > 0,
        merged.start + merged.length <= usize::MAX,
        forall|k: int|
            0 <= k < i1 ==> (#[trigger] orig[k]).start + orig[k].length < merged.start,
        i2 < orig.len() ==> merged.start + merged.length < orig[i2].start,
        forall|x: int|
            merged.spec_contains(x) <==> (range.spec_contains(x) || exists|k: int|
                i1 <= k < i2 && #[trigger] orig[k].spec_contains(x)),
        forall|x: int| range.spec_contains(x) ==> merged.spec_contains(x),
    ensures
        seq_wf(out),
        forall|x: int| seq_covers(out, x) <==> (seq_covers(orig, x) || range.spec_contains(x)),
{
    let n = orig.len() as int;
    assert(out.len() == i1 + 1 + (n - i2));
    assert forall|k: int| 0 <= k < out.len() implies #[trigger] out[k] == (if k < i1 {
        orig[k]
    } else if k == i1 {
        merged
    } else {
        orig[k - i1 - 1 + i2]
    }) by {}

    assert forall|a: int, b: int| 0 <= a < b < out.len() implies (#[trigger] out[a]).start
        + out[a].length < (#[trigger] out[b]).start by {
        if b > i1 {
            let bo = b - i1 - 1 + i2;
            assert(out[b] == orig[bo]);
            if a < i1 {
                assert(orig[a].start + orig[a].length < merged.start);
                if bo > i2 {
                    assert(orig[i2].start + orig[i2].length < orig[bo].start);
                }
            } else if a == i1 {
                if bo > i2 {
                    assert(orig[i2].start + orig[i2].length < orig[bo].start);
                }
            } else {
                let ao = a - i1 - 1 + i2;
                assert(out[a] == orig[ao]);
                assert(orig[ao].start + orig[ao].length < orig[bo].start);
            }
        } else if b == i1 {
            assert(orig[a].start + orig[a].length < merged.start);
        }
    }
    assert(seq_wf(out));

    assert forall|x: int|
        seq_covers(out, x) <==> (seq_covers(orig, x) || range.spec_contains(x)) by {
        if seq_covers(out, x) {
            let k = choose|k: int| 0 <= k < out.len() && #[trigger] out[k].spec_contains(x);
            if k < i1 {
                assert(orig[k].spec_contains(x));
            } else if k == i1 {
                if !range.spec_contains(x) {
                    let j = choose|j: int| i1 <= j < i2 && #[trigger] orig[j].spec_contains(x);
                    assert(orig[j].spec_contains(x));
                }
            } else {
                assert(orig[k - i1 - 1 + i2].spec_contains(x));
            }
        }
        if seq_covers(orig, x) {
            let k = choose|k: int| 0 <= k < orig.len() && #[trigger] orig[k].spec_contains(x);
            if k < i1 {
                assert(out[k].spec_contains(x));
            } else if k < i2 {
                assert(merged.spec_contains(x));
                assert(out[i1].spec_contains(x));
            } else {
                assert(out[k - i2 + i1 + 1].spec_contains(x));
            }
        }
        if range.spec_contains(x) {
            assert(out[i1].spec_contains(x));
        }
    }
}

/// An ordered set of disjoint, non-touching byte ranges.
pub struct RangeSet {
    ranges: Vec<Range>,
}

impl RangeSet {
    /// The stored ranges, in increasing order.
    pub closed spec fn ranges(self) -> Seq<Range> {
        self.ranges@
    }

    /// Is byte offset `x` covered by the set?
    pub open spec fn covers(self, x: int) -> bool {
        seq_covers(self.ranges(), x)
    }

    /// Structural invariant of the representation.
    pub open spec fn wf(self) -> bool {
        seq_wf(self.ranges())
    }

    pub fn new() -> (r: RangeSet)
        ensures
            r.wf(),
            r.ranges().len() == 0,
            forall|x: int| !(#[trigger] r.covers(x)),
    {
        RangeSet { ranges: Vec::new() }
    }

    /// How many disjoint ranges the set currently holds.
    pub fn num_ranges(&self) -> (r: usize)
        ensures
            r == self.ranges().len(),
    {
        self.ranges.len()
    }

    /// The `index`-th stored range, in increasing order.
    pub fn get_range(&self, index: usize) -> (r: Range)
        requires
            index < self.ranges().len(),
        ensures
            r == self.ranges()[index as int],
    {
        self.ranges[index]
    }

    /// Insert `range`, merging any stored ranges it overlaps or touches.
    pub fn add_range(&mut self, range: &Range)
        requires
            old(self).wf(),
            range.length > 0,
            range.start + range.length <= usize::MAX,
        ensures
            final(self).wf(),
            forall|x: int|
                #[trigger] final(self).covers(x) <==> old(self).covers(x)
                    || range.spec_contains(x),
    {
        let ghost orig = self.ranges@;
        let len = self.ranges.len();
        let mut out: Vec<Range> = Vec::new();
        let mut i: usize = 0;

        // Ranges that lie entirely before the new range, with a gap.
        while i < len && self.ranges[i].start + self.ranges[i].length < range.start
            invariant
                i <= len,
                len == orig.len(),
                self.ranges@ == orig,
                seq_wf(orig),
                range.length > 0,
                range.start + range.length <= usize::MAX,
                out@ == orig.subrange(0, i as int),
                forall|k: int|
                    0 <= k < i ==> (#[trigger] orig[k]).start + orig[k].length < range.start,
            decreases len - i,
        {
            out.push(self.ranges[i]);
            proof {
                assert(out@ =~= orig.subrange(0, i + 1 as int));
            }
            i += 1;
        }

        // Merge every stored range that overlaps or touches the new one.
        let ghost i1 = i as int;
        let mut cur_start: usize = range.start;
        let mut cur_end: usize = range.start + range.length;
        while i < len && self.ranges[i].start <= cur_end
            invariant
                0 <= i1 <= i <= len,
                len == orig.len(),
                self.ranges@ == orig,
                seq_wf(orig),
                range.length > 0,
                out@ == orig.subrange(0, i1),
                cur_start <= range.start,
                range.start + range.length <= cur_end,
                cur_end <= usize::MAX,
                i == i1 ==> cur_start == range.start && cur_end == range.start + range.length,
                i1 < len ==> orig[i1].start + orig[i1].length >= range.start,
                forall|k: int|
                    0 <= k < i1 ==> (#[trigger] orig[k]).start + orig[k].length < cur_start,
                forall|k: int| i1 <= k < i ==> cur_start <= (#[trigger] orig[k]).start,
                forall|k: int|
                    i1 <= k < i ==> (#[trigger] orig[k]).start + orig[k].length <= cur_end,
                forall|x: int|
                    (cur_start <= x < cur_end) <==> (range.spec_contains(x) || exists|k: int|
                        i1 <= k < i && #[trigger] orig[k].spec_contains(x)),
            decreases len - i,
        {
            let e = self.ranges[i];
            let e_end = e.start + e.length;
            proof {
                assert(e == orig[i as int]);
                if i > i1 {
                    let a: int = i as int - 1;
                    let b: int = i as int;
                    assert(0 <= a < b < orig.len());
                    assert((#[trigger] orig[a]).start + orig[a].length
                        < (#[trigger] orig[b]).start);
                    assert(cur_start <= orig[a].start);
                }
                // The next range touches or overlaps the merged block.
                assert(e.start + e.length >= cur_start);
                let ncs: int = if e.start < cur_start { e.start as int } else { cur_start as int };
                let nce: int = if e_end > cur_end { e.spec_end() } else { cur_end as int };
                assert forall|x: int|
                    (ncs <= x < nce) <==> (range.spec_contains(x) || exists|k: int|
                        i1 <= k < i + 1 && #[trigger] orig[k].spec_contains(x)) by {
                    if ncs <= x < nce {
                        if cur_start <= x < cur_end {
                            assert(range.spec_contains(x) || exists|k: int|
                                i1 <= k < i && #[trigger] orig[k].spec_contains(x));
                        } else {
                            assert(orig[i as int].spec_contains(x));
                        }
                    }
                    if range.spec_contains(x) {
                        assert(cur_start <= x < cur_end);
                    }
                    if exists|k: int| i1 <= k < i + 1 && #[trigger] orig[k].spec_contains(x) {
                        let k = choose|k: int|
                            i1 <= k < i + 1 && #[trigger] orig[k].spec_contains(x);
                        if k < i {
                            assert(cur_start <= x < cur_end);
                        }
                    }
                }
                assert forall|k: int| 0 <= k < i1 implies (#[trigger] orig[k]).start
                    + orig[k].length < ncs by {
                    assert(orig[k].start + orig[k].length < orig[i as int].start);
                }
            }
            if e.start < cur_start {
                cur_start = e.start;
            }
            if e_end > cur_end {
                cur_end = e_end;
            }
            i += 1;
        }

        // The merged block, followed by the remaining later ranges.
        let ghost i2 = i as int;
        let merged = Range { start: cur_start, length: cur_end - cur_start };
        out.push(merged);
        proof {
            assert(out@ =~= orig.subrange(0, i1) + seq![merged]
                + orig.subrange(i2, i2));
        }

        while i < len
            invariant
                i2 <= i <= len,
                len == orig.len(),
                self.ranges@ == orig,
                seq_wf(orig),
                out@ == orig.subrange(0, i1) + seq![merged] + orig.subrange(i2, i as int),
                0 <= i1 <= i2,
                merged.length > 0,
                merged.start + merged.length <= usize::MAX,
                forall|k: int|
                    0 <= k < i1 ==> (#[trigger] orig[k]).start + orig[k].length < merged.start,
                i2 < len ==> merged.start + merged.length < orig[i2].start,
                forall|x: int|
                    merged.spec_contains(x) <==> (range.spec_contains(x) || exists|k: int|
                        i1 <= k < i2 && #[trigger] orig[k].spec_contains(x)),
                forall|x: int| range.spec_contains(x) ==> merged.spec_contains(x),
            decreases len - i,
        {
            out.push(self.ranges[i]);
            proof {
                assert(out@ =~= orig.subrange(0, i1) + seq![merged]
                    + orig.subrange(i2, i + 1 as int));
            }
            i += 1;
        }

        proof {
            lemma_add_assemble(orig, out@, i1, i2, merged, *range);
        }
        self.ranges = out;
    }

    /// Remove every byte of `range` from the set, splitting stored ranges
    /// where necessary.
    #[verifier::rlimit(100)]
    pub fn subtract_range(&mut self, range: &Range)
        requires
            old(self).wf(),
            range.length > 0,
            range.start + range.length <= usize::MAX,
        ensures
            final(self).wf(),
            forall|x: int|
                #[trigger] final(self).covers(x) <==> old(self).covers(x)
                    && !range.spec_contains(x),
    {
        let ghost orig = self.ranges@;
        let len = self.ranges.len();
        let r_start = range.start;
        let r_end = range.start + range.length;
        let mut out: Vec<Range> = Vec::new();
        let mut i: usize = 0;

        while i < len
            invariant
                i <= len,
                len == orig.len(),
                self.ranges@ == orig,
                seq_wf(orig),
                r_start == range.start,
                r_end == range.start + range.length,
                range.length > 0,
                seq_wf(out@),
                covers_prefix_minus(out@, orig, i as int, *range),
                i < len ==> (out@.len() == 0 || out@[out@.len() - 1].start
                    + out@[out@.len() - 1].length < orig[i as int].start),
            decreases len - i,
        {
            let ghost out_pre = out@;
            let e = self.ranges[i];
            let e_end = e.start + e.length;
            let ghost mut pieces: Seq<Range> = Seq::<Range>::empty();

            if e_end <= r_start || r_end <= e.start {
                out.push(e);
                proof {
                    pieces = seq![e];
                }
            } else {
                if e.start < r_start {
                    let head = Range { start: e.start, length: r_start - e.start };
                    out.push(head);
                    proof {
                        pieces = pieces.push(head);
                    }
                }
                if r_end < e_end {
                    let tail = Range { start: r_end, length: e_end - r_end };
                    out.push(tail);
                    proof {
                        pieces = pieces.push(tail);
                    }
                }
            }
            proof {
                assert(e == orig[i as int]);
                assert(out@ =~= out_pre + pieces);
                assert(seq_wf(pieces));
                // Every piece stays inside `e`.
                assert(forall|k: int|
                    0 <= k < pieces.len() ==> e.start <= (#[trigger] pieces[k]).start
                        && pieces[k].start + pieces[k].length <= e.start + e.length);
                // The pieces cover exactly the bytes of `e` outside `range`.
                assert forall|x: int|
                    seq_covers(pieces, x) <==> (e.spec_contains(x) && !range.spec_contains(x)) by {
                    if seq_covers(pieces, x) {
                        let k = choose|k: int|
                            0 <= k < pieces.len() && #[trigger] pieces[k].spec_contains(x);
                        assert(pieces[k].spec_contains(x));
                    }
                    if e.spec_contains(x) && !range.spec_contains(x) {
                        if e_end <= r_start || r_end <= e.start {
                            assert(pieces[0].spec_contains(x));
                        } else if x < r_start {
                            assert(pieces[0].spec_contains(x));
                        } else {
                            assert(x >= r_end);
                            assert(pieces[pieces.len() - 1].spec_contains(x));
                        }
                    }
                }
                lemma_subtract_step(orig, i as int, out_pre, pieces, out@, *range);
            }
            i += 1;
        }

        proof {
            assert(orig.subrange(0, len as int) =~= orig);
            assert forall|x: int|
                seq_covers(out@, x) <==> (seq_covers(orig, x) && !range.spec_contains(x)) by {
                lemma_covers_prefix_minus_unfold(out@, orig, len as int, *range, x);
            }
        }
        self.ranges = out;
    }

    /// Remove every byte covered by `other`.
    pub fn subtract_range_set(&mut self, other: &RangeSet)
        requires
            old(self).wf(),
            other.wf(),
        ensures
            final(self).wf(),
            forall|x: int|
                #[trigger] final(self).covers(x) <==> old(self).covers(x) && !other.covers(x),
    {
        let ghost base = self.ranges@;
        let n = other.ranges.len();
        let mut j: usize = 0;
        proof {
            assert(other.ranges().subrange(0, 0) =~= Seq::<Range>::empty());
        }
        while j < n
            invariant
                j <= n,
                n == other.ranges().len(),
                other.wf(),
                self.wf(),
                covers_diff_prefix(self.ranges@, base, other.ranges(), j as int),
            decreases n - j,
        {
            let ghost prev = self.ranges@;
            let r = other.ranges[j];
            proof {
                assert(r == other.ranges()[j as int]);
            }
            self.subtract_range(&r);
            proof {
                assert forall|x: int|
                    seq_covers(self.ranges@, x) <==> (seq_covers(prev, x)
                        && !(other.ranges()[j as int]).spec_contains(x)) by {
                    assert(self.covers(x) <==> (seq_covers(prev, x) && !r.spec_contains(x)));
                }
                lemma_diff_prefix_step(prev, self.ranges@, base, other.ranges(), j as int);
            }
            j += 1;
        }
        proof {
            assert(other.ranges().subrange(0, n as int) =~= other.ranges());
            assert forall|x: int|
                self.covers(x) <==> (old(self).covers(x) && !other.covers(x)) by {
                assert(seq_covers(self.ranges@, x) <==> (seq_covers(base, x)
                    && !seq_covers(other.ranges().subrange(0, n as int), x)));
            }
        }
    }

    /// An exact copy of the set.
    fn copied(&self) -> (r: RangeSet)
        ensures
            r.ranges() == self.ranges(),
    {
        let len = self.ranges.len();
        let mut v: Vec<Range> = Vec::new();
        let mut i: usize = 0;
        while i < len
            invariant
                i <= len,
                len == self.ranges().len(),
                v@ == self.ranges().subrange(0, i as int),
            decreases len - i,
        {
            v.push(self.ranges[i]);
            proof {
                assert(v@ =~= self.ranges().subrange(0, i + 1 as int));
            }
            i += 1;
        }
        proof {
            assert(self.ranges().subrange(0, len as int) =~= self.ranges());
        }
        RangeSet { ranges: v }
    }

    /// The bytes of `self` that `other` does not cover, as a new set.
    pub fn minus(&self, other: &RangeSet) -> (r: RangeSet)
        requires
            self.wf(),
            other.wf(),
        ensures
            r.wf(),
            forall|x: int| #[trigger] r.covers(x) <==> self.covers(x) && !other.covers(x),
    {
        let mut result = self.copied();
        let ghost before = result;
        result.subtract_range_set(other);
        proof {
            assert(forall|x: int|
                result.covers(x) <==> (before.covers(x) && !other.covers(x)));
            assert forall|x: int|
                result.covers(x) <==> (self.covers(x) && !other.covers(x)) by {
                assert(result.covers(x) <==> (before.covers(x) && !other.covers(x)));
                assert(before.covers(x) == self.covers(x));
            }
        }
        result
    }

    /// The bytes covered by both sets, as a new set.
    pub fn intersection(&self, other: &RangeSet) -> (r: RangeSet)
        requires
            self.wf(),
            other.wf(),
        ensures
            r.wf(),
            forall|x: int| #[trigger] r.covers(x) <==> self.covers(x) && other.covers(x),
    {
        let diff = self.minus(other);
        let mut result = self.copied();
        let ghost before = result;
        result.subtract_range_set(&diff);
        proof {
            assert forall|x: int|
                result.covers(x) <==> (self.covers(x) && other.covers(x)) by {
                assert(result.covers(x) <==> (before.covers(x) && !diff.covers(x)));
                assert(before.covers(x) == self.covers(x));
                assert(diff.covers(x) == (self.covers(x) && !other.covers(x)));
            }
        }
        result
    }

    /// How many covered bytes lie at or after `value`.
    pub fn contained_length_from_value(&self, value: usize) -> (r: usize)
        requires
            self.wf(),
        ensures
            r == seq_contained_from(self.ranges(), value as int),
    {
        let len = self.ranges.len();
        let mut acc: usize = 0;
        let mut i: usize = 0;
        proof {
            assert(self.ranges@.subrange(0, 0) =~= Seq::<Range>::empty());
        }
        while i < len
            invariant
                i <= len,
                len == self.ranges().len(),
                self.wf(),
                acc == seq_contained_from(self.ranges@.subrange(0, i as int), value as int),
            decreases len - i,
        {
            let e = self.ranges[i];
            let e_end = e.start + e.length;
            let p: usize = if e_end <= value {
                0
            } else if e.start <= value {
                e_end - value
            } else {
                e.length
            };
            proof {
                assert(e == self.ranges@[i as int]);
                assert(p == part_from(e, value as int));
                let sub1 = self.ranges@.subrange(0, i + 1 as int);
                assert(sub1 =~= self.ranges@.subrange(0, i as int).push(e));
                lemma_contained_push(self.ranges@.subrange(0, i as int), e, value as int);
                // The running total stays within the last processed range's end.
                assert forall|a: int, b: int| 0 <= a < b < sub1.len() implies
                    (#[trigger] sub1[a]).start + sub1[a].length
                        < (#[trigger] sub1[b]).start by {
                    assert(sub1[a] == self.ranges@[a]);
                    assert(sub1[b] == self.ranges@[b]);
                }
                assert(seq_wf(sub1));
                lemma_contained_nonneg(self.ranges@.subrange(0, i as int), value as int);
                lemma_contained_upper(sub1, value as int);
                assert(sub1[sub1.len() - 1] == e);
            }
            acc = acc + p;
            i += 1;
        }
        proof {
            assert(self.ranges@.subrange(0, len as int) =~= self.ranges@);
        }
        acc
    }

    /// The total number of covered bytes.
    pub fn len(&self) -> (r: usize)
        requires
            self.wf(),
        ensures
            r == seq_contained_from(self.ranges(), 0),
    {
        self.contained_length_from_value(0)
    }

    pub fn is_empty(&self) -> (r: bool)
        requires
            self.wf(),
        ensures
            r == (self.ranges().len() == 0),
            r == (forall|x: int| !(#[trigger] self.covers(x))),
    {
        proof {
            if self.ranges@.len() > 0 {
                assert(self.ranges@[0].spec_contains(self.ranges@[0].start as int));
                assert(self.covers(self.ranges@[0].start as int));
            }
        }
        self.ranges.len() == 0
    }
}

/// Law: adding a range to an empty set and subtracting it again leaves an
/// empty set, for every pair of resulting sets that the two operations allow.
pub proof fn lemma_add_then_subtract_empty(s0: RangeSet, s1: RangeSet, s2: RangeSet, a: Range)
    requires
        forall|x: int| !(#[trigger] s0.covers(x)),
        forall|x: int| #[trigger] s1.covers(x) <==> s0.covers(x) || a.spec_contains(x),
        forall|x: int| #[trigger] s2.covers(x) <==> s1.covers(x) && !a.spec_contains(x),
    ensures
        forall|x: int| !(#[trigger] s2.covers(x)),
{
}

/// Law: after adding `a` and `b`, intersecting with any set that covers no
/// byte of `a` or `b` yields an empty set.
pub proof fn lemma_add_add_intersect_complement_empty(
    s0: RangeSet,
    s1: RangeSet,
    s2: RangeSet,
    c: RangeSet,
    t: RangeSet,
    a: Range,
    b: Range,
)
    requires
        forall|x: int| !(#[trigger] s0.covers(x)),
        forall|x: int| #[trigger] s1.covers(x) <==> s0.covers(x) || a.spec_contains(x),
        forall|x: int| #[trigger] s2.covers(x) <==> s1.covers(x) || b.spec_contains(x),
        forall|x: int| #[trigger] c.covers(x) ==> !a.spec_contains(x) && !b.spec_contains(x),
        forall|x: int| #[trigger] t.covers(x) <==> s2.covers(x) && c.covers(x),
    ensures
        forall|x: int| !(#[trigger] t.covers(x)),
{
}

/// A well-formed set whose covered bytes form one contiguous interval stores
/// exactly one range: merging leaves no fragmentation.
pub proof fn lemma_contiguous_single_range(s: RangeSet, lo: int, hi: int)
    requires
        s.wf(),
        lo < hi,
        forall|x: int| #[trigger] s.covers(x) <==> lo <= x < hi,
    ensures
        s.ranges().len() == 1,
        s.ranges()[0].start == lo,
        s.ranges()[0].start + s.ranges()[0].length == hi,
{
    let r = s.ranges();
    assert(s.covers(lo));
    lemma_covers_witness(r, lo);
    let k = choose|k: int| 0 <= k < r.len() && #[trigger] r[k].spec_contains(lo);
    if r.len() >= 2 {
        // Between two stored ranges there is a gap, contradicting contiguity.
        let gap = r[0].start + r[0].length;
        assert(r[0].start + r[0].length < r[1].start);
        assert(r[0].spec_contains(r[0].start as int));
        assert(s.covers(r[0].start as int));
        assert(r[1].spec_contains(r[1].start as int));
        assert(s.covers(r[1].start as int));
        assert(lo <= r[0].start);
        assert(r[1].start < hi);
        assert(lo <= gap < hi);
        assert(s.covers(gap));
        lemma_covers_witness(r, gap);
        let j = choose|j: int| 0 <= j < r.len() && #[trigger] r[j].spec_contains(gap);
        if j == 0 {
            assert(false);
        } else {
            assert(r[0].start + r[0].length < r[j].start);
            assert(false);
        }
    }
    assert(r.len() == 1);
    let e = r[0];
    assert(e.spec_contains(lo) ==> e.start <= lo);
    lemma_covers_from_index(r, 0, e.start as int);
    assert(s.covers(e.start as int));
    assert(lo <= e.start);
    assert(e.start <= lo) by {
        assert(e == r[k]);
    }
    lemma_covers_from_index(r, 0, e.start + e.length - 1);
    assert(s.covers(e.start + e.length - 1));
    assert(e.start + e.length <= hi);
    if e.start + e.length < hi {
        assert(s.covers(e.start + e.length));
        lemma_covers_witness(r, e.start + e.length);
        let j = choose|j: int| 0 <= j < r.len() && #[trigger] r[j].spec_contains(e.start + e.length);
        assert(false);
    }
}

/// Law: adding two overlapping or touching ranges to an empty set leaves a
/// single merged contiguous range.
pub proof fn lemma_touching_add_merges(s0: RangeSet, s1: RangeSet, s2: RangeSet, a: Range, b: Range)
    requires
        a.length > 0,
        b.length > 0,
        a.start <= b.start + b.length,
        b.start <= a.start + a.length,
        s2.wf(),
        forall|x: int| !(#[trigger] s0.covers(x)),
        forall|x: int| #[trigger] s1.covers(x) <==> s0.covers(x) || a.spec_contains(x),
        forall|x: int| #[trigger] s2.covers(x) <==> s1.covers(x) || b.spec_contains(x),
    ensures
        s2.ranges().len() == 1,
        s2.ranges()[0].start == if a.start <= b.start { a.start as int } else { b.start as int },
        s2.ranges()[0].start + s2.ranges()[0].length == if a.start + a.length >= b.start + b.length {
            a.start + a.length
        } else {
            b.start + b.length
        },
{
    let lo: int = if a.start <= b.start { a.start as int } else { b.start as int };
    let hi: int = if a.start + a.length >= b.start + b.length {
        a.start + a.length
    } else {
        b.start + b.length
    };
    assert forall|x: int| #[trigger] s2.covers(x) <==> lo <= x < hi by {
        assert(s2.covers(x) <==> (a.spec_contains(x) || b.spec_contains(x)));
    }
    lemma_contiguous_single_range(s2, lo, hi);
}

} // verus!
