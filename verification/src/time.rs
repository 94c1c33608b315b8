//! The time-range primitive and the interval algebra built on it:
//! merging, subtraction ("blocks"), windowing and unit counting.

use vstd::prelude::*;

verus! {

/// Inclusive `[start, end]` range on the discrete time grid.
#[derive(PartialEq, Eq, Structural, Debug, Clone, Copy, Hash)]
pub struct TimeRange(pub u32, pub u32);

/// A well-formed range runs forwards.
pub open spec fn wf_range(t: TimeRange) -> bool {
    t.0 <= t.1
}

/// The point `p` lies inside `t`.
pub open spec fn in_range(t: TimeRange, p: int) -> bool {
    t.0 <= p <= t.1
}

/// The point `p` lies inside some range of `xs`.
pub open spec fn covered(xs: Seq<TimeRange>, p: int) -> bool {
    exists|i: int| 0 <= i < xs.len() && in_range(xs[i], p)
}

/// Normal form of a union of ranges: every range runs forwards and
/// consecutive ranges are separated by at least one free grid point, so the
/// sequence is the unique minimal sorted decomposition of its point set.
pub open spec fn is_normal(xs: Seq<TimeRange>) -> bool {
    &&& forall|i: int| 0 <= i < xs.len() ==> wf_range(#[trigger] xs[i])
    &&& forall|i: int| 0 <= i < xs.len() - 1 ==> (#[trigger] xs[i].1) + 1 < xs[i + 1].0
}

/// `r` is the merge of `xs`: normal form with the same covered points.
pub open spec fn is_merge_of(r: Seq<TimeRange>, xs: Seq<TimeRange>) -> bool {
    &&& is_normal(r)
    &&& forall|p: int| covered(r, p) == covered(xs, p)
}

/// The unique normal form covering the same points as `xs`.
pub open spec fn merged(xs: Seq<TimeRange>) -> Seq<TimeRange> {
    choose|r: Seq<TimeRange>| is_merge_of(r, xs)
}

/// `r` is the subtraction of `b` from `a`: normal form covering exactly the
/// points of `a` not covered by `b`.
pub open spec fn is_diff_of(r: Seq<TimeRange>, a: Seq<TimeRange>, b: Seq<TimeRange>) -> bool {
    &&& is_normal(r)
    &&& forall|p: int| covered(r, p) == (covered(a, p) && !covered(b, p))
}

/// The unique normal form of the points of `a` not covered by `b`.
pub open spec fn diff(a: Seq<TimeRange>, b: Seq<TimeRange>) -> Seq<TimeRange> {
    choose|r: Seq<TimeRange>| is_diff_of(r, a, b)
}

/// In a normal sequence, ranges further right start strictly after earlier
/// ranges end, with a gap.
pub proof fn lemma_normal_gap(xs: Seq<TimeRange>, i: int, j: int)
    requires
        is_normal(xs),
        0 <= i < j < xs.len(),
    ensures
        xs[i].1 + 1 < xs[j].0,
    decreases j - i,
{
    if j > i + 1 {
        lemma_normal_gap(xs, i, j - 1);
    }
}

/// Dropping the first range of a normal sequence removes exactly the points
/// up to and including its end.
pub proof fn lemma_normal_tail(xs: Seq<TimeRange>, p: int)
    requires
        is_normal(xs),
        xs.len() > 0,
    ensures
        covered(xs.drop_first(), p) == (covered(xs, p) && p > xs[0].1),
{
    let tail = xs.drop_first();
    if covered(tail, p) {
        let i = choose|i: int| 0 <= i < tail.len() && in_range(tail[i], p);
        assert(tail[i] == xs[i + 1]);
        lemma_normal_gap(xs, 0, i + 1);
        assert(in_range(xs[i + 1], p));
    }
    if covered(xs, p) && p > xs[0].1 {
        let i = choose|i: int| 0 <= i < xs.len() && in_range(xs[i], p);
        assert(i != 0);
        assert(in_range(tail[i - 1], p));
    }
}

/// Two normal sequences covering the same points are equal: the normal form
/// of a point set is unique.
pub proof fn lemma_normal_unique(a: Seq<TimeRange>, b: Seq<TimeRange>)
    requires
        is_normal(a),
        is_normal(b),
        forall|p: int| covered(a, p) == covered(b, p),
    ensures
        a == b,
    decreases a.len(),
{
    if a.len() == 0 {
        if b.len() > 0 {
            assert(in_range(b[0], b[0].0 as int));
            assert(covered(b, b[0].0 as int));
            assert(false);
        }
        assert(a =~= b);
    } else if b.len() == 0 {
        assert(in_range(a[0], a[0].0 as int));
        assert(covered(a, a[0].0 as int));
        assert(false);
    } else {
        // The least covered point is the first start, on both sides.
        assert(in_range(a[0], a[0].0 as int));
        assert(covered(b, a[0].0 as int));
        let j = choose|j: int| 0 <= j < b.len() && in_range(b[j], a[0].0 as int);
        assert(in_range(b[j], b[j].0 as int));
        assert(covered(a, b[j].0 as int));
        let k = choose|k: int| 0 <= k < a.len() && in_range(a[k], b[j].0 as int);
        if k > 0 {
            lemma_normal_gap(a, 0, k);
        }
        assert(b[j].0 == a[0].0);
        if j > 0 {
            assert(in_range(b[0], b[0].0 as int));
            assert(covered(a, b[0].0 as int));
            let k0 = choose|k0: int| 0 <= k0 < a.len() && in_range(a[k0], b[0].0 as int);
            if k0 > 0 {
                lemma_normal_gap(a, 0, k0);
            }
            lemma_normal_gap(b, 0, j);
            assert(false);
        }
        assert(b[0].0 == a[0].0);
        // The ends agree: the point one past the shorter end would be covered
        // on one side only.
        if a[0].1 < b[0].1 {
            let p = a[0].1 + 1;
            assert(in_range(b[0], p));
            assert(covered(a, p));
            let k1 = choose|k1: int| 0 <= k1 < a.len() && in_range(a[k1], p);
            if k1 > 0 {
                lemma_normal_gap(a, 0, k1);
            }
            assert(false);
        }
        if b[0].1 < a[0].1 {
            let p = b[0].1 + 1;
            assert(in_range(a[0], p));
            assert(covered(b, p));
            let k1 = choose|k1: int| 0 <= k1 < b.len() && in_range(b[k1], p);
            if k1 > 0 {
                lemma_normal_gap(b, 0, k1);
            }
            assert(false);
        }
        assert(a[0] == b[0]);
        assert forall|p: int| covered(a.drop_first(), p) == covered(b.drop_first(), p) by {
            lemma_normal_tail(a, p);
            lemma_normal_tail(b, p);
        }
        lemma_normal_unique(a.drop_first(), b.drop_first());
        assert(a =~= b) by {
            assert(a.len() == b.len());
            assert(forall|i: int|
                1 <= i < a.len() ==> a[i] == a.drop_first()[i - 1] && b[i] == b.drop_first()[i
                    - 1]);
        }
    }
}

/// Whatever satisfies the merge characterization is `merged(xs)` itself.
pub proof fn lemma_merged_is(r: Seq<TimeRange>, xs: Seq<TimeRange>)
    requires
        is_merge_of(r, xs),
    ensures
        merged(xs) == r,
        is_merge_of(merged(xs), xs),
{
    let m = choose|m: Seq<TimeRange>| is_merge_of(m, xs);
    assert(is_merge_of(m, xs));
    lemma_normal_unique(r, m);
}

/// Whatever satisfies the subtraction characterization is `diff(a, b)` itself.
pub proof fn lemma_diff_is(r: Seq<TimeRange>, a: Seq<TimeRange>, b: Seq<TimeRange>)
    requires
        is_diff_of(r, a, b),
    ensures
        diff(a, b) == r,
        is_diff_of(diff(a, b), a, b),
{
    let m = choose|m: Seq<TimeRange>| is_diff_of(m, a, b);
    assert(is_diff_of(m, a, b));
    lemma_normal_unique(r, m);
}

/// Merging is idempotent: a merged list is its own merge, so folding it
/// again returns it unchanged.
pub proof fn lemma_merge_idempotent(r: Seq<TimeRange>, xs: Seq<TimeRange>)
    requires
        is_merge_of(r, xs),
    ensures
        merged(xs) == r,
        is_merge_of(r, r),
        merged(r) == r,
{
    lemma_merged_is(r, xs);
    assert(is_merge_of(r, r));
    lemma_merged_is(r, r);
}

/// Subtraction inverts union: everything available is either kept by the
/// subtraction or blocked, and what is kept never overlaps the blocked set.
pub proof fn lemma_diff_partition(r: Seq<TimeRange>, a: Seq<TimeRange>, b: Seq<TimeRange>)
    requires
        is_diff_of(r, a, b),
    ensures
        forall|p: int| covered(a, p) ==> covered(r, p) || covered(b, p),
        forall|p: int| !(covered(r, p) && covered(b, p)),
{
}

/// Lexicographic order on `(start, end)`: the strict sorting order used on
/// raw range lists, as opposed to the overlap-aware order of the solver.
pub open spec fn lex_leq(a: TimeRange, b: TimeRange) -> bool {
    a.0 < b.0 || (a.0 == b.0 && a.1 <= b.1)
}

/// The sequence is sorted by `(start, end)`.
pub open spec fn sorted_lex(xs: Seq<TimeRange>) -> bool {
    forall|i: int, j: int| 0 <= i < j < xs.len() ==> lex_leq(#[trigger] xs[i], #[trigger] xs[j])
}

/// Appending a range adds exactly its points.
pub proof fn lemma_covered_push(s: Seq<TimeRange>, x: TimeRange, p: int)
    ensures
        covered(s.push(x), p) == (covered(s, p) || in_range(x, p)),
{
    if covered(s.push(x), p) {
        let i = choose|i: int| 0 <= i < s.push(x).len() && in_range(s.push(x)[i], p);
        if i < s.len() {
            assert(in_range(s[i], p));
        }
    }
    if covered(s, p) {
        let i = choose|i: int| 0 <= i < s.len() && in_range(s[i], p);
        assert(in_range(s.push(x)[i], p));
    }
    if in_range(x, p) {
        assert(in_range(s.push(x)[s.len() as int], p));
    }
}

/// Sequences holding the same ranges cover the same points.
pub proof fn lemma_multiset_covered(a: Seq<TimeRange>, b: Seq<TimeRange>)
    requires
        a.to_multiset() == b.to_multiset(),
    ensures
        forall|p: int| covered(a, p) == covered(b, p),
        forall|i: int| 0 <= i < a.len() ==> b.contains(#[trigger] a[i]),
{
    broadcast use vstd::seq_lib::group_to_multiset_ensures;

    assert forall|i: int| 0 <= i < a.len() implies b.contains(#[trigger] a[i]) by {
        assert(a.contains(a[i]));
        assert(a.to_multiset().count(a[i]) > 0);
        assert(b.to_multiset().count(a[i]) > 0);
    }
    assert forall|p: int| covered(a, p) implies covered(b, p) by {
        let i = choose|i: int| 0 <= i < a.len() && in_range(a[i], p);
        assert(a.contains(a[i]));
        assert(a.to_multiset().count(a[i]) > 0);
        assert(b.to_multiset().count(a[i]) > 0);
        assert(b.contains(a[i]));
        let j = choose|j: int| 0 <= j < b.len() && b[j] == a[i];
        assert(in_range(b[j], p));
    }
    assert forall|p: int| covered(b, p) implies covered(a, p) by {
        let i = choose|i: int| 0 <= i < b.len() && in_range(b[i], p);
        assert(b.contains(b[i]));
        assert(b.to_multiset().count(b[i]) > 0);
        assert(a.to_multiset().count(b[i]) > 0);
        assert(a.contains(b[i]));
        let j = choose|j: int| 0 <= j < a.len() && a[j] == b[i];
        assert(in_range(a[j], p));
    }
}

/// Sorts ranges by `(start, end)`, returning the same collection of ranges.
pub fn sort_ranges(xs: &Vec<TimeRange>) -> (r: Vec<TimeRange>)
    ensures
        sorted_lex(r@),
        r@.to_multiset() == xs@.to_multiset(),
        r@.len() == xs@.len(),
        forall|i: int| 0 <= i < r@.len() ==> xs@.contains(#[trigger] r@[i]),
{
    broadcast use vstd::seq_lib::group_to_multiset_ensures;

    let mut out: Vec<TimeRange> = Vec::new();
    let mut i: usize = 0;
    while i < xs.len()
        invariant
            i <= xs@.len(),
            sorted_lex(out@),
            out@.to_multiset() == xs@.take(i as int).to_multiset(),
            out@.len() == i,
        decreases xs@.len() - i,
    {
        let x = xs[i];
        let mut p: usize = 0;
        while p < out.len() && (out[p].0 < x.0 || (out[p].0 == x.0 && out[p].1 <= x.1))
            invariant
                p <= out@.len(),
                forall|k: int| 0 <= k < p ==> lex_leq(#[trigger] out@[k], x),
            decreases out@.len() - p,
        {
            p += 1;
        }
        let ghost prev = out@;
        out.insert(p, x);
        proof {
            prev.insert_ensures(p as int, x);
            assert forall|u: int, v: int| 0 <= u < v < out@.len() implies lex_leq(
                #[trigger] out@[u],
                #[trigger] out@[v],
            ) by {
                if u < p && v < p {
                    assert(out@[u] == prev[u] && out@[v] == prev[v]);
                } else if u < p && v == p {
                    assert(out@[u] == prev[u]);
                } else if u < p && v > p {
                    assert(out@[u] == prev[u] && out@[v] == prev[v - 1]);
                } else if u == p && v > p {
                    assert(out@[v] == prev[v - 1]);
                    if (p as int) < prev.len() {
                        assert(lex_leq(prev[p as int], prev[v - 1]) || p == v - 1);
                    }
                } else {
                    assert(out@[u] == prev[u - 1] && out@[v] == prev[v - 1]);
                }
            }
            vstd::seq_lib::to_multiset_insert(prev, p as int, x);
            assert(out@.to_multiset() == prev.to_multiset().insert(x));
            assert(xs@.take(i as int + 1) =~= xs@.take(i as int).push(x));
            vstd::seq_lib::to_multiset_build(xs@.take(i as int), x);
        }
        i += 1;
    }
    proof {
        assert(xs@.take(xs@.len() as int) =~= xs@);
        lemma_multiset_covered(out@, xs@);
    }
    out
}

/// Folds a list of ranges into the unique sorted sequence of disjoint,
/// non-touching ranges covering the same grid points, coalescing any ranges
/// that overlap or touch.
pub fn time_merge(xs: &Vec<TimeRange>) -> (r: Vec<TimeRange>)
    requires
        forall|i: int| 0 <= i < xs@.len() ==> wf_range(#[trigger] xs@[i]),
    ensures
        is_merge_of(r@, xs@),
        r@ == merged(xs@),
        is_normal(xs@) ==> r@ == xs@,
{
    let sorted = sort_ranges(xs);
    proof {
        lemma_multiset_covered(sorted@, xs@);
    }
    let mut out: Vec<TimeRange> = Vec::new();
    let mut i: usize = 0;
    while i < sorted.len()
        invariant
            i <= sorted@.len(),
            sorted_lex(sorted@),
            forall|k: int| 0 <= k < sorted@.len() ==> wf_range(#[trigger] sorted@[k]),
            forall|p: int| covered(sorted@, p) == covered(xs@, p),
            is_normal(out@),
            forall|p: int| covered(out@, p) == covered(sorted@.take(i as int), p),
            out@.len() > 0 ==> i > 0 && out@.last().0 <= sorted@[i as int - 1].0,
        decreases sorted@.len() - i,
    {
        let t = sorted[i];
        let ghost prev = out@;
        if out.len() == 0 {
            out.push(t);
            proof {
                assert forall|p: int| covered(out@, p) == covered(
                    sorted@.take(i as int + 1),
                    p,
                ) by {
                    lemma_covered_push(prev, t, p);
                    lemma_covered_push(sorted@.take(i as int), sorted@[i as int], p);
                    assert(sorted@.take(i as int + 1) =~= sorted@.take(i as int).push(
                        sorted@[i as int],
                    ));
                }
            }
        } else {
            let last = out[out.len() - 1];
            if t.0 as u64 <= last.1 as u64 + 1 {
                let newend = if t.1 > last.1 {
                    t.1
                } else {
                    last.1
                };
                let merged_last = TimeRange(last.0, newend);
                out.pop();
                out.push(merged_last);
                proof {
                    assert(prev.drop_last() =~= out@.drop_last());
                    assert(out@ =~= prev.drop_last().push(merged_last));
                    assert(prev =~= prev.drop_last().push(last));
                    assert forall|u: int| 0 <= u < out@.len() implies wf_range(
                        #[trigger] out@[u],
                    ) by {
                        if u < out@.len() - 1 {
                            assert(out@[u] == prev[u]);
                        }
                    }
                    assert(is_normal(out@));
                    assert forall|p: int| covered(out@, p) == covered(
                        sorted@.take(i as int + 1),
                        p,
                    ) by {
                        lemma_covered_push(prev.drop_last(), merged_last, p);
                        lemma_covered_push(prev.drop_last(), last, p);
                        lemma_covered_push(sorted@.take(i as int), sorted@[i as int], p);
                        assert(sorted@.take(i as int + 1) =~= sorted@.take(i as int).push(
                            sorted@[i as int],
                        ));
                        assert(in_range(merged_last, p) == (in_range(last, p) || in_range(
                            t,
                            p,
                        )));
                    }
                }
            } else {
                out.push(t);
                proof {
                    assert(prev.drop_last() =~= out@.drop_last().drop_last());
                    assert forall|u: int| 0 <= u < out@.len() implies wf_range(
                        #[trigger] out@[u],
                    ) by {
                        if u < out@.len() - 1 {
                            assert(out@[u] == prev[u]);
                        }
                    }
                    assert forall|u: int| 0 <= u < out@.len() - 1 implies (
                    #[trigger] out@[u].1) + 1 < out@[u + 1].0 by {
                        if u < out@.len() - 2 {
                            assert(out@[u] == prev[u] && out@[u + 1] == prev[u + 1]);
                        } else {
                            assert(out@[u] == last && out@[u + 1] == t);
                        }
                    }
                    assert forall|p: int| covered(out@, p) == covered(
                        sorted@.take(i as int + 1),
                        p,
                    ) by {
                        lemma_covered_push(prev, t, p);
                        lemma_covered_push(sorted@.take(i as int), sorted@[i as int], p);
                        assert(sorted@.take(i as int + 1) =~= sorted@.take(i as int).push(
                            sorted@[i as int],
                        ));
                    }
                }
            }
        }
        i += 1;
    }
    proof {
        assert(sorted@.take(sorted@.len() as int) =~= sorted@);
        assert(is_merge_of(out@, xs@));
        lemma_merged_is(out@, xs@);
        if is_normal(xs@) {
            lemma_normal_unique(out@, xs@);
        }
    }
    out
}

/// Points at or past the start of the `i`-th range of a normal sequence are
/// not covered by the ranges before it.
pub proof fn lemma_take_uncovered(xs: Seq<TimeRange>, i: int, p: int)
    requires
        is_normal(xs),
        0 <= i < xs.len(),
        p >= xs[i].0,
    ensures
        !covered(xs.take(i), p),
{
    if covered(xs.take(i), p) {
        let k = choose|k: int| 0 <= k < xs.take(i).len() && in_range(xs.take(i)[k], p);
        assert(xs.take(i)[k] == xs[k]);
        lemma_normal_gap(xs, k, i);
    }
}

/// A point that lies after every range before index `j` and before the range
/// at `j` is not covered at all.
pub proof fn lemma_uncovered_between(bs: Seq<TimeRange>, j: int, s: int, p: int)
    requires
        is_normal(bs),
        0 <= j <= bs.len(),
        forall|k: int| 0 <= k < j ==> (#[trigger] bs[k].1) < s,
        s <= p,
        j == bs.len() || p < bs[j].0,
    ensures
        !covered(bs, p),
{
    if covered(bs, p) {
        let k = choose|k: int| 0 <= k < bs.len() && in_range(bs[k], p);
        if k < j {
            assert(bs[k].1 < s);
        } else if k > j {
            lemma_normal_gap(bs, j, k);
        }
    }
}

/// Appending a well-formed range that starts past the last end, with a gap,
/// keeps a sequence normal.
pub proof fn lemma_normal_push(s: Seq<TimeRange>, x: TimeRange)
    requires
        is_normal(s),
        wf_range(x),
        s.len() > 0 ==> s.last().1 + 1 < x.0,
    ensures
        is_normal(s.push(x)),
{
    let t = s.push(x);
    assert forall|u: int| 0 <= u < t.len() implies wf_range(#[trigger] t[u]) by {
        if u < s.len() {
            assert(t[u] == s[u]);
        }
    }
    assert forall|u: int| 0 <= u < t.len() - 1 implies (#[trigger] t[u].1) + 1 < t[u + 1].0 by {
        if u < s.len() - 1 {
            assert(t[u] == s[u] && t[u + 1] == s[u + 1]);
        } else {
            assert(t[u] == s.last() && t[u + 1] == x);
        }
    }
}

/// Subtracts the union of `blocked` from the union of `avail`, returning the
/// normal form of the grid points that remain available.
#[verifier::rlimit(100)]
pub fn blocks(avail: &Vec<TimeRange>, blocked: &Vec<TimeRange>) -> (r: Vec<TimeRange>)
    requires
        forall|i: int| 0 <= i < avail@.len() ==> wf_range(#[trigger] avail@[i]),
        forall|i: int| 0 <= i < blocked@.len() ==> wf_range(#[trigger] blocked@[i]),
    ensures
        is_diff_of(r@, avail@, blocked@),
        r@ == diff(avail@, blocked@),
{
    let ma = time_merge(avail);
    let mb = time_merge(blocked);
    let ghost mas = ma@;
    let ghost mbs = mb@;
    let mut out: Vec<TimeRange> = Vec::new();
    let mut i: usize = 0;
    let mut j: usize = 0;
    while i < ma.len()
        invariant
            ma@ == mas,
            mb@ == mbs,
            is_normal(mas),
            is_normal(mbs),
            forall|p: int| covered(mas, p) == covered(avail@, p),
            forall|p: int| covered(mbs, p) == covered(blocked@, p),
            i <= mas.len(),
            j <= mbs.len(),
            is_normal(out@),
            forall|p: int| #![trigger covered(out@, p)]
                covered(out@, p) == (covered(mas.take(i as int), p) && !covered(mbs, p)),
            i < mas.len() ==> forall|k: int|
                0 <= k < j ==> (#[trigger] mbs[k].1) < mas[i as int].0,
            out@.len() > 0 && i < mas.len() ==> out@.last().1 + 1 < mas[i as int].0,
        decreases mas.len() - i,
    {
        let a = ma[i];
        let mut s: u32 = a.0;
        let mut alive = true;
        while alive && j < mb.len() && mb[j].0 <= a.1
            invariant
                ma@ == mas,
                mb@ == mbs,
                is_normal(mas),
                is_normal(mbs),
                i < mas.len(),
                a == mas[i as int],
                a.0 <= s <= a.1,
                j <= mbs.len(),
                is_normal(out@),
                forall|k: int| 0 <= k < j ==> (#[trigger] mbs[k].1) < s,
                alive && out@.len() > 0 ==> out@.last().1 + 1 < s,
                out@.len() > 0 ==> out@.last().1 <= a.1,
                alive ==> forall|p: int| #![trigger covered(out@, p)]
                    covered(out@, p) == ((covered(mas.take(i as int), p) || (in_range(a, p) && p
                        < s)) && !covered(mbs, p)),
                !alive ==> forall|p: int| #![trigger covered(out@, p)]
                    covered(out@, p) == (covered(mas.take(i as int + 1), p) && !covered(
                        mbs,
                        p,
                    )),
            decreases mbs.len() - j, (if alive { 1int } else { 0int }),
        {
            let b = mb[j];
            let ghost prev = out@;
            if b.1 < s {
                j += 1;
            } else {
                if b.0 > s {
                    // The stretch `[s, b.0 - 1]` survives.
                    proof {
                        lemma_normal_push(prev, TimeRange(s, (b.0 - 1) as u32));
                    }
                    out.push(TimeRange(s, b.0 - 1));
                }
                if b.1 >= a.1 {
                    alive = false;
                    proof {
                        assert(mas.take(i as int + 1) =~= mas.take(i as int).push(a));
                        assert forall|p: int| #![trigger covered(out@, p)]
                            covered(out@, p) == (covered(mas.take(i as int + 1), p)
                                && !covered(mbs, p)) by {
                            lemma_covered_push(mas.take(i as int), a, p);
                            if b.0 > s {
                                lemma_covered_push(prev, TimeRange(s, (b.0 - 1) as u32), p);
                            }
                            if in_range(a, p) && s <= p && p < b.0 {
                                lemma_uncovered_between(mbs, j as int, s as int, p);
                            }
                            if in_range(a, p) && p >= b.0 {
                                assert(in_range(mbs[j as int], p));
                                assert(covered(mbs, p));
                            }
                            if p >= a.0 {
                                lemma_take_uncovered(mas, i as int, p);
                            }
                        }
                    }
                } else {
                    proof {
                        assert forall|p: int| #![trigger covered(out@, p)]
                            (covered(out@, p) == ((covered(mas.take(i as int), p) || (in_range(
                                a,
                                p,
                            ) && p < b.1 + 1)) && !covered(mbs, p))) by {
                            if b.0 > s {
                                lemma_covered_push(prev, TimeRange(s, (b.0 - 1) as u32), p);
                            }
                            if in_range(a, p) && s <= p && p < b.0 {
                                lemma_uncovered_between(mbs, j as int, s as int, p);
                            }
                            if in_range(a, p) && b.0 <= p <= b.1 {
                                assert(in_range(mbs[j as int], p));
                                assert(covered(mbs, p));
                            }
                            if p >= a.0 {
                                lemma_take_uncovered(mas, i as int, p);
                            }
                        }
                    }
                    s = b.1 + 1;
                    j += 1;
                }
            }
        }
        let ghost prev = out@;
        if alive {
            proof {
                lemma_normal_push(prev, TimeRange(s, a.1));
            }
            out.push(TimeRange(s, a.1));
            proof {
                assert(mas.take(i as int + 1) =~= mas.take(i as int).push(a));
                assert forall|p: int| #![trigger covered(out@, p)]
                    covered(out@, p) == (covered(mas.take(i as int + 1), p) && !covered(
                        mbs,
                        p,
                    )) by {
                    lemma_covered_push(prev, TimeRange(s, a.1), p);
                    lemma_covered_push(mas.take(i as int), a, p);
                    if s <= p <= a.1 {
                        lemma_uncovered_between(mbs, j as int, s as int, p);
                    }
                    if p >= a.0 {
                        lemma_take_uncovered(mas, i as int, p);
                    }
                }
            }
        }
        proof {
            if i + 1 < mas.len() {
                lemma_normal_gap(mas, i as int, i as int + 1);
            }
        }
        i += 1;
    }
    proof {
        assert(mas.take(mas.len() as int) =~= mas);
        assert(is_diff_of(out@, avail@, blocked@));
        lemma_diff_is(out@, avail@, blocked@);
    }
    out
}

/// All length-`d` windows inside the single range `t`, in increasing start
/// order.
pub open spec fn range_windows(t: TimeRange, d: int) -> Seq<TimeRange> {
    if d < 1 || t.1 - t.0 + 1 < d {
        Seq::empty()
    } else {
        Seq::new(
            (t.1 - t.0 + 2 - d) as nat,
            |k: int| TimeRange((t.0 + k) as u32, (t.0 + k + d - 1) as u32),
        )
    }
}

/// All length-`d` windows of every range of `xs`, in order of the ranges.
pub open spec fn windows_of(xs: Seq<TimeRange>, d: int) -> Seq<TimeRange>
    decreases xs.len(),
{
    if xs.len() == 0 {
        Seq::empty()
    } else {
        range_windows(xs[0], d) + windows_of(xs.drop_first(), d)
    }
}

/// Windowing distributes over appending one more range at the end.
pub proof fn lemma_windows_push(xs: Seq<TimeRange>, x: TimeRange, d: int)
    ensures
        windows_of(xs.push(x), d) == windows_of(xs, d) + range_windows(x, d),
    decreases xs.len(),
{
    if xs.len() == 0 {
        assert(xs.push(x).drop_first() =~= Seq::<TimeRange>::empty());
        assert(xs.push(x)[0] == x);
        assert(windows_of(Seq::<TimeRange>::empty(), d) == Seq::<TimeRange>::empty());
        assert(windows_of(xs.push(x), d) == range_windows(x, d) + Seq::<TimeRange>::empty());
        assert(windows_of(xs.push(x), d) =~= windows_of(xs, d) + range_windows(x, d));
    } else {
        assert(xs.push(x).drop_first() =~= xs.drop_first().push(x));
        lemma_windows_push(xs.drop_first(), x, d);
        assert(windows_of(xs.push(x), d) =~= windows_of(xs, d) + range_windows(x, d));
    }
}

/// A window list contains exactly the length-`d` ranges that fit inside some
/// range of `xs`.
pub proof fn lemma_window_membership(xs: Seq<TimeRange>, d: int, w: TimeRange)
    requires
        d >= 1,
    ensures
        windows_of(xs, d).contains(w) <==> (w.1 - w.0 + 1 == d && exists|i: int|
            0 <= i < xs.len() && (#[trigger] xs[i]).0 <= w.0 && w.1 <= xs[i].1),
    decreases xs.len(),
{
    if xs.len() > 0 {
        lemma_window_membership(xs.drop_first(), d, w);
        let head = range_windows(xs[0], d);
        let rest = windows_of(xs.drop_first(), d);
        if windows_of(xs, d).contains(w) {
            let k = choose|k: int| 0 <= k < windows_of(xs, d).len() && windows_of(xs, d)[k] == w;
            if k < head.len() {
                assert(head[k] == w);
                assert(xs[0].0 <= w.0 && w.1 <= xs[0].1 && w.1 - w.0 + 1 == d);
            } else {
                assert(rest[k - head.len()] == w);
                assert(rest.contains(w));
                let i = choose|i: int|
                    0 <= i < xs.drop_first().len() && (#[trigger] xs.drop_first()[i]).0 <= w.0
                        && w.1 <= xs.drop_first()[i].1;
                assert(xs[i + 1].0 <= w.0 && w.1 <= xs[i + 1].1);
            }
        }
        if w.1 - w.0 + 1 == d {
            if exists|i: int| 0 <= i < xs.len() && (#[trigger] xs[i]).0 <= w.0 && w.1 <= xs[i].1 {
                let i = choose|i: int|
                    0 <= i < xs.len() && (#[trigger] xs[i]).0 <= w.0 && w.1 <= xs[i].1;
                if i == 0 {
                    let k = w.0 - xs[0].0;
                    assert(head[k] == w);
                    assert(windows_of(xs, d)[k] == w);
                    assert(windows_of(xs, d).contains(w));
                } else {
                    assert(xs.drop_first()[i - 1] == xs[i]);
                    assert(rest.contains(w));
                    let k = choose|k: int| 0 <= k < rest.len() && rest[k] == w;
                    assert(windows_of(xs, d)[head.len() + k] == w);
                    assert(windows_of(xs, d).contains(w));
                }
            }
        }
    }
}

/// Every window has length `d` and lies inside some range of `xs`.
pub proof fn lemma_window_shape(xs: Seq<TimeRange>, d: int, k: int)
    requires
        d >= 1,
        0 <= k < windows_of(xs, d).len(),
    ensures
        windows_of(xs, d)[k].1 - windows_of(xs, d)[k].0 + 1 == d,
        wf_range(windows_of(xs, d)[k]),
        exists|i: int|
            0 <= i < xs.len() && (#[trigger] xs[i]).0 <= windows_of(xs, d)[k].0 && windows_of(
                xs,
                d,
            )[k].1 <= xs[i].1,
{
    let w = windows_of(xs, d)[k];
    assert(windows_of(xs, d).contains(w));
    lemma_window_membership(xs, d, w);
}

/// Enumerates, for each range of `xs` in order, every window of `duration`
/// consecutive grid points that fits inside it, by increasing start.
pub fn windowed(xs: &Vec<TimeRange>, duration: u32) -> (r: Vec<TimeRange>)
    requires
        forall|i: int| 0 <= i < xs@.len() ==> wf_range(#[trigger] xs@[i]),
    ensures
        r@ == windows_of(xs@, duration as int),
{
    let ghost d = duration as int;
    let mut out: Vec<TimeRange> = Vec::new();
    let mut i: usize = 0;
    while i < xs.len()
        invariant
            i <= xs@.len(),
            forall|k: int| 0 <= k < xs@.len() ==> wf_range(#[trigger] xs@[k]),
            out@ == windows_of(xs@.take(i as int), d),
            d == duration as int,
        decreases xs@.len() - i,
    {
        let t = xs[i];
        assert(wf_range(t));
        let ghost rw = range_windows(t, d);
        let mut s: u64 = t.0 as u64;
        while duration >= 1 && s + duration as u64 - 1 <= t.1 as u64
            invariant
                d == duration as int,
                wf_range(t),
                t.0 as u64 <= s,
                s <= t.1 as u64 + 1,
                rw == range_windows(t, d),
                s - t.0 <= rw.len(),
                out@ == windows_of(xs@.take(i as int), d) + rw.take(s - t.0 as u64),
            decreases t.1 as int + 1 - s,
        {
            let w = TimeRange(s as u32, (s + duration as u64 - 1) as u32);
            out.push(w);
            proof {
                let k = s - t.0 as u64;
                assert(rw.len() == t.1 - t.0 + 2 - d);
                assert(rw[k as int] == w);
                assert(rw.take(k as int + 1) =~= rw.take(k as int).push(w));
            }
            s += 1;
        }
        proof {
            if duration >= 1 && t.1 - t.0 + 1 >= d {
                assert(s - t.0 as u64 == rw.len());
            } else {
                assert(rw.len() == 0);
                assert(s == t.0 as u64);
            }
            assert(rw.take((s - t.0 as u64) as int) =~= rw);
            assert(xs@.take(i as int + 1) =~= xs@.take(i as int).push(xs@[i as int]));
            lemma_windows_push(xs@.take(i as int), xs@[i as int], d);
        }
        i += 1;
    }
    proof {
        assert(xs@.take(xs@.len() as int) =~= xs@);
    }
    out
}

/// Total number of grid points covered by `xs`, counted with multiplicity.
pub open spec fn units(xs: Seq<TimeRange>) -> int
    decreases xs.len(),
{
    if xs.len() == 0 {
        0
    } else {
        units(xs.drop_last()) + (xs.last().1 - xs.last().0 + 1)
    }
}

/// For well-formed ranges, every prefix counts at most the whole.
pub proof fn lemma_units_mono(xs: Seq<TimeRange>, i: int)
    requires
        0 <= i <= xs.len(),
        forall|k: int| 0 <= k < xs.len() ==> wf_range(#[trigger] xs[k]),
    ensures
        units(xs.take(i)) <= units(xs),
    decreases xs.len() - i,
{
    if i < xs.len() {
        lemma_units_mono(xs, i + 1);
        assert(xs.take(i + 1).drop_last() =~= xs.take(i));
        assert(xs.take(i + 1).last() == xs[i]);
    } else {
        assert(xs.take(i) =~= xs);
    }
}

/// Sums `end - start + 1` over the ranges; `None` signals that the total
/// does not fit the grid type, which callers treat as "more units than any
/// count that matters".
pub fn count_units(xs: &Vec<TimeRange>) -> (r: Option<u32>)
    requires
        forall|i: int| 0 <= i < xs@.len() ==> wf_range(#[trigger] xs@[i]),
    ensures
        match r {
            Some(n) => n as int == units(xs@),
            None => units(xs@) > u32::MAX,
        },
{
    let mut sum: u32 = 0;
    let mut i: usize = 0;
    while i < xs.len()
        invariant
            i <= xs@.len(),
            forall|k: int| 0 <= k < xs@.len() ==> wf_range(#[trigger] xs@[k]),
            sum as int == units(xs@.take(i as int)),
        decreases xs@.len() - i,
    {
        let t = xs[i];
        let total = sum as u64 + (t.1 - t.0) as u64 + 1;
        proof {
            assert(xs@.take(i as int + 1).drop_last() =~= xs@.take(i as int));
            assert(xs@.take(i as int + 1).last() == xs@[i as int]);
        }
        if total > u32::MAX as u64 {
            proof {
                lemma_units_mono(xs@, i as int + 1);
            }
            return None;
        }
        sum = total as u32;
        i += 1;
    }
    proof {
        assert(xs@.take(xs@.len() as int) =~= xs@);
    }
    Some(sum)
}

/// A value that can say whether it is structurally valid, with a message for
/// the rejected case.
pub trait Validate {
    /// The property that `validate` checks.
    spec fn valid(&self) -> bool;

    /// The message reported when the value is invalid.
    spec fn invalid_message(&self) -> Seq<char>;

    /// Returns `Ok` exactly when the value is valid, and otherwise the
    /// value's own rejection message.
    fn validate(&self) -> (r: Result<(), String>)
        ensures
            r is Ok <==> self.valid(),
            r matches Err(m) ==> m@ == self.invalid_message(),
    ;
}

impl Validate for TimeRange {
    open spec fn valid(&self) -> bool {
        wf_range(*self)
    }

    open spec fn invalid_message(&self) -> Seq<char> {
        "start is after end"@
    }

    fn validate(&self) -> (r: Result<(), String>) {
        if self.1 < self.0 {
            Err("start is after end".to_string())
        } else {
            Ok(())
        }
    }
}

/// Counting the grid points a collection of ranges offers: you cannot fit
/// more unit-length pigeons than there are holes.
pub trait Pigeons {
    /// The ranges whose units are counted.
    spec fn ranges(&self) -> Seq<TimeRange>;

    /// Sums the lengths of the ranges; `None` on a total beyond the grid
    /// type, which callers take as "effectively unbounded".
    fn count_pigeons(&self) -> (r: Option<u32>)
        ensures
            (forall|i: int| 0 <= i < self.ranges().len() ==> wf_range(#[trigger] self.ranges()[i]))
                ==> match r {
                Some(n) => n as int == units(self.ranges()),
                None => units(self.ranges()) > u32::MAX,
            },
    ;
}

impl Pigeons for Vec<TimeRange> {
    open spec fn ranges(&self) -> Seq<TimeRange> {
        self@
    }

    fn count_pigeons(&self) -> (r: Option<u32>) {
        if !ranges_wf(self) {
            // A reversed range slipped in; count nothing rather than wrap.
            return Some(0);
        }
        count_units(self)
    }
}

/// Checks every range runs forwards.
pub fn ranges_wf(xs: &Vec<TimeRange>) -> (r: bool)
    ensures
        r == forall|i: int| 0 <= i < xs@.len() ==> wf_range(#[trigger] xs@[i]),
{
    let mut i: usize = 0;
    while i < xs.len()
        invariant
            i <= xs@.len(),
            forall|k: int| 0 <= k < i ==> wf_range(#[trigger] xs@[k]),
        decreases xs@.len() - i,
    {
        if xs[i].1 < xs[i].0 {
            return false;
        }
        i += 1;
    }
    true
}

impl TimeRange {
    /// Builds a range from two grid points, swapping them when they are
    /// given in reverse order.
    pub fn new(start: u32, end: u32) -> (r: TimeRange)
        ensures
            wf_range(r),
            start <= end ==> r == TimeRange(start, end),
            end < start ==> r == TimeRange(end, start),
    {
        if end < start {
            TimeRange(end, start)
        } else {
            TimeRange(start, end)
        }
    }

    /// The first grid point of the range.
    pub fn start(self) -> (r: u32)
        ensures
            r == self.0,
    {
        self.0
    }

    /// The last grid point of the range.
    pub fn end(self) -> (r: u32)
        ensures
            r == self.1,
    {
        self.1
    }
}

} // verus!
