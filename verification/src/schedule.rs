//! The scheduling engine: a feasibility precheck and a depth-first
//! backtracking search that assigns every meeting a free window.

use vstd::multiset::Multiset;
use vstd::prelude::*;

use crate::meeting::{long_enough, Meeting};
use crate::time::{
    diff, is_normal, lemma_normal_gap, lemma_window_shape, units, wf_range, windowed, windows_of,
    TimeRange, Validate,
};

verus! {

/// Why scheduling failed.
#[derive(Debug)]
pub enum ValidationError {
    /// More meeting units asked for than free units exist: an authoritative
    /// proof of infeasibility.
    PigeonholeError { pigeons: u32, pigeon_holes: u32 },
    /// The search space was exhausted without a solution.
    NoSolution,
    /// The iteration budget ran out before the search finished.
    NoSolutionWithinIteration(usize),
    /// The input failed structural validation.
    InvalidData { error: String },
}

/// A meeting reduced to what the solver needs: its identifier, duration and
/// availability.
#[derive(Clone, Debug)]
pub struct MeetingScheduleInfo {
    pub id: String,
    pub duration: u32,
    pub availability: Vec<TimeRange>,
}

/// One scheduled meeting: which meeting, at which time.
#[derive(Clone, Debug)]
pub struct MeetingTime {
    pub id: String,
    pub time: TimeRange,
}

/// A found assignment, together with the number of search iterations used
/// and the final candidate cursors.
#[derive(Clone, Debug)]
pub struct ScheduleResult {
    pub count: usize,
    pub results: Vec<MeetingTime>,
    pub indices: Vec<usize>,
}

/// The scheduling problem: meetings and the globally allowed times.
#[derive(Clone, Debug)]
pub struct Schedule {
    pub meetings: Vec<Meeting>,
    pub availability: Vec<TimeRange>,
}

/// Two ranges overlap: they compare equal under the solver's overlap-aware
/// order.
pub open spec fn overlaps(a: TimeRange, b: TimeRange) -> bool {
    !(a.1 < b.0 || b.1 < a.0)
}

/// No two placements overlap.
pub open spec fn all_disjoint(s: Seq<MeetingTime>) -> bool {
    forall|i: int, j: int|
        0 <= i < j < s.len() ==> !overlaps((#[trigger] s[i]).time, (#[trigger] s[j]).time)
}

/// The range `t` lies entirely inside one range of `av`.
pub open spec fn placed_in(t: TimeRange, av: Seq<TimeRange>) -> bool {
    exists|i: int| 0 <= i < av.len() && (#[trigger] av[i]).0 <= t.0 && t.1 <= av[i].1
}

/// The placement schedules the meeting info: same meeting, exact duration,
/// inside the meeting's availability.
pub open spec fn placement_ok(mt: MeetingTime, info: MeetingScheduleInfo) -> bool {
    &&& mt.id@ == info.id@
    &&& wf_range(mt.time)
    &&& mt.time.1 - mt.time.0 + 1 == info.duration
    &&& placed_in(mt.time, info.availability@)
}

/// `orig` places the meetings one-to-one, in their order, and `indices`
/// holds each placement's position in its meeting's window list.
pub open spec fn placements_of(
    orig: Seq<MeetingTime>,
    ms: Seq<MeetingScheduleInfo>,
    indices: Seq<usize>,
) -> bool {
    &&& orig.len() == ms.len()
    &&& forall|k: int| 0 <= k < ms.len() ==> placement_ok(#[trigger] orig[k], ms[k])
    &&& forall|k: int|
        0 <= k < ms.len() ==> ((#[trigger] indices[k]) as int) < win(ms, k).len() && win(ms, k)[
            indices[k] as int
        ] == orig[k].time
}

/// A solver input as `meeting_availability` produces it: a positive duration
/// and a non-empty, normal availability list of stretches long enough for
/// the duration.
pub open spec fn info_wf(info: MeetingScheduleInfo) -> bool {
    &&& info.duration >= 1
    &&& is_normal(info.availability@)
    &&& info.availability@.len() > 0
    &&& forall|k: int|
        0 <= k < info.availability@.len() ==> (#[trigger] info.availability@[k]).1
            - info.availability@[k].0 + 1 >= info.duration
}

/// The availability list that meeting `m` has inside the global allowed set
/// `g`: the subtraction of its blocked times, kept where long enough.
pub open spec fn meeting_avail(m: Meeting, g: Seq<TimeRange>) -> Seq<TimeRange> {
    diff(g, m.blocked_times@).filter(long_enough(m.duration as int))
}

/// `info` is the solver's view of meeting `m` under global availability `g`.
pub open spec fn info_matches(info: MeetingScheduleInfo, m: Meeting, g: Seq<TimeRange>) -> bool {
    &&& info.id@ == m.id@
    &&& info.duration == m.duration
    &&& info.availability@ == meeting_avail(m, g)
    &&& info.availability@.len() > 0
}

/// Sequences with equal multisets keep equal multisets after mapping.
pub proof fn lemma_map_multiset<A, B>(a: Seq<A>, b: Seq<A>, f: spec_fn(A) -> B)
    requires
        a.to_multiset() == b.to_multiset(),
    ensures
        a.map_values(f).to_multiset() == b.map_values(f).to_multiset(),
    decreases a.len(),
{
    broadcast use vstd::seq_lib::group_to_multiset_ensures;
    broadcast use vstd::multiset::group_multiset_axioms;

    if a.len() == 0 {
        if b.len() > 0 {
            assert(b.contains(b[0]));
            assert(b.to_multiset().count(b[0]) > 0);
            assert(a.to_multiset().count(b[0]) > 0);
            assert(a.contains(b[0]));
            assert(false);
        }
        assert(a.map_values(f) =~= b.map_values(f));
    } else {
        let x = a[0];
        assert(a.contains(x));
        assert(a.to_multiset().count(x) > 0);
        assert(b.to_multiset().count(x) > 0);
        assert(b.contains(x));
        let j = choose|j: int| 0 <= j < b.len() && b[j] == x;
        assert(a.remove(0).to_multiset() =~= a.to_multiset().remove(x));
        assert(b.remove(j).to_multiset() =~= b.to_multiset().remove(x));
        lemma_map_multiset(a.remove(0), b.remove(j), f);
        assert(a.remove(0).map_values(f) =~= a.map_values(f).remove(0));
        assert(b.remove(j).map_values(f) =~= b.map_values(f).remove(j));
        assert(a.map_values(f).remove(0).to_multiset() =~= a.map_values(f).to_multiset().remove(
            f(x),
        ));
        assert(b.map_values(f).remove(j).to_multiset() =~= b.map_values(f).to_multiset().remove(
            f(b[j]),
        ));
        assert(a.map_values(f).contains(f(x))) by {
            assert(a.map_values(f)[0] == f(x));
        }
        assert(b.map_values(f).contains(f(x))) by {
            assert(b.map_values(f)[j] == f(b[j]));
        }
        assert(a.map_values(f).to_multiset().count(f(x)) > 0);
        assert(b.map_values(f).to_multiset().count(f(x)) > 0);
        let am = a.map_values(f).to_multiset();
        let bm = b.map_values(f).to_multiset();
        assert forall|e: B| am.count(e) == bm.count(e) by {
            assert(am.remove(f(x)).count(e) == bm.remove(f(x)).count(e));
            assert(Multiset::singleton(f(x)).count(e) == if e == f(x) { 1nat } else { 0nat });
        }
        assert(am =~= bm);
    }
}

/// Filtering a normal sequence keeps it normal.
pub proof fn lemma_filter_normal(s: Seq<TimeRange>, pred: spec_fn(TimeRange) -> bool)
    requires
        is_normal(s),
    ensures
        is_normal(s.filter(pred)),
        forall|k: int| 0 <= k < s.filter(pred).len() ==> s.contains(#[trigger] s.filter(pred)[k]),
    decreases s.len(),
{
    reveal(Seq::filter);
    if s.len() > 0 {
        let front = s.drop_last();
        assert(is_normal(front)) by {
            assert(forall|k: int| 0 <= k < front.len() ==> front[k] == s[k]);
        }
        lemma_filter_normal(front, pred);
        let ff = front.filter(pred);
        if pred(s.last()) {
            assert(s.filter(pred) == ff.push(s.last()));
            if ff.len() > 0 {
                let last_kept = ff[ff.len() - 1];
                assert(front.contains(last_kept));
                let k = choose|k: int| 0 <= k < front.len() && front[k] == last_kept;
                lemma_normal_gap(s, k, s.len() - 1);
            }
            assert forall|k: int| 0 <= k < s.filter(pred).len() implies s.contains(
                #[trigger] s.filter(pred)[k],
            ) by {
                if k < ff.len() {
                    assert(front.contains(ff[k]));
                    let u = choose|u: int| 0 <= u < front.len() && front[u] == ff[k];
                    assert(s[u] == ff[k]);
                } else {
                    assert(s.filter(pred)[k] == s[s.len() - 1]);
                }
            }
            assert(is_normal(s.filter(pred))) by {
                let t = s.filter(pred);
                assert(forall|u: int| 0 <= u < t.len() - 1 ==> t[u] == ff[u]);
                assert(t.len() > 0 && t[t.len() - 1] == s.last());
            }
        } else {
            assert(s.filter(pred) == ff);
            assert forall|k: int| 0 <= k < s.filter(pred).len() implies s.contains(
                #[trigger] s.filter(pred)[k],
            ) by {
                assert(front.contains(ff[k]));
                let u = choose|u: int| 0 <= u < front.len() && front[u] == ff[k];
                assert(s[u] == ff[k]);
            }
        }
    }
}

/// The durations of the infos, summed exactly.
pub open spec fn durations_sum(infos: Seq<MeetingScheduleInfo>) -> int
    decreases infos.len(),
{
    if infos.len() == 0 {
        0
    } else {
        durations_sum(infos.drop_last()) + infos.last().duration
    }
}

/// The availability ranges of all infos, one list after the other.
pub open spec fn all_avail(infos: Seq<MeetingScheduleInfo>) -> Seq<TimeRange>
    decreases infos.len(),
{
    if infos.len() == 0 {
        Seq::empty()
    } else {
        all_avail(infos.drop_last()) + infos.last().availability@
    }
}

/// The pigeons: total duration asked for, saturated at the grid maximum.
pub open spec fn pigeons_of(infos: Seq<MeetingScheduleInfo>) -> int {
    if durations_sum(infos) > u32::MAX {
        u32::MAX as int
    } else {
        durations_sum(infos)
    }
}

/// The holes: units of the merged union of every meeting's availability.
pub open spec fn holes_of(infos: Seq<MeetingScheduleInfo>) -> int {
    units(crate::time::merged(all_avail(infos)))
}

/// Every availability range gathered from well-formed infos is well formed.
proof fn lemma_all_avail_wf(infos: Seq<MeetingScheduleInfo>, k: int)
    requires
        forall|i: int| 0 <= i < infos.len() ==> info_wf(#[trigger] infos[i]),
        0 <= k < all_avail(infos).len(),
    ensures
        wf_range(all_avail(infos)[k]),
    decreases infos.len(),
{
    if infos.len() > 0 {
        let front = all_avail(infos.drop_last());
        if k < front.len() {
            assert(forall|i: int|
                0 <= i < infos.drop_last().len() ==> info_wf(#[trigger] infos.drop_last()[i]));
            lemma_all_avail_wf(infos.drop_last(), k);
        } else {
            assert(all_avail(infos)[k] == infos.last().availability@[k - front.len()]);
            assert(info_wf(infos[infos.len() - 1]));
        }
    }
}

/// Checks the pigeonhole bound: more total duration than free units is an
/// authoritative proof of infeasibility. A unit count too large for the grid
/// type counts as unbounded holes, which always passes.
#[verifier::rlimit(50)]
pub fn pigeon_check(schedule: &Vec<MeetingScheduleInfo>) -> (r: Option<ValidationError>)
    requires
        forall|i: int| 0 <= i < schedule@.len() ==> info_wf(#[trigger] schedule@[i]),
    ensures
        match r {
            Some(e) => e matches ValidationError::PigeonholeError { pigeons, pigeon_holes }
                && holes_of(schedule@) <= u32::MAX && pigeon_holes as int == holes_of(schedule@)
                && pigeons as int == pigeons_of(schedule@) && pigeons > pigeon_holes,
            None => holes_of(schedule@) > u32::MAX || pigeons_of(schedule@) <= holes_of(
                schedule@,
            ),
        },
{
    let ghost infos = schedule@;
    let mut pigeons: u32 = 0;
    let mut i: usize = 0;
    while i < schedule.len()
        invariant
            i <= infos.len(),
            schedule@ == infos,
            pigeons as int == if durations_sum(infos.take(i as int)) > u32::MAX {
                u32::MAX as int
            } else {
                durations_sum(infos.take(i as int))
            },
        decreases infos.len() - i,
    {
        let d = schedule[i].duration;
        proof {
            assert(infos.take(i as int + 1).drop_last() =~= infos.take(i as int));
            assert(infos.take(i as int + 1).last() == infos[i as int]);
        }
        if pigeons as u64 + d as u64 > u32::MAX as u64 {
            pigeons = u32::MAX;
        } else {
            pigeons = pigeons + d;
        }
        i += 1;
    }
    let mut avail: Vec<TimeRange> = Vec::new();
    let mut j: usize = 0;
    while j < schedule.len()
        invariant
            j <= infos.len(),
            schedule@ == infos,
            avail@ == all_avail(infos.take(j as int)),
        decreases infos.len() - j,
    {
        let list = &schedule[j].availability;
        let mut k: usize = 0;
        while k < list.len()
            invariant
                k <= list@.len(),
                j < infos.len(),
                list@ == infos[j as int].availability@,
                avail@ == all_avail(infos.take(j as int)) + list@.take(k as int),
            decreases list@.len() - k,
        {
            avail.push(list[k]);
            proof {
                assert(list@.take(k as int + 1) =~= list@.take(k as int).push(list@[k as int]));
                assert(all_avail(infos.take(j as int)) + list@.take(k as int + 1) =~= (all_avail(
                    infos.take(j as int),
                ) + list@.take(k as int)).push(list@[k as int]));
            }
            k += 1;
        }
        proof {
            assert(infos.take(j as int + 1).drop_last() =~= infos.take(j as int));
            assert(infos.take(j as int + 1).last() == infos[j as int]);
            assert(list@.take(list@.len() as int) =~= list@);
        }
        j += 1;
    }
    proof {
        assert(infos.take(infos.len() as int) =~= infos);
        assert(infos.take(schedule@.len() as int) == infos);
        assert forall|k: int| 0 <= k < avail@.len() implies wf_range(#[trigger] avail@[k]) by {
            lemma_all_avail_wf(infos, k);
        }
    }
    let merged_avail = crate::time::time_merge(&avail);
    proof {
        assert(crate::time::is_normal(merged_avail@));
    }
    let holes = crate::time::count_units(&merged_avail);
    match holes {
        None => None,
        Some(h) => {
            if pigeons > h {
                Some(ValidationError::PigeonholeError { pigeons, pigeon_holes: h })
            } else {
                None
            }
        },
    }
}

/// The candidate windows of the `k`-th solver input.
pub open spec fn win(ms: Seq<MeetingScheduleInfo>, k: int) -> Seq<TimeRange> {
    windows_of(ms[k].availability@, ms[k].duration as int)
}

/// `a` picks one candidate window per meeting so that no two picks overlap:
/// a feasible assignment, written as window indices.
pub open spec fn feasible(a: Seq<int>, ms: Seq<MeetingScheduleInfo>) -> bool {
    &&& a.len() == ms.len()
    &&& forall|k: int| 0 <= k < ms.len() ==> 0 <= (#[trigger] a[k]) < win(ms, k).len()
    &&& forall|i: int, j: int|
        #![trigger win(ms, i)[a[i]], win(ms, j)[a[j]]]
        0 <= i < j < ms.len() ==> !overlaps(win(ms, i)[a[i]], win(ms, j)[a[j]])
}

/// The assignment agrees with the solver's cursors on the first `k` slots.
pub open spec fn prefix_matches(a: Seq<int>, st: Seq<usize>, k: int) -> bool {
    forall|j: int| 0 <= j < k ==> a[j] == (#[trigger] st[j]) as int
}

/// Candidate `u` of the window list `ws` collides with something already
/// placed in `sol`.
pub open spec fn blocked_candidate(sol: Seq<MeetingTime>, ws: Seq<TimeRange>, u: int) -> bool {
    exists|k: int| 0 <= k < sol.len() && overlaps((#[trigger] sol[k]).time, ws[u])
}

/// A well-formed solver input always has at least one candidate window, so
/// exhausting a search over it takes at least one bumped cursor: together
/// with the solver's budget clause, a budget of one can never be blamed as
/// `NoSolution`.
pub proof fn lemma_info_has_candidates(info: MeetingScheduleInfo)
    requires
        info_wf(info),
    ensures
        windows_of(info.availability@, info.duration as int).len() >= 1,
{
    let av = info.availability@;
    let d = info.duration as int;
    assert(windows_of(av, d) == crate::time::range_windows(av[0], d) + windows_of(
        av.drop_first(),
        d,
    ));
    assert(av[0].1 - av[0].0 + 1 >= d);
    assert(crate::time::range_windows(av[0], d).len() == av[0].1 - av[0].0 + 2 - d);
}

/// Any family of non-overlapping placements on the meetings' own windows
/// yields a feasible assignment, so "no feasible assignment" rules out
/// placements altogether.
pub proof fn lemma_placements_are_assignments(mt: Seq<MeetingTime>, ms: Seq<MeetingScheduleInfo>)
    requires
        mt.len() == ms.len(),
        forall|k: int| 0 <= k < ms.len() ==> info_wf(#[trigger] ms[k]),
        forall|k: int| 0 <= k < ms.len() ==> placement_ok(#[trigger] mt[k], ms[k]),
        all_disjoint(mt),
    ensures
        exists|a: Seq<int>| feasible(a, ms),
{
    let a = Seq::new(
        ms.len(),
        |k: int| choose|c: int| 0 <= c < win(ms, k).len() && win(ms, k)[c] == mt[k].time,
    );
    assert forall|k: int| 0 <= k < ms.len() implies 0 <= (#[trigger] a[k]) < win(ms, k).len()
        && win(ms, k)[a[k]] == mt[k].time by {
        crate::time::lemma_window_membership(
            ms[k].availability@,
            ms[k].duration as int,
            mt[k].time,
        );
        assert(placed_in(mt[k].time, ms[k].availability@));
        let i = choose|i: int|
            0 <= i < ms[k].availability@.len() && (#[trigger] ms[k].availability@[i]).0
                <= mt[k].time.0 && mt[k].time.1 <= ms[k].availability@[i].1;
        assert(win(ms, k).contains(mt[k].time));
        let c0 = choose|c0: int| 0 <= c0 < win(ms, k).len() && win(ms, k)[c0] == mt[k].time;
        assert(0 <= c0 < win(ms, k).len() && win(ms, k)[c0] == mt[k].time);
    }
    assert(feasible(a, ms));
}

/// The number of cursor vectors whose digit `k` stays at most `ws[k]`: the
/// product of the per-slot bounds plus one. The search never revisits a
/// cursor vector, so this bounds how long it can run.
pub open spec fn cursor_space(ws: Seq<int>) -> int
    decreases ws.len(),
{
    if ws.len() == 0 {
        1
    } else {
        (ws[0] + 1) * cursor_space(ws.drop_first())
    }
}

/// The cursor vector read as a mixed-radix number with digit bounds `ws`:
/// how far the search has moved through its candidate space. Every
/// backtrack strictly increases it.
pub open spec fn cursor_value(st: Seq<usize>, ws: Seq<int>) -> int
    decreases st.len(),
{
    if st.len() == 0 || ws.len() == 0 {
        0
    } else {
        st[0] * cursor_space(ws.drop_first()) + cursor_value(st.drop_first(), ws.drop_first())
    }
}

/// Every cursor within its slot's bound.
pub open spec fn cursors_bounded(st: Seq<usize>, ws: Seq<int>) -> bool {
    st.len() == ws.len() && forall|k: int|
        0 <= k < st.len() ==> 0 <= #[trigger] ws[k] && st[k] <= ws[k]
}

proof fn lemma_space_pos(ws: Seq<int>)
    requires
        forall|k: int| 0 <= k < ws.len() ==> 0 <= #[trigger] ws[k],
    ensures
        cursor_space(ws) >= 1,
    decreases ws.len(),
{
    if ws.len() > 0 {
        let w2 = ws.drop_first();
        assert forall|k: int| 0 <= k < w2.len() implies 0 <= #[trigger] w2[k] by {
            assert(w2[k] == ws[k + 1]);
        }
        lemma_space_pos(w2);
        assert((ws[0] + 1) * cursor_space(w2) >= 1) by (nonlinear_arith)
            requires
                ws[0] + 1 >= 1,
                cursor_space(w2) >= 1,
        ;
    }
}

/// A bounded cursor vector's value lies inside the cursor space.
proof fn lemma_value_bounds(st: Seq<usize>, ws: Seq<int>)
    requires
        cursors_bounded(st, ws),
    ensures
        0 <= cursor_value(st, ws) < cursor_space(ws),
    decreases st.len(),
{
    if st.len() == 0 {
        assert(cursor_space(ws) == 1);
    } else {
        let t = st.drop_first();
        let w2 = ws.drop_first();
        assert(cursors_bounded(t, w2)) by {
            assert forall|k: int| 0 <= k < t.len() implies 0 <= #[trigger] w2[k] && t[k]
                <= w2[k] by {
                assert(t[k] == st[k + 1] && w2[k] == ws[k + 1]);
            }
        }
        lemma_value_bounds(t, w2);
        lemma_space_pos(w2);
        let s = cursor_space(w2);
        assert(st[0] * s >= 0 && st[0] * s + cursor_value(t, w2) < (ws[0] + 1) * s)
            by (nonlinear_arith)
            requires
                0 <= st[0] <= ws[0],
                0 <= cursor_value(t, w2) < s,
                s >= 1,
        ;
    }
}

/// Raising one cursor while the cursors before it stand still raises the
/// mixed-radix value, whatever happens to the cursors after it.
proof fn lemma_value_increases(st1: Seq<usize>, st2: Seq<usize>, ws: Seq<int>, p: int)
    requires
        cursors_bounded(st1, ws),
        cursors_bounded(st2, ws),
        0 <= p < st1.len(),
        forall|j: int| 0 <= j < p ==> st1[j] == st2[j],
        st2[p] > st1[p],
    ensures
        cursor_value(st2, ws) > cursor_value(st1, ws),
    decreases p,
{
    let t1 = st1.drop_first();
    let t2 = st2.drop_first();
    let w2 = ws.drop_first();
    assert(cursors_bounded(t1, w2) && cursors_bounded(t2, w2)) by {
        assert forall|k: int| 0 <= k < t1.len() implies 0 <= #[trigger] w2[k] && t1[k] <= w2[k]
            && t2[k] <= w2[k] by {
            assert(t1[k] == st1[k + 1] && t2[k] == st2[k + 1] && w2[k] == ws[k + 1]);
        }
    }
    if p == 0 {
        lemma_value_bounds(t1, w2);
        lemma_value_bounds(t2, w2);
        lemma_space_pos(w2);
        let s = cursor_space(w2);
        assert(st2[0] * s + cursor_value(t2, w2) > st1[0] * s + cursor_value(t1, w2))
            by (nonlinear_arith)
            requires
                st2[0] >= st1[0] + 1,
                s >= 1,
                0 <= cursor_value(t1, w2) < s,
                cursor_value(t2, w2) >= 0,
                st1[0] >= 0,
        ;
    } else {
        assert(st1[0] == st2[0]);
        assert forall|j: int| 0 <= j < p - 1 implies t1[j] == t2[j] by {
            assert(t1[j] == st1[j + 1] && t2[j] == st2[j + 1]);
        }
        assert(t2[p - 1] == st2[p] && t1[p - 1] == st1[p]);
        lemma_value_increases(t1, t2, w2, p - 1);
    }
}

/// Sorts pairwise-disjoint placements ascending by start time, keeping the
/// same placements; in the result every placement ends before the next one
/// starts, the order the original ordered map materialized.
fn sort_results(xs: Vec<MeetingTime>) -> (r: Vec<MeetingTime>)
    requires
        all_disjoint(xs@),
        forall|k: int| 0 <= k < xs@.len() ==> wf_range((#[trigger] xs@[k]).time),
    ensures
        r@.to_multiset() == xs@.to_multiset(),
        r@.len() == xs@.len(),
        forall|i: int, j: int|
            0 <= i < j < r@.len() ==> (#[trigger] r@[i]).time.1 < (#[trigger] r@[j]).time.0,
{
    broadcast use vstd::seq_lib::group_to_multiset_ensures;
    broadcast use vstd::multiset::group_multiset_axioms;

    let ghost orig = xs@;
    let mut rest = xs;
    let mut out: Vec<MeetingTime> = Vec::new();
    while rest.len() > 0
        invariant
            forall|k: int| 0 <= k < rest@.len() ==> wf_range((#[trigger] rest@[k]).time),
            forall|k: int| 0 <= k < out@.len() ==> wf_range((#[trigger] out@[k]).time),
            out@.to_multiset().add(rest@.to_multiset()) == orig.to_multiset(),
            out@.len() + rest@.len() == orig.len(),
            forall|i: int, j: int|
                0 <= i < j < rest@.len() ==> !overlaps(
                    (#[trigger] rest@[i]).time,
                    (#[trigger] rest@[j]).time,
                ),
            forall|i: int, j: int|
                0 <= i < j < out@.len() ==> (#[trigger] out@[i]).time.1 < (
                #[trigger] out@[j]).time.0,
            forall|u: int, v: int|
                0 <= u < out@.len() && 0 <= v < rest@.len() ==> (#[trigger] out@[u]).time.1 < (
                #[trigger] rest@[v]).time.0,
        decreases rest@.len(),
    {
        let mut mi: usize = 0;
        let mut t: usize = 1;
        while t < rest.len()
            invariant
                rest@.len() > 0,
                mi < t <= rest@.len() || (mi == 0 && t <= rest@.len()),
                mi < rest@.len(),
                forall|k: int|
                    0 <= k < t ==> rest@[mi as int].time.0 <= (#[trigger] rest@[k]).time.0,
            decreases rest@.len() - t,
        {
            if rest[t].time.0 < rest[mi].time.0 {
                mi = t;
            }
            t += 1;
        }
        let ghost prev_rest = rest@;
        let ghost prev_out = out@;
        let x = rest.remove(mi);
        out.push(x);
        proof {
            broadcast use vstd::seq_lib::group_to_multiset_ensures;
            broadcast use vstd::multiset::group_multiset_axioms;

            prev_rest.remove_ensures(mi as int);
            vstd::seq_lib::to_multiset_remove(prev_rest, mi as int);
            vstd::seq_lib::to_multiset_build(prev_out, x);
            assert(prev_rest.contains(x)) by {
                assert(prev_rest[mi as int] == x);
            }
            assert forall|e: MeetingTime|
                out@.to_multiset().add(rest@.to_multiset()).count(e) == orig.to_multiset().count(
                    e,
                ) by {
                assert(Multiset::singleton(x).count(e) == if e == x {
                    1nat
                } else {
                    0nat
                });
            }
            assert(out@.to_multiset().add(rest@.to_multiset()) =~= orig.to_multiset());
            // The extracted minimum ends before everything left behind.
            assert forall|v: int| 0 <= v < rest@.len() implies x.time.1 < (
            #[trigger] rest@[v]).time.0 by {
                let w = if v < mi {
                    v
                } else {
                    v + 1
                };
                assert(rest@[v] == prev_rest[w]);
                assert(x.time.0 <= prev_rest[w].time.0);
                assert(!overlaps(x.time, prev_rest[w].time));
            }
            assert forall|u: int, v: int|
                0 <= u < out@.len() && 0 <= v < rest@.len() implies (
            #[trigger] out@[u]).time.1 < (#[trigger] rest@[v]).time.0 by {
                if u < out@.len() - 1 {
                    assert(out@[u] == prev_out[u]);
                    let w = if v < mi {
                        v
                    } else {
                        v + 1
                    };
                    assert(rest@[v] == prev_rest[w]);
                }
            }
        }
    }
    out
}

/// After a successful extension at slot `p` with choice `c`, every feasible
/// assignment still sits at or above the cursors: each candidate the scan
/// skipped collided with a placement the assignment must reproduce.
proof fn lemma_cursor_floor_extend(
    ms: Seq<MeetingScheduleInfo>,
    wv: Seq<Vec<TimeRange>>,
    st_old: Seq<usize>,
    st_new: Seq<usize>,
    sol_old: Seq<MeetingTime>,
    p: int,
    c: usize,
)
    requires
        wv.len() == ms.len(),
        0 <= p < ms.len(),
        ms.len() <= st_old.len(),
        st_new.len() == st_old.len(),
        forall|k: int| 0 <= k < st_old.len() && k != p ==> #[trigger] st_new[k] == st_old[k],
        st_new[p] == c,
        st_old[p] <= c,
        sol_old.len() == p,
        forall|k: int| 0 <= k < ms.len() ==> (#[trigger] wv[k])@ == win(ms, k),
        forall|k: int|
            0 <= k < p ==> (#[trigger] st_old[k]) < wv[k]@.len() && wv[k]@[st_old[k] as int]
                == sol_old[k].time,
        forall|k: int, a: Seq<int>|
            #![trigger prefix_matches(a, st_old, k)]
            0 <= k <= p && k < ms.len() && feasible(a, ms) && prefix_matches(a, st_old, k)
                ==> a[k] >= st_old[k],
        forall|k: int| p < k < ms.len() ==> (#[trigger] st_old[k]) == 0,
        forall|u: int|
            st_old[p] as int <= u < c as int ==> #[trigger] blocked_candidate(
                sol_old,
                wv[p]@,
                u,
            ),
    ensures
        forall|k: int, a: Seq<int>|
            #![trigger prefix_matches(a, st_new, k)]
            0 <= k <= p + 1 && k < ms.len() && feasible(a, ms) && prefix_matches(a, st_new, k)
                ==> a[k] >= st_new[k],
{
    assert forall|k: int, a: Seq<int>|
        #![trigger prefix_matches(a, st_new, k)]
        0 <= k <= p + 1 && k < ms.len() && feasible(a, ms) && prefix_matches(
            a,
            st_new,
            k,
        ) implies a[k] >= st_new[k] by {
        if k < p {
            assert(prefix_matches(a, st_old, k)) by {
                assert(forall|j: int| 0 <= j < k ==> st_new[j] == (#[trigger] st_old[j]));
            }
            assert(a[k] >= st_old[k]);
            assert(st_new[k] == st_old[k]);
        } else if k == p {
            assert(prefix_matches(a, st_old, k)) by {
                assert(forall|j: int| 0 <= j < k ==> st_new[j] == (#[trigger] st_old[j]));
            }
            assert(a[k] >= st_old[p]);
            if a[k] < c {
                let u = a[k];
                assert(blocked_candidate(sol_old, wv[p]@, u));
                let j = choose|j: int|
                    0 <= j < sol_old.len() && overlaps((#[trigger] sol_old[j]).time, wv[p]@[u]);
                assert(sol_old[j].time == wv[j]@[st_old[j] as int]);
                assert(a[j] == st_old[j]);
                assert(wv[j]@ == win(ms, j));
                assert(wv[p]@ == win(ms, p));
                assert(!overlaps(win(ms, j)[a[j]], win(ms, p)[a[p]]));
                assert(false);
            }
        } else {
            assert(k == p + 1);
            assert(st_new[k] == st_old[k]);
            assert(st_old[k] == 0);
        }
    }
}

/// After an exhausted slot `p` forces a backtrack that raises slot `p - 1`,
/// every feasible assignment matching the shorter prefix sits strictly above
/// the old cursor there: staying put would extend the dead prefix, whose
/// every remaining candidate collided with a placement the assignment must
/// reproduce.
proof fn lemma_cursor_floor_backtrack(
    ms: Seq<MeetingScheduleInfo>,
    wv: Seq<Vec<TimeRange>>,
    st_old: Seq<usize>,
    st_new: Seq<usize>,
    sol_old: Seq<MeetingTime>,
    p: int,
    idx: int,
)
    requires
        wv.len() == ms.len(),
        1 <= p < ms.len(),
        ms.len() <= st_old.len(),
        st_new.len() == st_old.len(),
        forall|k: int|
            0 <= k < st_old.len() && k != p && k != p - 1 ==> #[trigger] st_new[k] == st_old[k],
        st_new[p] == 0,
        st_new[p - 1] as int == st_old[p - 1] as int + 1,
        sol_old.len() == p,
        forall|k: int| 0 <= k < ms.len() ==> (#[trigger] wv[k])@ == win(ms, k),
        forall|k: int|
            0 <= k < p ==> (#[trigger] st_old[k]) < wv[k]@.len() && wv[k]@[st_old[k] as int]
                == sol_old[k].time,
        forall|k: int, a: Seq<int>|
            #![trigger prefix_matches(a, st_old, k)]
            0 <= k <= p && k < ms.len() && feasible(a, ms) && prefix_matches(a, st_old, k)
                ==> a[k] >= st_old[k],
        forall|k: int| p < k < ms.len() ==> (#[trigger] st_old[k]) == 0,
        idx >= wv[p]@.len(),
        forall|u: int|
            st_old[p] as int <= u < idx ==> #[trigger] blocked_candidate(sol_old, wv[p]@, u),
    ensures
        forall|k: int, a: Seq<int>|
            #![trigger prefix_matches(a, st_new, k)]
            0 <= k <= p - 1 && k < ms.len() && feasible(a, ms) && prefix_matches(a, st_new, k)
                ==> a[k] >= st_new[k],
{
    assert forall|k: int, a: Seq<int>|
        #![trigger prefix_matches(a, st_new, k)]
        0 <= k <= p - 1 && k < ms.len() && feasible(a, ms) && prefix_matches(
            a,
            st_new,
            k,
        ) implies a[k] >= st_new[k] by {
        assert(prefix_matches(a, st_old, k)) by {
            assert(forall|j: int| 0 <= j < k ==> st_new[j] == (#[trigger] st_old[j]));
        }
        assert(a[k] >= st_old[k]);
        if k < p - 1 {
            assert(st_new[k] == st_old[k]);
        } else {
            assert(k == p - 1);
            if a[k] == st_old[k] {
                assert(prefix_matches(a, st_old, p)) by {
                    assert(forall|j: int| 0 <= j < p ==> a[j] == (#[trigger] st_old[j]) as int);
                }
                assert(a[p] >= st_old[p]);
                assert(wv[p]@ == win(ms, p));
                assert(0 <= a[p] < win(ms, p).len());
                assert(st_old[p] as int <= a[p] < idx);
                assert(blocked_candidate(sol_old, wv[p]@, a[p]));
                let j = choose|j: int|
                    0 <= j < sol_old.len() && overlaps(
                        (#[trigger] sol_old[j]).time,
                        wv[p]@[a[p]],
                    );
                assert(sol_old[j].time == wv[j]@[st_old[j] as int]);
                assert(a[j] == st_old[j]);
                assert(wv[j]@ == win(ms, j));
                assert(!overlaps(win(ms, j)[a[j]], win(ms, p)[a[p]]));
                assert(false);
            }
        }
    }
}

/// Does the candidate window collide with any placement already made?
fn overlaps_any(sol: &Vec<MeetingTime>, t: TimeRange) -> (r: bool)
    ensures
        r == exists|k: int| 0 <= k < sol@.len() && overlaps((#[trigger] sol@[k]).time, t),
{
    let mut k: usize = 0;
    while k < sol.len()
        invariant
            k <= sol@.len(),
            forall|u: int| 0 <= u < k ==> !overlaps((#[trigger] sol@[u]).time, t),
        decreases sol@.len() - k,
    {
        let placed = sol[k].time;
        if !(placed.1 < t.0 || t.1 < placed.0) {
            assert(overlaps(sol@[k as int].time, t));
            return true;
        }
        k += 1;
    }
    false
}

/// Depth-first backtracking search. Meetings are taken in the order given;
/// each holds a cursor into its candidate windows, and backtracking advances
/// the previous meeting's cursor. `count` bounds the number of search
/// iterations; `len` is the size of the original meeting list, used to size
/// the cursor vector.
///
/// Without a budget the search still terminates: every backtrack strictly
/// raises the cursors' mixed-radix value, which the finite candidate space
/// bounds, so the budget error can only arise from a given budget. An
/// exhausted search is authoritative: no feasible assignment exists at all.
///
/// On success every meeting in the list is placed: the `k`-th result places
/// the `k`-th meeting on a window of its own availability, no two
/// placements overlap, the final cursors point at the returned windows, and
/// the reported iteration count (saturating at its type's maximum) stays
/// within any given budget.
#[verifier::rlimit(100)]
#[verifier::spinoff_prover]
pub fn schedule_setup(
    len: usize,
    meetings: &Vec<MeetingScheduleInfo>,
    count: Option<usize>,
) -> (r: Result<ScheduleResult, ValidationError>)
    requires
        meetings@.len() <= len,
        forall|i: int| 0 <= i < meetings@.len() ==> info_wf(#[trigger] meetings@[i]),
    ensures
        match r {
            Ok(s) => {
                &&& s.results@.len() == meetings@.len()
                &&& forall|i: int, j: int|
                    0 <= i < j < s.results@.len() ==> (#[trigger] s.results@[i]).time.1 < (
                    #[trigger] s.results@[j]).time.0
                &&& all_disjoint(s.results@)
                &&& exists|orig: Seq<MeetingTime>|
                    #[trigger] placements_of(orig, meetings@, s.indices@)
                        && s.results@.to_multiset() == orig.to_multiset()
                &&& s.indices@.len() == len
                &&& s.count >= 1
                &&& (count matches Some(l) ==> s.count <= l)
            },
            Err(e) => {
                &&& (e is NoSolution || e is NoSolutionWithinIteration)
                &&& (e matches ValidationError::NoSolutionWithinIteration(b) ==> count == Some(b))
                &&& (e is NoSolution ==> forall|a: Seq<int>| !feasible(a, meetings@))
                &&& (e is NoSolution ==> (count matches Some(l) ==> meetings@.len() >= 1 && l
                    > win(meetings@, 0).len()))
            },
        },
{
    let m = meetings.len();
    let mut windows: Vec<Vec<TimeRange>> = Vec::new();
    let mut wi: usize = 0;
    while wi < m
        invariant
            wi <= m,
            m == meetings@.len(),
            forall|i: int| 0 <= i < meetings@.len() ==> info_wf(#[trigger] meetings@[i]),
            windows@.len() == wi,
            forall|k: int|
                0 <= k < wi ==> (#[trigger] windows@[k])@ == windows_of(
                    meetings@[k].availability@,
                    meetings@[k].duration as int,
                ),
        decreases m - wi,
    {
        let w = windowed(&meetings[wi].availability, meetings[wi].duration);
        windows.push(w);
        wi += 1;
    }
    let ghost ws = Seq::new(m as nat, |k: int| windows@[k]@.len() as int);
    let mut state: Vec<usize> = Vec::new();
    let mut si: usize = 0;
    while si < len
        invariant
            si <= len,
            state@.len() == si,
            forall|k: int| 0 <= k < si ==> state@[k] == 0,
        decreases len - si,
    {
        state.push(0);
        si += 1;
    }
    let mut placed: usize = 0;
    let mut solution: Vec<MeetingTime> = Vec::new();
    let mut count_iter: usize = 0;
    loop
        invariant
            count matches Some(l) ==> count_iter <= l,
            m == meetings@.len(),
            m <= len,
            forall|i: int| 0 <= i < meetings@.len() ==> info_wf(#[trigger] meetings@[i]),
            windows@.len() == m,
            forall|k: int|
                0 <= k < m ==> (#[trigger] windows@[k])@ == windows_of(
                    meetings@[k].availability@,
                    meetings@[k].duration as int,
                ),
            state@.len() == len,
            placed <= m,
            solution@.len() == placed,
            forall|k: int| 0 <= k < placed ==> placement_ok(#[trigger] solution@[k], meetings@[k]),
            all_disjoint(solution@),
            forall|k: int|
                0 <= k < placed ==> (#[trigger] state@[k]) < windows@[k]@.len() && windows@[k]@[
                    state@[k] as int
                ] == solution@[k].time,
            forall|k: int| placed < k < m ==> (#[trigger] state@[k]) == 0,
            forall|k: int, a: Seq<int>|
                #![trigger prefix_matches(a, state@, k)]
                0 <= k <= placed && k < m && feasible(a, meetings@) && prefix_matches(
                    a,
                    state@,
                    k,
                ) ==> a[k] >= state@[k],
            ws == Seq::new(m as nat, |k: int| windows@[k]@.len() as int),
            cursors_bounded(state@.take(m as int), ws),
            m >= 1 && count is Some ==> count_iter >= state@[0],
        decreases cursor_space(ws) - cursor_value(state@.take(m as int), ws),
    {
        proof {
            lemma_value_bounds(state@.take(m as int), ws);
        }
        if let Some(budget) = count {
            if budget == count_iter {
                return Err(ValidationError::NoSolutionWithinIteration(budget));
            }
        }
        proof {
            if count is Some {
                assert(count_iter < usize::MAX);
            }
        }
        if count_iter < usize::MAX {
            count_iter += 1;
        }
        let ghost st_top = state@;
        let mut failed = false;
        while placed < m && !failed
            invariant
                m == meetings@.len(),
                m <= len,
                forall|i: int| 0 <= i < meetings@.len() ==> info_wf(#[trigger] meetings@[i]),
                windows@.len() == m,
                forall|k: int|
                    0 <= k < m ==> (#[trigger] windows@[k])@ == windows_of(
                        meetings@[k].availability@,
                        meetings@[k].duration as int,
                    ),
                state@.len() == len,
                placed <= m,
                solution@.len() == placed,
                forall|k: int|
                    0 <= k < placed ==> placement_ok(#[trigger] solution@[k], meetings@[k]),
                all_disjoint(solution@),
                forall|k: int|
                    0 <= k < placed ==> (#[trigger] state@[k]) < windows@[k]@.len()
                        && windows@[k]@[state@[k] as int] == solution@[k].time,
                forall|k: int| placed < k < m ==> (#[trigger] state@[k]) == 0,
                forall|k: int, a: Seq<int>|
                    #![trigger prefix_matches(a, state@, k)]
                    0 <= k <= placed && k < m && feasible(a, meetings@) && prefix_matches(
                        a,
                        state@,
                        k,
                    ) ==> a[k] >= state@[k],
                ws == Seq::new(m as nat, |k: int| windows@[k]@.len() as int),
                cursors_bounded(state@.take(m as int), ws),
                count matches Some(l2) ==> count_iter <= l2,
                m >= 1 && count is Some ==> count_iter as int >= state@[0] as int + (if failed {
                    0int
                } else {
                    1int
                }),
                !failed ==> cursor_value(state@.take(m as int), ws) >= cursor_value(
                    st_top.take(m as int),
                    ws,
                ),
                failed ==> cursor_value(state@.take(m as int), ws) > cursor_value(
                    st_top.take(m as int),
                    ws,
                ),
                cursors_bounded(st_top.take(m as int), ws),
            decreases (if failed { 0int } else { 1int }), m - placed,
        {
            let wlen = windows[placed].len();
            let mut idx: usize = state[placed];
            let ghost start0 = idx as int;
            let mut chosen: Option<usize> = None;
            while idx < wlen && chosen.is_none()
                invariant
                    placed < m,
                    m == meetings@.len(),
                    windows@.len() == m,
                    wlen == windows@[placed as int]@.len(),
                    start0 <= idx as int,
                    chosen matches Some(c) ==> 0 <= c < wlen && !(exists|k: int|
                        0 <= k < solution@.len() && overlaps(
                            (#[trigger] solution@[k]).time,
                            windows@[placed as int]@[c as int],
                        )),
                    chosen matches Some(c) ==> c == idx,
                    solution@.len() == 0 && chosen is None ==> idx as int == start0,
                    (chosen matches Some(c2) ==> solution@.len() == 0 ==> c2 as int == start0),
                    forall|u: int|
                        start0 <= u < idx as int ==> #[trigger] blocked_candidate(
                            solution@,
                            windows@[placed as int]@,
                            u,
                        ),
                decreases wlen - idx, (if chosen is None { 1int } else { 0int }),
            {
                let cand = windows[placed][idx];
                if !overlaps_any(&solution, cand) {
                    chosen = Some(idx);
                } else {
                    proof {
                        assert(cand == windows@[placed as int]@[idx as int]);
                        let k0 = choose|k: int|
                            0 <= k < solution@.len() && overlaps(
                                (#[trigger] solution@[k]).time,
                                cand,
                            );
                        assert(overlaps(
                            solution@[k0].time,
                            windows@[placed as int]@[idx as int],
                        ));
                        assert(blocked_candidate(
                            solution@,
                            windows@[placed as int]@,
                            idx as int,
                        ));
                    }
                    idx += 1;
                }
            }
            let ghost st_old = state@;
            let ghost sol_old = solution@;
            let ghost p_old = placed as int;
            proof {
                assert forall|u: int|
                    start0 <= u < idx as int implies #[trigger] blocked_candidate(
                        sol_old,
                        windows@[p_old]@,
                        u,
                    ) by {
                    assert(blocked_candidate(solution@, windows@[placed as int]@, u));
                }
            }
            match chosen {
                Some(c) => {
                    let time = windows[placed][c];
                    let id = meetings[placed].id.clone();
                    state.set(placed, c);
                    proof {
                        lemma_window_shape(
                            meetings@[placed as int].availability@,
                            meetings@[placed as int].duration as int,
                            c as int,
                        );
                    }
                    solution.push(MeetingTime { id, time });
                    placed += 1;
                    proof {
                        assert(st_old[p_old] == start0);
                        lemma_cursor_floor_extend(
                            meetings@,
                            windows@,
                            st_old,
                            state@,
                            sol_old,
                            p_old,
                            c,
                        );
                        let new_take = state@.take(m as int);
                        let old_take = st_old.take(m as int);
                        assert(new_take =~= old_take.update(p_old, c));
                        assert(ws[p_old] == windows@[p_old]@.len() as int);
                        assert(cursors_bounded(new_take, ws)) by {
                            assert(forall|k: int|
                                0 <= k < m && k != p_old ==> new_take[k] == #[trigger] old_take[k]);
                        }
                        if c > st_old[p_old] {
                            lemma_value_increases(old_take, new_take, ws, p_old);
                        } else {
                            assert(c == st_old[p_old]);
                            assert(new_take =~= old_take);
                        }
                        if p_old == 0 {
                            assert(sol_old.len() == 0);
                            assert(c as int == start0);
                            assert(state@[0] == st_old[0]);
                        }
                    }
                }
                None => {
                    state.set(placed, 0);
                    if placed == 0 {
                        proof {
                            assert(sol_old.len() == 0);
                            assert(idx as int == start0);
                            assert(idx >= wlen);
                            assert(start0 >= wlen as int);
                            if let Some(given) = count {
                                assert(count_iter as int >= st_old[0] as int + 1);
                                assert(st_old[0] == start0);
                                assert(count_iter as int >= wlen as int + 1);
                                assert(wlen == windows@[0]@.len());
                                assert(windows@[0]@ == win(meetings@, 0));
                                assert(count_iter <= given);
                                assert(given as int > win(meetings@, 0).len());
                            }
                            assert forall|a: Seq<int>| !feasible(a, meetings@) by {
                                if feasible(a, meetings@) {
                                    assert(prefix_matches(a, st_old, 0));
                                    assert(a[0] >= st_old[0]);
                                    assert(st_old[0] == start0);
                                    assert(windows@[0]@ == win(meetings@, 0));
                                    assert(0 <= a[0] < win(meetings@, 0).len());
                                    assert(wlen == win(meetings@, 0).len());
                                    assert(idx >= wlen);
                                    assert(start0 <= a[0] < idx as int);
                                    assert(blocked_candidate(sol_old, windows@[p_old]@, a[0]));
                                    assert(sol_old.len() == 0);
                                    assert(false);
                                }
                            }
                        }
                        return Err(ValidationError::NoSolution);
                    }
                    let prev_wlen = windows[placed - 1].len();
                    proof {
                        assert(state@[placed as int - 1] < windows@[placed as int - 1]@.len());
                    }
                    let bumped = state[placed - 1] + 1;
                    state.set(placed - 1, bumped);
                    solution.pop();
                    placed -= 1;
                    failed = true;
                    proof {
                        assert(forall|k: int|
                            0 <= k < placed ==> placement_ok(
                                #[trigger] solution@[k],
                                meetings@[k],
                            ));
                        assert(st_old[p_old] == start0);
                        assert forall|k: int, a: Seq<int>|
                            #![trigger prefix_matches(a, state@, k)]
                            0 <= k <= placed && k < m && feasible(a, meetings@) && prefix_matches(
                                a,
                                state@,
                                k,
                            ) implies a[k] >= state@[k] by {
                            if k < p_old - 1 {
                                assert(prefix_matches(a, st_old, k)) by {
                                    assert(forall|j: int|
                                        0 <= j < k ==> state@[j] == (#[trigger] st_old[j]));
                                }
                                assert(a[k] >= st_old[k]);
                                assert(state@[k] == st_old[k]);
                            } else {
                                assert(k == p_old - 1);
                                assert(prefix_matches(a, st_old, k)) by {
                                    assert(forall|j: int|
                                        0 <= j < k ==> state@[j] == (#[trigger] st_old[j]));
                                }
                                assert(a[k] >= st_old[k]);
                                if a[k] == st_old[k] {
                                    assert(prefix_matches(a, st_old, p_old)) by {
                                        assert(forall|j: int|
                                            0 <= j < p_old ==> a[j] == (#[trigger] st_old[j]) as int);
                                    }
                                    assert(a[p_old] >= st_old[p_old]);
                                    assert(windows@[p_old]@ == win(meetings@, p_old));
                                    assert(0 <= a[p_old] < win(meetings@, p_old).len());
                                    assert(wlen == win(meetings@, p_old).len());
                                    assert(idx >= wlen);
                                    assert(start0 <= a[p_old] < idx as int);
                                    assert(blocked_candidate(sol_old, windows@[p_old]@, a[p_old]));
                                    let j = choose|j: int|
                                        0 <= j < sol_old.len() && overlaps(
                                            (#[trigger] sol_old[j]).time,
                                            windows@[p_old]@[a[p_old]],
                                        );
                                    assert(sol_old[j].time == windows@[j]@[st_old[j] as int]);
                                    assert(a[j] == st_old[j]);
                                    assert(windows@[j]@ == win(meetings@, j));
                                    assert(!overlaps(
                                        win(meetings@, j)[a[j]],
                                        win(meetings@, p_old)[a[p_old]],
                                    ));
                                    assert(false);
                                }
                                assert(state@[k] == st_old[k] + 1);
                            }
                        }
                        let new_take = state@.take(m as int);
                        let old_take = st_old.take(m as int);
                        assert(new_take[p_old - 1] == st_old[p_old - 1] + 1);
                        assert(forall|j: int| 0 <= j < p_old - 1 ==> new_take[j] == #[trigger] old_take[j]);
                        assert(ws[p_old] == windows@[p_old]@.len() as int);
                        assert(ws[p_old - 1] == windows@[p_old - 1]@.len() as int);
                        assert(cursors_bounded(new_take, ws)) by {
                            assert(st_old[p_old - 1] < windows@[p_old - 1]@.len());
                            assert(forall|k: int|
                                0 <= k < m && k != p_old && k != p_old - 1 ==> new_take[k]
                                    == #[trigger] old_take[k]);
                        }
                        lemma_value_increases(old_take, new_take, ws, p_old - 1);
                        if count is Some {
                            assert(count_iter as int >= st_old[0] as int + 1);
                            if p_old == 1 {
                                assert(state@[0] == st_old[0] + 1);
                            } else {
                                assert(state@[0] == st_old[0]);
                            }
                        }
                    }
                }
            }
        }
        if !failed {
            let ghost orig = solution@;
            proof {
                assert forall|k: int| 0 <= k < solution@.len() implies wf_range(
                    (#[trigger] solution@[k]).time,
                ) by {
                    assert(placement_ok(solution@[k], meetings@[k]));
                }
            }
            let results = sort_results(solution);
            proof {
                assert forall|i: int, j: int| 0 <= i < j < results@.len() implies !overlaps(
                    (#[trigger] results@[i]).time,
                    (#[trigger] results@[j]).time,
                ) by {
                    assert(results@[i].time.1 < results@[j].time.0);
                }
            }
            let found = ScheduleResult { count: count_iter, results, indices: state };
            proof {
                assert(placements_of(orig, meetings@, found.indices@));
                assert(found.results@.to_multiset() == orig.to_multiset());
            }
            return Ok(found);
        }
        proof {
            lemma_value_bounds(state@.take(m as int), ws);
            assert(cursor_value(state@.take(m as int), ws) > cursor_value(
                st_top.take(m as int),
                ws,
            ));
        }
    }
}

/// `info` is the availability view of one of the schedule's meetings.
pub open spec fn info_from(info: MeetingScheduleInfo, s: Schedule) -> bool {
    exists|j: int|
        0 <= j < s.meetings@.len() && info_matches(info, #[trigger] s.meetings@[j], s.availability@)
}

/// `infos` is the solver input that belongs to the schedule `s`: every info
/// is some meeting's availability view, and the infos cover exactly the
/// meetings that still have room, by identifier.
pub open spec fn infos_of_schedule(infos: Seq<MeetingScheduleInfo>, s: Schedule) -> bool {
    &&& forall|k: int| 0 <= k < infos.len() ==> info_wf(#[trigger] infos[k])
    &&& forall|k: int| 0 <= k < infos.len() ==> info_from(#[trigger] infos[k], s)
    &&& infos.map_values(|i: MeetingScheduleInfo| i.id@).to_multiset() == s.meetings@.filter(
        |m: Meeting| meeting_avail(m, s.availability@).len() > 0,
    ).map_values(|m: Meeting| m.id@).to_multiset()
}

/// Being a solver input for a schedule is preserved by reordering.
pub proof fn lemma_infos_perm(a: Seq<MeetingScheduleInfo>, b: Seq<MeetingScheduleInfo>, s: Schedule)
    requires
        infos_of_schedule(a, s),
        b.to_multiset() == a.to_multiset(),
    ensures
        infos_of_schedule(b, s),
{
    broadcast use vstd::seq_lib::group_to_multiset_ensures;

    assert forall|k: int| 0 <= k < b.len() implies info_wf(#[trigger] b[k]) && info_from(
        b[k],
        s,
    ) by {
        assert(b.contains(b[k]));
        assert(b.to_multiset().count(b[k]) > 0);
        assert(a.to_multiset().count(b[k]) > 0);
        assert(a.contains(b[k]));
        let u = choose|u: int| 0 <= u < a.len() && a[u] == b[k];
        assert(info_wf(a[u]));
        assert(info_from(a[u], s));
    }
    lemma_map_multiset(b, a, |i: MeetingScheduleInfo| i.id@);
}

/// The number of start positions an info leaves its meeting, beyond the one
/// forced per range: the sort key of the most-constrained-first heuristic.
pub open spec fn slack_sum(av: Seq<TimeRange>, d: int) -> int
    decreases av.len(),
{
    if av.len() == 0 {
        0
    } else {
        slack_sum(av.drop_last(), d) + (av.last().1 - av.last().0 - (d - 1))
    }
}

/// The solver tries meetings with less slack first; ties go to the shorter
/// meeting.
pub open spec fn key_le(a: MeetingScheduleInfo, b: MeetingScheduleInfo) -> bool {
    ||| slack_sum(a.availability@, a.duration as int) < slack_sum(
        b.availability@,
        b.duration as int,
    )
    ||| (slack_sum(a.availability@, a.duration as int) == slack_sum(
        b.availability@,
        b.duration as int,
    ) && a.duration <= b.duration)
}

/// Computes the slack of one info.
fn slack_of(info: &MeetingScheduleInfo) -> (r: u128)
    requires
        info_wf(*info),
    ensures
        r as int == slack_sum(info.availability@, info.duration as int),
{
    let ghost av = info.availability@;
    let ghost d = info.duration as int;
    let mut sum: u128 = 0;
    let mut i: usize = 0;
    while i < info.availability.len()
        invariant
            i <= av.len(),
            info.availability@ == av,
            info_wf(*info),
            d == info.duration as int,
            sum as int == slack_sum(av.take(i as int), d),
            sum as int <= (i as int) * 0x1_0000_0000,
        decreases av.len() - i,
    {
        let t = info.availability[i];
        proof {
            assert(av.take(i as int + 1).drop_last() =~= av.take(i as int));
            assert(av.take(i as int + 1).last() == av[i as int]);
            assert(info.availability@[i as int].1 - info.availability@[i as int].0 + 1
                >= info.duration);
        }
        let term: u64 = (t.1 - t.0) as u64 + 1 - info.duration as u64;
        sum = sum + term as u128;
        i += 1;
    }
    proof {
        assert(av.take(av.len() as int) =~= av);
    }
    sum
}

/// Sorts solver inputs by the most-constrained-first key, keeping the same
/// collection of inputs.
fn sort_infos(xs: Vec<MeetingScheduleInfo>) -> (r: Vec<MeetingScheduleInfo>)
    requires
        forall|i: int| 0 <= i < xs@.len() ==> info_wf(#[trigger] xs@[i]),
    ensures
        r@.to_multiset() == xs@.to_multiset(),
        r@.len() == xs@.len(),
        forall|i: int, j: int| 0 <= i < j < r@.len() ==> key_le(#[trigger] r@[i], #[trigger] r@[j]),
{
    broadcast use vstd::seq_lib::group_to_multiset_ensures;
    broadcast use vstd::multiset::group_multiset_axioms;

    let ghost orig = xs@;
    let mut rest = xs;
    let mut out: Vec<MeetingScheduleInfo> = Vec::new();
    while rest.len() > 0
        invariant
            forall|k: int| 0 <= k < rest@.len() ==> info_wf(#[trigger] rest@[k]),
            forall|k: int| 0 <= k < out@.len() ==> info_wf(#[trigger] out@[k]),
            out@.to_multiset().add(rest@.to_multiset()) == orig.to_multiset(),
            out@.len() + rest@.len() == orig.len(),
            forall|u: int, v: int|
                0 <= u < v < out@.len() ==> key_le(#[trigger] out@[u], #[trigger] out@[v]),
            forall|u: int, v: int|
                0 <= u < out@.len() && 0 <= v < rest@.len() ==> key_le(
                    #[trigger] out@[u],
                    #[trigger] rest@[v],
                ),
        decreases rest@.len(),
    {
        let mut mi: usize = 0;
        let mut msl = slack_of(&rest[0]);
        let mut t: usize = 1;
        while t < rest.len()
            invariant
                rest@.len() > 0,
                forall|k: int| 0 <= k < rest@.len() ==> info_wf(#[trigger] rest@[k]),
                mi < t <= rest@.len() || (mi == 0 && t <= rest@.len()),
                mi < rest@.len(),
                msl as int == slack_sum(
                    rest@[mi as int].availability@,
                    rest@[mi as int].duration as int,
                ),
                forall|k: int| 0 <= k < t ==> key_le(rest@[mi as int], #[trigger] rest@[k]),
            decreases rest@.len() - t,
        {
            let ts = slack_of(&rest[t]);
            if ts < msl || (ts == msl && rest[t].duration < rest[mi].duration) {
                mi = t;
                msl = ts;
            }
            t += 1;
        }
        let ghost prev_rest = rest@;
        let ghost prev_out = out@;
        let x = rest.remove(mi);
        out.push(x);
        proof {
            broadcast use vstd::seq_lib::group_to_multiset_ensures;
            broadcast use vstd::multiset::group_multiset_axioms;

            prev_rest.remove_ensures(mi as int);
            vstd::seq_lib::to_multiset_remove(prev_rest, mi as int);
            vstd::seq_lib::to_multiset_build(prev_out, x);
            assert(prev_rest.remove(mi as int).to_multiset() =~= prev_rest.to_multiset().remove(
                x,
            ));
            assert(prev_out.push(x).to_multiset() =~= prev_out.to_multiset().insert(x));
            assert(prev_rest.contains(x)) by {
                assert(prev_rest[mi as int] == x);
            }
            assert(prev_rest.to_multiset().count(x) > 0);
            assert forall|e: MeetingScheduleInfo|
                out@.to_multiset().add(rest@.to_multiset()).count(e) == orig.to_multiset().count(
                    e,
                ) by {
                assert(Multiset::singleton(x).count(e) == if e == x { 1nat } else { 0nat });
            }
            assert(out@.to_multiset().add(rest@.to_multiset()) =~= orig.to_multiset());
            assert forall|u: int, v: int|
                0 <= u < out@.len() && 0 <= v < rest@.len() implies key_le(
                #[trigger] out@[u],
                #[trigger] rest@[v],
            ) by {
                if u < out@.len() - 1 {
                    assert(out@[u] == prev_out[u]);
                }
                if v < mi {
                    assert(rest@[v] == prev_rest[v]);
                } else {
                    assert(rest@[v] == prev_rest[v + 1]);
                }
            }
        }
    }
    out
}

/// Index of the first invalid meeting of the list.
pub open spec fn first_invalid_meeting(ms: Seq<Meeting>) -> int
    decreases ms.len(),
{
    if ms.len() == 0 {
        0
    } else if !ms[0].valid() {
        0
    } else {
        1 + first_invalid_meeting(ms.drop_first())
    }
}

/// A valid prefix pins the first invalid index.
proof fn lemma_first_invalid_meeting(ms: Seq<Meeting>, i: int)
    requires
        0 <= i < ms.len(),
        forall|k: int| 0 <= k < i ==> (#[trigger] ms[k]).valid(),
        !ms[i].valid(),
    ensures
        first_invalid_meeting(ms) == i,
    decreases i,
{
    if i > 0 {
        let tail = ms.drop_first();
        assert(forall|k: int| 0 <= k < i - 1 ==> (#[trigger] tail[k]) == ms[k + 1]);
        assert(tail[i - 1] == ms[i]);
        lemma_first_invalid_meeting(tail, i - 1);
    }
}

/// The search-space factor one meeting contributes: the spread its
/// availability leaves beyond the forced start per range, or one when it has
/// no room and so prunes nothing.
pub open spec fn window_factor(m: Meeting, g: Seq<TimeRange>) -> int {
    if meeting_avail(m, g).len() == 0 {
        1
    } else {
        slack_sum(meeting_avail(m, g), m.duration as int)
    }
}

/// The size of the raw assignment space: the product of the meetings'
/// factors.
pub open spec fn window_product(ms: Seq<Meeting>, g: Seq<TimeRange>) -> int
    decreases ms.len(),
{
    if ms.len() == 0 {
        1
    } else {
        window_product(ms.drop_last(), g) * window_factor(ms.last(), g)
    }
}

/// Sums the spread the availability list leaves a meeting of this duration.
fn slack_of_ranges(av: &Vec<TimeRange>, duration: u32) -> (r: u128)
    requires
        forall|k: int| 0 <= k < av@.len() ==> wf_range(#[trigger] av@[k]),
        forall|k: int|
            0 <= k < av@.len() ==> (#[trigger] av@[k]).1 - av@[k].0 + 1 >= duration,
    ensures
        r as int == slack_sum(av@, duration as int),
{
    let ghost avs = av@;
    let ghost d = duration as int;
    let mut sum: u128 = 0;
    let mut i: usize = 0;
    while i < av.len()
        invariant
            i <= avs.len(),
            av@ == avs,
            d == duration as int,
            forall|k: int| 0 <= k < avs.len() ==> wf_range(#[trigger] avs[k]),
            forall|k: int| 0 <= k < avs.len() ==> (#[trigger] avs[k]).1 - avs[k].0 + 1 >= d,
            sum as int == slack_sum(avs.take(i as int), d),
            sum as int <= (i as int) * 0x1_0000_0000,
        decreases avs.len() - i,
    {
        let t = av[i];
        proof {
            assert(avs.take(i as int + 1).drop_last() =~= avs.take(i as int));
            assert(avs.take(i as int + 1).last() == avs[i as int]);
            assert(avs[i as int].1 - avs[i as int].0 + 1 >= d);
        }
        let term: u64 = (t.1 - t.0) as u64 + 1 - duration as u64;
        sum = sum + term as u128;
        i += 1;
    }
    proof {
        assert(avs.take(avs.len() as int) =~= avs);
    }
    sum
}

impl crate::time::Validate for Schedule {
    open spec fn valid(&self) -> bool {
        &&& forall|i: int|
            0 <= i < self.availability@.len() ==> wf_range(#[trigger] self.availability@[i])
        &&& forall|j: int| 0 <= j < self.meetings@.len() ==> (#[trigger] self.meetings@[j]).valid()
        &&& forall|i: int, j: int|
            0 <= i < j < self.meetings@.len() ==> (#[trigger] self.meetings@[i]).id@ != (
            #[trigger] self.meetings@[j]).id@
    }

    open spec fn invalid_message(&self) -> Seq<char> {
        if !(forall|i: int|
            0 <= i < self.availability@.len() ==> wf_range(#[trigger] self.availability@[i])) {
            "schedule contains an allowed time whose start is after its end"@
        } else if !(forall|j: int|
            0 <= j < self.meetings@.len() ==> (#[trigger] self.meetings@[j]).valid()) {
            self.meetings@[first_invalid_meeting(self.meetings@)].invalid_message()
        } else {
            "schedule contains duplicate meeting identifiers"@
        }
    }

    fn validate(&self) -> (r: Result<(), String>) {
        if !crate::time::ranges_wf(&self.availability) {
            return Err("schedule contains an allowed time whose start is after its end".to_string());
        }
        let mut i: usize = 0;
        while i < self.meetings.len()
            invariant
                i <= self.meetings@.len(),
                forall|i2: int|
                    0 <= i2 < self.availability@.len() ==> wf_range(
                        #[trigger] self.availability@[i2],
                    ),
                forall|k: int| 0 <= k < i ==> (#[trigger] self.meetings@[k]).valid(),
            decreases self.meetings@.len() - i,
        {
            match self.meetings[i].validate() {
                Err(e) => {
                    proof {
                        lemma_first_invalid_meeting(self.meetings@, i as int);
                    }
                    return Err(e);
                },
                Ok(()) => {},
            }
            i += 1;
        }
        // Downstream results identify meetings by id, so ids must be unique.
        let mut u: usize = 0;
        while u < self.meetings.len()
            invariant
                u <= self.meetings@.len(),
                forall|i2: int|
                    0 <= i2 < self.availability@.len() ==> wf_range(
                        #[trigger] self.availability@[i2],
                    ),
                forall|k: int| 0 <= k < self.meetings@.len() ==> (#[trigger] self.meetings@[k]).valid(),
                forall|a: int, b: int|
                    0 <= a < b < self.meetings@.len() && a < u ==> (
                    #[trigger] self.meetings@[a]).id@ != (#[trigger] self.meetings@[b]).id@,
            decreases self.meetings@.len() - u,
        {
            let mut v: usize = u + 1;
            while v < self.meetings.len()
                invariant
                    u < v,
                    u < self.meetings@.len(),
                    forall|i2: int|
                        0 <= i2 < self.availability@.len() ==> wf_range(
                            #[trigger] self.availability@[i2],
                        ),
                    forall|k: int|
                        0 <= k < self.meetings@.len() ==> (#[trigger] self.meetings@[k]).valid(),
                    forall|b: int|
                        u < b < v ==> self.meetings@[u as int].id@ != (
                        #[trigger] self.meetings@[b]).id@,
                decreases self.meetings@.len() - v,
            {
                if self.meetings[u].id == self.meetings[v].id {
                    proof {
                        assert(self.meetings@[u as int].id@ == self.meetings@[v as int].id@);
                        assert(!self.valid());
                    }
                    return Err("schedule contains duplicate meeting identifiers".to_string());
                }
                v += 1;
            }
            u += 1;
        }
        Ok(())
    }
}

impl Schedule {
    /// Multiplies the meetings' candidate spreads: an estimate of the raw
    /// search-space size, saturated at the counter type's maximum. A meeting
    /// with no room counts as one.
    pub fn compute_windows(&self) -> (r: u64)
        requires
            self.valid(),
        ensures
            r as int == if window_product(self.meetings@, self.availability@) > u64::MAX {
                u64::MAX as int
            } else {
                window_product(self.meetings@, self.availability@)
            },
    {
        let ghost ms = self.meetings@;
        let ghost g = self.availability@;
        let ghost mx = u64::MAX as int;
        let mut acc: u64 = 1;
        let mut i: usize = 0;
        while i < self.meetings.len()
            invariant
                i <= ms.len(),
                self.meetings@ == ms,
                self.availability@ == g,
                self.valid(),
                mx == u64::MAX as int,
                acc as int == (if window_product(ms.take(i as int), g) > mx {
                    mx
                } else {
                    window_product(ms.take(i as int), g)
                }),
            decreases ms.len() - i,
        {
            let m = &self.meetings[i];
            proof {
                assert(m.valid());
            }
            let av = m.get_availability(&self.availability);
            proof {
                lemma_filter_normal(diff(g, m.blocked_times@), long_enough(m.duration as int));
                assert forall|k: int| 0 <= k < av@.len() implies (#[trigger] av@[k]).1 - av@[k].0
                    + 1 >= m.duration by {
                    diff(g, m.blocked_times@).lemma_filter_pred(
                        long_enough(m.duration as int),
                        k,
                    );
                }
            }
            let factor: u128 = if av.len() == 0 {
                1
            } else {
                slack_of_ranges(&av, m.duration)
            };
            let fcap: u64 = if factor > u64::MAX as u128 {
                u64::MAX
            } else {
                factor as u64
            };
            let ghost pt = window_product(ms.take(i as int), g);
            let ghost ft = window_factor(ms[i as int], g);
            proof {
                assert(ms.take(i as int + 1).drop_last() =~= ms.take(i as int));
                assert(ms.take(i as int + 1).last() == ms[i as int]);
                assert(window_product(ms.take(i as int + 1), g) == pt * ft);
                assert(ft == factor as int);
                assert((acc as int) * (fcap as int) <= u128::MAX) by (nonlinear_arith)
                    requires
                        0 <= acc as int <= 0xffff_ffff_ffff_ffffu64 as int,
                        0 <= fcap as int <= 0xffff_ffff_ffff_ffffu64 as int,
                ;
            }
            let prod: u128 = (acc as u128) * (fcap as u128);
            let newacc: u64 = if prod > u64::MAX as u128 {
                u64::MAX
            } else {
                prod as u64
            };
            proof {
                assert(prod as int == (acc as int) * (fcap as int));
                if pt > mx {
                    if ft == 0 {
                        assert(pt * ft == 0) by (nonlinear_arith)
                            requires
                                ft == 0,
                        ;
                        assert(prod as int == 0) by (nonlinear_arith)
                            requires
                                fcap as int == 0,
                                prod as int == (acc as int) * (fcap as int),
                        ;
                    } else {
                        assert(acc as int == mx && fcap as int >= 1);
                        assert(prod as int >= mx) by (nonlinear_arith)
                            requires
                                acc as int == mx,
                                fcap as int >= 1,
                                prod as int == (acc as int) * (fcap as int),
                        ;
                        assert(pt * ft > mx) by (nonlinear_arith)
                            requires
                                pt > mx,
                                ft >= 1,
                                mx > 0,
                        ;
                    }
                } else if ft > mx {
                    assert(acc as int == pt && fcap as int == mx);
                    if pt == 0 {
                        assert(pt * ft == 0) by (nonlinear_arith)
                            requires
                                pt == 0,
                        ;
                        assert(prod as int == 0) by (nonlinear_arith)
                            requires
                                acc as int == 0,
                                prod as int == (acc as int) * (fcap as int),
                        ;
                    } else {
                        assert(prod as int >= mx) by (nonlinear_arith)
                            requires
                                fcap as int == mx,
                                acc as int >= 1,
                                prod as int == (acc as int) * (fcap as int),
                        ;
                        assert(pt * ft > mx) by (nonlinear_arith)
                            requires
                                ft > mx,
                                pt >= 1,
                                mx > 0,
                        ;
                    }
                } else {
                    assert(acc as int == pt && fcap as int == ft);
                    assert(prod as int == pt * ft);
                }
            }
            acc = newacc;
            i += 1;
        }
        proof {
            assert(ms.take(ms.len() as int) =~= ms);
        }
        acc
    }

    /// Builds a scheduling problem from its meetings and the globally
    /// allowed times.
    pub fn new(meetings: Vec<Meeting>, availability: Vec<TimeRange>) -> (r: Schedule)
        ensures
            r.meetings == meetings,
            r.availability == availability,
    {
        Schedule { meetings, availability }
    }

    /// Reduces each meeting to its availability view, dropping meetings with
    /// no room at all.
    fn meeting_availability(&self) -> (r: Vec<MeetingScheduleInfo>)
        requires
            self.valid(),
        ensures
            infos_of_schedule(r@, *self),
            r@.len() == self.meetings@.filter(
                |m: Meeting| meeting_avail(m, self.availability@).len() > 0,
            ).len(),
            forall|k: int|
                0 <= k < r@.len() ==> info_matches(
                    #[trigger] r@[k],
                    self.meetings@.filter(
                        |m: Meeting| meeting_avail(m, self.availability@).len() > 0,
                    )[k],
                    self.availability@,
                ),
    {
        broadcast use vstd::seq_lib::group_to_multiset_ensures;

        let ghost ms = self.meetings@;
        let ghost g = self.availability@;
        let ghost pred = |m: Meeting| meeting_avail(m, g).len() > 0;
        let ghost idf = |i: MeetingScheduleInfo| i.id@;
        let ghost midf = |m: Meeting| m.id@;
        let mut out: Vec<MeetingScheduleInfo> = Vec::new();
        let mut i: usize = 0;
        while i < self.meetings.len()
            invariant
                i <= ms.len(),
                self.meetings@ == ms,
                self.availability@ == g,
                self.valid(),
                pred == (|m: Meeting| meeting_avail(m, g).len() > 0),
                idf == (|i: MeetingScheduleInfo| i.id@),
                midf == (|m: Meeting| m.id@),
                forall|k: int| 0 <= k < out@.len() ==> info_wf(#[trigger] out@[k]),
                forall|k: int| 0 <= k < out@.len() ==> info_from(#[trigger] out@[k], *self),
                out@.len() == ms.take(i as int).filter(pred).len(),
                forall|k: int|
                    0 <= k < out@.len() ==> info_matches(
                        #[trigger] out@[k],
                        ms.take(i as int).filter(pred)[k],
                        g,
                    ),
                out@.map_values(idf).to_multiset() == ms.take(i as int).filter(pred).map_values(
                    midf,
                ).to_multiset(),
            decreases ms.len() - i,
        {
            let m = &self.meetings[i];
            proof {
                assert(m.valid());
            }
            let av = m.get_availability(&self.availability);
            proof {
                reveal(Seq::filter);
                assert(ms.take(i as int + 1).drop_last() =~= ms.take(i as int));
                assert(ms.take(i as int + 1).last() == ms[i as int]);
                crate::schedule::lemma_filter_normal(
                    diff(g, m.blocked_times@),
                    long_enough(m.duration as int),
                );
                assert forall|k: int| 0 <= k < av@.len() implies (#[trigger] av@[k]).1 - av@[k].0
                    + 1 >= m.duration by {
                    diff(g, m.blocked_times@).lemma_filter_pred(
                        long_enough(m.duration as int),
                        k,
                    );
                }
            }
            if av.len() > 0 {
                let info = MeetingScheduleInfo {
                    id: m.id.clone(),
                    duration: m.duration,
                    availability: av,
                };
                let ghost prev = out@;
                out.push(info);
                proof {
                    broadcast use vstd::seq_lib::group_to_multiset_ensures;

                    reveal(Seq::filter);
                    assert(info_wf(info));
                    assert(info_matches(info, ms[i as int], g));
                    assert(info_from(info, *self));
                    assert(pred(ms[i as int]));
                    assert(ms.take(i as int + 1).filter(pred) == ms.take(i as int).filter(
                        pred,
                    ).push(ms[i as int]));
                    assert(out@.map_values(idf) =~= prev.map_values(idf).push(info.id@));
                    assert(ms.take(i as int + 1).filter(pred).map_values(midf) =~= ms.take(
                        i as int,
                    ).filter(pred).map_values(midf).push(ms[i as int].id@));
                    assert(info.id@ == ms[i as int].id@);
                    assert(out@.map_values(idf).to_multiset() =~= prev.map_values(
                        idf,
                    ).to_multiset().insert(info.id@));
                    assert(ms.take(i as int + 1).filter(pred).map_values(midf).to_multiset()
                        =~= ms.take(i as int).filter(pred).map_values(
                        midf,
                    ).to_multiset().insert(ms[i as int].id@));
                }
            } else {
                proof {
                    reveal(Seq::filter);
                    assert(!pred(ms[i as int]));
                    assert(ms.take(i as int + 1).filter(pred) == ms.take(i as int).filter(pred));
                }
            }
            i += 1;
        }
        proof {
            assert(ms.take(ms.len() as int) =~= ms);
        }
        out
    }

    /// Validates the input and applies the pigeonhole precheck; hands back
    /// the per-meeting availability views the solver runs on.
    pub fn setup(&self) -> (r: Result<Vec<MeetingScheduleInfo>, ValidationError>)
        ensures
            match r {
                Ok(infos) => {
                    &&& self.valid()
                    &&& infos_of_schedule(infos@, *self)
                    &&& infos@.len() == self.meetings@.filter(
                        |m: Meeting| meeting_avail(m, self.availability@).len() > 0,
                    ).len()
                    &&& forall|k: int|
                        0 <= k < infos@.len() ==> info_matches(
                            #[trigger] infos@[k],
                            self.meetings@.filter(
                                |m: Meeting| meeting_avail(m, self.availability@).len() > 0,
                            )[k],
                            self.availability@,
                        )
                    &&& (holes_of(infos@) > u32::MAX || pigeons_of(infos@) <= holes_of(infos@))
                },
                Err(e) => {
                    &&& (e is InvalidData <==> !self.valid())
                    &&& (e matches ValidationError::PigeonholeError { pigeons, pigeon_holes }
                        ==> self.valid() && exists|infos: Seq<MeetingScheduleInfo>|
                        {
                            &&& infos_of_schedule(infos, *self)
                            &&& holes_of(infos) <= u32::MAX
                            &&& pigeon_holes as int == holes_of(infos)
                            &&& pigeons as int == pigeons_of(infos)
                            &&& pigeons > pigeon_holes
                        })
                    &&& !(e is NoSolution)
                    &&& !(e is NoSolutionWithinIteration)
                },
            },
    {
        match self.validate() {
            Err(error) => Err(ValidationError::InvalidData { error }),
            Ok(()) => {
                let infos = self.meeting_availability();
                match pigeon_check(&infos) {
                    Some(e) => {
                        proof {
                            assert(e matches ValidationError::PigeonholeError {
                                pigeons,
                                pigeon_holes,
                            } ==> {
                                &&& infos_of_schedule(infos@, *self)
                                &&& holes_of(infos@) <= u32::MAX
                                &&& pigeon_holes as int == holes_of(infos@)
                                &&& pigeons as int == pigeons_of(infos@)
                                &&& pigeons > pigeon_holes
                            });
                        }
                        Err(e)
                    },
                    None => Ok(infos),
                }
            },
        }
    }

    /// Schedules every meeting that has any room, inside the allowed times,
    /// so that no two meetings overlap. `count` bounds the number of search
    /// iterations. The two trailing knobs belong to callers that race
    /// several searches; the deterministic core ignores them.
    pub fn schedule_meetings(
        &self,
        count: Option<usize>,
        _per_thread: Option<usize>,
        _num_shuffles: Option<usize>,
    ) -> (r: Result<ScheduleResult, ValidationError>)
        ensures
            match r {
                Ok(s) => exists|infos: Seq<MeetingScheduleInfo>|
                    {
                        &&& infos_of_schedule(infos, *self)
                        &&& holes_of(infos) > u32::MAX || pigeons_of(infos) <= holes_of(infos)
                        &&& forall|i: int, j: int|
                            0 <= i < j < infos.len() ==> key_le(
                                #[trigger] infos[i],
                                #[trigger] infos[j],
                            )
                        &&& s.results@.len() == infos.len()
                        &&& exists|orig: Seq<MeetingTime>|
                            #[trigger] placements_of(orig, infos, s.indices@)
                                && s.results@.to_multiset() == orig.to_multiset()
                        &&& forall|i: int, j: int|
                            0 <= i < j < s.results@.len() ==> (#[trigger] s.results@[i]).time.1 < (
                            #[trigger] s.results@[j]).time.0
                        &&& all_disjoint(s.results@)
                        &&& s.indices@.len() == self.meetings@.len()
                        &&& s.count >= 1
                        &&& (count matches Some(l) ==> s.count <= l)
                    },
                Err(e) => {
                    &&& (e is InvalidData <==> !self.valid())
                    &&& (e matches ValidationError::PigeonholeError { pigeons, pigeon_holes }
                        ==> exists|infos: Seq<MeetingScheduleInfo>|
                        {
                            &&& infos_of_schedule(infos, *self)
                            &&& holes_of(infos) <= u32::MAX
                            &&& pigeon_holes as int == holes_of(infos)
                            &&& pigeons as int == pigeons_of(infos)
                            &&& pigeons > pigeon_holes
                        })
                    &&& (e matches ValidationError::NoSolutionWithinIteration(b) ==> count == Some(
                        b,
                    ) && self.valid())
                    &&& (e is NoSolution ==> exists|infos: Seq<MeetingScheduleInfo>|
                        {
                            &&& infos_of_schedule(infos, *self)
                            &&& holes_of(infos) > u32::MAX || pigeons_of(infos) <= holes_of(
                                infos,
                            )
                            &&& forall|a: Seq<int>| !feasible(a, infos)
                            &&& (count matches Some(l) ==> infos.len() >= 1 && l > win(
                                infos,
                                0,
                            ).len())
                        })
                },
            },
    {
        match self.validate() {
            Err(error) => {
                return Err(ValidationError::InvalidData { error });
            },
            Ok(()) => {},
        }
        let infos = self.meeting_availability();
        let ghost unsorted = infos@;
        let sorted = sort_infos(infos);
        proof {
            lemma_infos_perm(unsorted, sorted@, *self);
            broadcast use vstd::seq_lib::group_to_multiset_ensures;

            assert(sorted@.len() == unsorted.len());
            let idf = |i: MeetingScheduleInfo| i.id@;
            let midf = |m: Meeting| m.id@;
            let pred = |m: Meeting| meeting_avail(m, self.availability@).len() > 0;
            let filtered = self.meetings@.filter(pred);
            assert(unsorted.map_values(idf).to_multiset().len() == unsorted.map_values(
                idf,
            ).len());
            assert(filtered.map_values(midf).to_multiset().len() == filtered.map_values(
                midf,
            ).len());
            assert(unsorted.map_values(idf).to_multiset() == filtered.map_values(
                midf,
            ).to_multiset());
            assert(filtered.len() <= self.meetings@.len()) by {
                self.meetings@.lemma_filter_len(pred);
            }
            assert(unsorted.len() <= self.meetings@.len());
        }
        if let Some(e) = pigeon_check(&sorted) {
            return Err(e);
        }
        let result = schedule_setup(self.meetings.len(), &sorted, count);
        proof {
            if result is Ok {
                assert(infos_of_schedule(sorted@, *self));
            }
        }
        result
    }
}

} // verus!
