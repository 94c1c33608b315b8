//! The staged input pipeline: validate size limits, sort every time list,
//! then derive per-participant and per-meeting availability against a master
//! list of allowed times.

use vstd::prelude::*;

use crate::time::{covered, in_range, sort_ranges, sorted_lex, wf_range, TimeRange};

verus! {

/// Why the pipeline rejected its input.
#[derive(Debug)]
pub enum ValidationError {
    /// A list is longer than the supported maximum.
    UnsupportedLength { expected: usize, found: usize },
    /// A sorted time list still has two entries that overlap.
    OverlappingTimeRange,
}

/// How far the pipeline has come; each step brings the input one state
/// further.
#[derive(PartialEq, Eq, Structural, Clone, Copy, Debug)]
pub enum Status {
    New,
    Validated,
    Sorted,
    FoundUserAvailability,
    FoundMeetingAvailability,
}

/// A participant: blocked times as given, and the availability the pipeline
/// computes for them.
#[derive(Clone, Debug)]
pub struct Participant {
    pub id: String,
    pub blocked_times: Vec<TimeRange>,
    pub available_times: Vec<TimeRange>,
}

/// A meeting over participant identifiers, and the availability the
/// pipeline computes for it.
#[derive(Clone, Debug)]
pub struct Meeting {
    pub id: String,
    pub duration: u32,
    pub participant_ids: Vec<String>,
    pub available_times: Vec<TimeRange>,
}

/// The pipeline's state: participants, meetings, the master list of allowed
/// times, and how far processing has come.
#[derive(Clone, Debug)]
pub struct Input {
    pub participants: Vec<Participant>,
    pub meetings: Vec<Meeting>,
    pub available_time_range: Vec<TimeRange>,
    pub status: Status,
}

/// Some two adjacent entries of the (sorted) list overlap.
pub open spec fn adj_overlap(s: Seq<TimeRange>) -> bool {
    exists|k: int| 0 <= k < s.len() - 1 && (#[trigger] s[k]).1 >= s[k + 1].0
}

/// Checks a sorted list for adjacent overlap.
fn check_overlap(xs: &Vec<TimeRange>) -> (r: bool)
    ensures
        r == adj_overlap(xs@),
{
    if xs.len() == 0 {
        return false;
    }
    let mut k: usize = 0;
    while k < xs.len() - 1
        invariant
            xs@.len() > 0,
            k < xs@.len(),
            forall|u: int| 0 <= u < k ==> (#[trigger] xs@[u]).1 < xs@[u + 1].0,
        decreases xs@.len() - k,
    {
        if xs[k].1 >= xs[k + 1].0 {
            return true;
        }
        k += 1;
    }
    false
}

/// Copies a list of ranges.
fn copy_ranges(xs: &Vec<TimeRange>) -> (r: Vec<TimeRange>)
    ensures
        r@ == xs@,
{
    let mut out: Vec<TimeRange> = Vec::new();
    let mut i: usize = 0;
    while i < xs.len()
        invariant
            i <= xs@.len(),
            out@ == xs@.take(i as int),
        decreases xs@.len() - i,
    {
        out.push(xs[i]);
        proof {
            assert(xs@.take(i as int + 1) =~= xs@.take(i as int).push(xs@[i as int]));
        }
        i += 1;
    }
    proof {
        assert(xs@.take(xs@.len() as int) =~= xs@);
    }
    out
}

impl Participant {
    /// A participant with the given blocked times: the times this person
    /// *cannot* meet.
    pub fn new(id: String, blocked_times: Vec<TimeRange>) -> (r: Participant)
        ensures
            r.id == id,
            r.blocked_times == blocked_times,
            r.available_times@ == Seq::<TimeRange>::empty(),
    {
        Participant { id, blocked_times, available_times: Vec::new() }
    }
}

impl Default for Participant {
    fn default() -> (r: Participant)
        ensures
            r.id@ == Seq::<char>::empty(),
            r.blocked_times@ == Seq::<TimeRange>::empty(),
            r.available_times@ == Seq::<TimeRange>::empty(),
    {
        Participant { id: String::new(), blocked_times: Vec::new(), available_times: Vec::new() }
    }
}

impl Meeting {
    /// A meeting of the given duration over the given participants.
    pub fn new(id: String, duration: u32, participant_ids: Vec<String>) -> (r: Meeting)
        ensures
            r.id == id,
            r.duration == duration,
            r.participant_ids == participant_ids,
            r.available_times@ == Seq::<TimeRange>::empty(),
    {
        Meeting { id, duration, participant_ids, available_times: Vec::new() }
    }
}

impl Default for Meeting {
    fn default() -> (r: Meeting)
        ensures
            r.id@ == Seq::<char>::empty(),
            r.duration == 1,
            r.participant_ids@ == Seq::<String>::empty(),
            r.available_times@ == Seq::<TimeRange>::empty(),
    {
        Meeting {
            id: String::new(),
            duration: 1,
            participant_ids: Vec::new(),
            available_times: Vec::new(),
        }
    }
}

impl Input {
    /// Builds a fresh, unprocessed input.
    pub fn new(
        participants: Vec<Participant>,
        meetings: Vec<Meeting>,
        available_time_range: Vec<TimeRange>,
    ) -> (r: Input)
        ensures
            r.participants == participants,
            r.meetings == meetings,
            r.available_time_range == available_time_range,
            r.status == Status::New,
    {
        Input { participants, meetings, available_time_range, status: Status::New }
    }

    /// Rejects inputs over the supported sizes: the master list is capped at
    /// 168 entries and the participant list at 100.
    pub fn validate(&mut self) -> (r: Result<(), ValidationError>)
        ensures
            final(self).participants == old(self).participants,
            final(self).meetings == old(self).meetings,
            final(self).available_time_range == old(self).available_time_range,
            match r {
                Ok(()) => {
                    &&& old(self).available_time_range@.len() <= 168
                    &&& old(self).participants@.len() <= 100
                    &&& final(self).status == Status::Validated
                },
                Err(e) => {
                    &&& final(self).status == old(self).status
                    &&& (e matches ValidationError::UnsupportedLength { expected, found } && (
                    (expected == 168 && found == old(self).available_time_range@.len() && found
                        > 168) || (expected == 100 && old(self).available_time_range@.len() <= 168
                        && found == old(self).participants@.len() && found > 100)))
                },
            },
    {
        if self.available_time_range.len() > 168 {
            Err(ValidationError::UnsupportedLength {
                expected: 168,
                found: self.available_time_range.len(),
            })
        } else if self.participants.len() > 100 {
            Err(ValidationError::UnsupportedLength {
                expected: 100,
                found: self.participants.len(),
            })
        } else {
            self.status = Status::Validated;
            Ok(())
        }
    }

    /// Validates a fresh input, then sorts every participant's blocked times
    /// and the master list, rejecting lists whose sorted entries overlap.
    /// On success every time list is sorted by `(start, end)` with the same
    /// entries it had, no two adjacent entries overlap, and the input is
    /// ready for availability queries.
    pub fn sort(&mut self) -> (r: Result<(), ValidationError>)
        ensures
            final(self).meetings == old(self).meetings,
            final(self).participants@.len() == old(self).participants@.len(),
            forall|k: int|
                0 <= k < final(self).participants@.len() ==> {
                    let np = #[trigger] final(self).participants@[k];
                    let op = old(self).participants@[k];
                    np.id == op.id && np.available_times@ == op.available_times@
                        && np.blocked_times@.to_multiset() == op.blocked_times@.to_multiset()
                },
            final(self).available_time_range@.to_multiset()
                == old(self).available_time_range@.to_multiset(),
            match r {
                Ok(()) => {
                    &&& old(self).status == Status::New ==> old(
                        self,
                    ).available_time_range@.len() <= 168 && old(self).participants@.len() <= 100
                    &&& forall|k: int|
                        0 <= k < final(self).participants@.len() ==> {
                            let b = (#[trigger] final(self).participants@[k]).blocked_times@;
                            b.len() <= 168 && sorted_lex(b) && !adj_overlap(b)
                        }
                    &&& sorted_lex(final(self).available_time_range@)
                    &&& !adj_overlap(final(self).available_time_range@)
                    &&& final(self).status == Status::Sorted
                },
                Err(e) => match e {
                    ValidationError::UnsupportedLength { expected, found } => {
                        ||| (expected == 168 && old(self).status == Status::New && found == old(
                            self,
                        ).available_time_range@.len() && found > 168)
                        ||| (expected == 100 && old(self).status == Status::New && old(
                            self,
                        ).available_time_range@.len() <= 168 && found == old(
                            self,
                        ).participants@.len() && found > 100)
                        ||| (expected == 168 && found > 168 && exists|k: int|
                            0 <= k < old(self).participants@.len() && (#[trigger] old(
                                self,
                            ).participants@[k]).blocked_times@.len() == found)
                    },
                    ValidationError::OverlappingTimeRange => {
                        ||| exists|k: int|
                            0 <= k < final(self).participants@.len() && {
                                let b = (#[trigger] final(self).participants@[k]).blocked_times@;
                                sorted_lex(b) && adj_overlap(b)
                            }
                        ||| (sorted_lex(final(self).available_time_range@) && adj_overlap(
                            final(self).available_time_range@,
                        ))
                    },
                },
            },
    {
        if matches!(self.status, Status::New) {
            match self.validate() {
                Err(e) => {
                    return Err(e);
                },
                Ok(()) => {},
            }
        }
        let ghost ops = self.participants@;
        let mut new_parts: Vec<Participant> = Vec::new();
        let mut k: usize = 0;
        let mut overlap_found = false;
        let mut too_long: Option<usize> = None;
        while k < self.participants.len() && !overlap_found && too_long.is_none()
            invariant
                self.participants@ == ops,
                k <= ops.len(),
                new_parts@.len() == k,
                forall|u: int|
                    0 <= u < k ==> {
                        let np = #[trigger] new_parts@[u];
                        let op = ops[u];
                        np.id == op.id && np.available_times@ == op.available_times@
                            && np.blocked_times@.to_multiset() == op.blocked_times@.to_multiset()
                    },
                !overlap_found && too_long is None ==> forall|u: int|
                    0 <= u < k ==> {
                        let np = #[trigger] new_parts@[u];
                        np.blocked_times@.len() <= 168 && sorted_lex(np.blocked_times@)
                            && !adj_overlap(np.blocked_times@)
                    },
                overlap_found ==> k > 0 && sorted_lex(new_parts@[k - 1].blocked_times@)
                    && adj_overlap(new_parts@[k - 1].blocked_times@),
                too_long matches Some(n) ==> n > 168 && k > 0 && new_parts@[k
                    - 1].blocked_times@.len() == n && exists|k2: int|
                    0 <= k2 < ops.len() && (#[trigger] ops[k2]).blocked_times@.len() == n,
                !(overlap_found && too_long is Some),
            decreases ops.len() - k,
        {
            let p = &self.participants[k];
            if p.blocked_times.len() > 168 {
                too_long = Some(p.blocked_times.len());
                let blocked = copy_ranges(&p.blocked_times);
                proof {
                    assert(blocked@.to_multiset() == p.blocked_times@.to_multiset());
                }
                new_parts.push(
                    Participant {
                        id: p.id.clone(),
                        blocked_times: blocked,
                        available_times: copy_ranges(&p.available_times),
                    },
                );
            } else {
                let sorted = sort_ranges(&p.blocked_times);
                if check_overlap(&sorted) {
                    overlap_found = true;
                }
                new_parts.push(
                    Participant {
                        id: p.id.clone(),
                        blocked_times: sorted,
                        available_times: copy_ranges(&p.available_times),
                    },
                );
            }
            k += 1;
        }
        // Keep the untouched tail so the whole list is preserved.
        while k < self.participants.len()
            invariant
                self.participants@ == ops,
                k <= ops.len(),
                new_parts@.len() == k,
                forall|u: int|
                    0 <= u < k ==> {
                        let np = #[trigger] new_parts@[u];
                        let op = ops[u];
                        np.id == op.id && np.available_times@ == op.available_times@
                            && np.blocked_times@.to_multiset() == op.blocked_times@.to_multiset()
                    },
                overlap_found ==> exists|u: int|
                    0 <= u < k && sorted_lex((#[trigger] new_parts@[u]).blocked_times@)
                        && adj_overlap(new_parts@[u].blocked_times@),
                too_long matches Some(n) ==> n > 168 && exists|k2: int|
                    0 <= k2 < ops.len() && (#[trigger] ops[k2]).blocked_times@.len() == n,
                !overlap_found && too_long is None ==> k == ops.len() && forall|u: int|
                    0 <= u < k ==> {
                        let np = #[trigger] new_parts@[u];
                        np.blocked_times@.len() <= 168 && sorted_lex(np.blocked_times@)
                            && !adj_overlap(np.blocked_times@)
                    },
            decreases ops.len() - k,
        {
            let p = &self.participants[k];
            let ghost prev = new_parts@;
            new_parts.push(
                Participant {
                    id: p.id.clone(),
                    blocked_times: copy_ranges(&p.blocked_times),
                    available_times: copy_ranges(&p.available_times),
                },
            );
            proof {
                if overlap_found {
                    let u0 = choose|u: int|
                        0 <= u < prev.len() && sorted_lex((#[trigger] prev[u]).blocked_times@)
                            && adj_overlap(prev[u].blocked_times@);
                    assert(new_parts@[u0] == prev[u0]);
                }
            }
            k += 1;
        }
        self.participants = new_parts;
        if let Some(n) = too_long {
            return Err(ValidationError::UnsupportedLength { expected: 168, found: n });
        }
        if overlap_found {
            return Err(ValidationError::OverlappingTimeRange);
        }
        let sorted_avail = sort_ranges(&self.available_time_range);
        self.available_time_range = sorted_avail;
        if check_overlap(&self.available_time_range) {
            return Err(ValidationError::OverlappingTimeRange);
        }
        self.status = Status::Sorted;
        Ok(())
    }
}

/// The maximal stretches of `[s, e]` that no entry of `bs` blocks, walking
/// the blocked list in order.
pub open spec fn carve(s: int, e: int, bs: Seq<TimeRange>) -> Seq<TimeRange>
    decreases bs.len(),
{
    if s > e {
        Seq::empty()
    } else if bs.len() == 0 {
        seq![TimeRange(s as u32, e as u32)]
    } else {
        let b = bs[0];
        if b.1 < s {
            carve(s, e, bs.drop_first())
        } else if b.0 > e {
            seq![TimeRange(s as u32, e as u32)]
        } else if b.0 <= s {
            carve(b.1 + 1, e, bs.drop_first())
        } else {
            seq![TimeRange(s as u32, (b.0 - 1) as u32)] + carve(b.1 + 1, e, bs.drop_first())
        }
    }
}

/// Each master range carved by the blocked list, in master order.
pub open spec fn concat_carve(master: Seq<TimeRange>, bs: Seq<TimeRange>) -> Seq<TimeRange>
    decreases master.len(),
{
    if master.len() == 0 {
        Seq::empty()
    } else {
        concat_carve(master.drop_last(), bs) + carve(
            master.last().0 as int,
            master.last().1 as int,
            bs,
        )
    }
}

/// What the pipeline computes for one participant: with nothing blocked the
/// master list itself, segmentation and all; otherwise each master range
/// carved by the blocked list.
pub open spec fn user_avail(master: Seq<TimeRange>, blocked: Seq<TimeRange>) -> Seq<TimeRange> {
    if blocked.len() == 0 {
        master
    } else {
        concat_carve(master, blocked)
    }
}

/// Appends to `out` the stretches of `[s0, e]` that `bs` leaves unblocked.
fn carve_into(s0: u32, e: u32, bs: &Vec<TimeRange>, out: &mut Vec<TimeRange>)
    ensures
        final(out)@ == old(out)@ + carve(s0 as int, e as int, bs@),
{
    let ghost base = old(out)@;
    let mut s: u32 = s0;
    let mut j: usize = 0;
    let mut done = false;
    proof {
        assert(bs@.skip(0) =~= bs@);
    }
    while !done
        invariant
            j <= bs@.len(),
            !done ==> out@ + carve(s as int, e as int, bs@.skip(j as int)) =~= base + carve(
                s0 as int,
                e as int,
                bs@,
            ),
            done ==> out@ =~= base + carve(s0 as int, e as int, bs@),
        decreases (if done { 0int } else { 1int }), bs@.len() - j,
    {
        proof {
            if (j as int) < bs@.len() {
                assert(bs@.skip(j as int)[0] == bs@[j as int]);
                assert(bs@.skip(j as int).drop_first() =~= bs@.skip(j as int + 1));
            }
        }
        let ghost rem = carve(s as int, e as int, bs@.skip(j as int));
        let ghost prev = out@;
        if s > e {
            done = true;
            proof {
                assert(rem =~= Seq::<TimeRange>::empty());
                assert(out@ =~= out@ + rem);
            }
        } else if j == bs.len() {
            out.push(TimeRange(s, e));
            done = true;
            proof {
                assert(bs@.skip(j as int).len() == 0);
                assert(rem =~= seq![TimeRange(s, e)]);
                assert(out@ =~= prev + rem);
            }
        } else {
            let b = bs[j];
            if b.1 < s {
                j += 1;
            } else if b.0 > e {
                out.push(TimeRange(s, e));
                done = true;
                proof {
                    assert(rem =~= seq![TimeRange(s, e)]);
                    assert(out@ =~= prev + rem);
                }
            } else if b.0 <= s {
                if b.1 >= e {
                    done = true;
                    proof {
                        assert(rem =~= carve(b.1 + 1, e as int, bs@.skip(j as int + 1)));
                        assert(rem =~= Seq::<TimeRange>::empty());
                        assert(out@ =~= out@ + rem);
                    }
                } else {
                    s = b.1 + 1;
                    j += 1;
                }
            } else {
                out.push(TimeRange(s, b.0 - 1));
                if b.1 >= e {
                    done = true;
                    proof {
                        assert(carve(b.1 + 1, e as int, bs@.skip(j as int + 1))
                            =~= Seq::<TimeRange>::empty());
                        assert(rem =~= seq![TimeRange(s, (b.0 - 1) as u32)]);
                        assert(out@ =~= prev + rem);
                    }
                } else {
                    s = b.1 + 1;
                    j += 1;
                }
            }
        }
    }
}

/// Concatenation covers a point exactly when one side does.
proof fn lemma_covered_concat(a: Seq<TimeRange>, b: Seq<TimeRange>, p: int)
    ensures
        covered(a + b, p) == (covered(a, p) || covered(b, p)),
{
    if covered(a + b, p) {
        let i = choose|i: int| 0 <= i < (a + b).len() && in_range((a + b)[i], p);
        if i < a.len() {
            assert(in_range(a[i], p));
        } else {
            assert(in_range(b[i - a.len()], p));
        }
    }
    if covered(a, p) {
        let i = choose|i: int| 0 <= i < a.len() && in_range(a[i], p);
        assert(in_range((a + b)[i], p));
    }
    if covered(b, p) {
        let i = choose|i: int| 0 <= i < b.len() && in_range(b[i], p);
        assert(in_range((a + b)[a.len() + i], p));
    }
}

/// Carving keeps, point by point, exactly the stretch's points that no
/// block of the start-sorted, well-formed blocked list covers: spec-level
/// subtraction restricted to one master range.
pub proof fn lemma_carve_covered(s: int, e: int, bs: Seq<TimeRange>, p: int)
    requires
        forall|k: int| 0 <= k < bs.len() ==> wf_range(#[trigger] bs[k]),
        forall|i: int, j: int|
            0 <= i < j < bs.len() ==> (#[trigger] bs[i]).0 <= (#[trigger] bs[j]).0,
        0 <= s <= u32::MAX as int + 1,
        0 <= e <= u32::MAX as int,
    ensures
        covered(carve(s, e, bs), p) == (s <= p <= e && !covered(bs, p)),
    decreases bs.len(),
{
    if s > e {
    } else if bs.len() == 0 {
        let t = TimeRange(s as u32, e as u32);
        assert(covered(carve(s, e, bs), p) == in_range(t, p)) by {
            if in_range(t, p) {
                assert(in_range(carve(s, e, bs)[0], p));
            }
            if covered(carve(s, e, bs), p) {
                let i = choose|i: int|
                    0 <= i < carve(s, e, bs).len() && in_range(carve(s, e, bs)[i], p);
                assert(i == 0);
            }
        }
    } else {
        let b = bs[0];
        let tail = bs.drop_first();
        assert(bs =~= seq![b] + tail);
        assert forall|k: int| 0 <= k < tail.len() implies wf_range(#[trigger] tail[k]) by {
            assert(tail[k] == bs[k + 1]);
        }
        assert forall|i: int, j: int| 0 <= i < j < tail.len() implies (#[trigger] tail[i]).0 <= (
        #[trigger] tail[j]).0 by {
            assert(tail[i] == bs[i + 1] && tail[j] == bs[j + 1]);
        }
        assert forall|q: int| covered(bs, q) == (in_range(b, q) || covered(tail, q)) by {
            assert(covered(seq![b], q) == in_range(b, q)) by {
                if covered(seq![b], q) {
                    let i = choose|i: int| 0 <= i < 1 && in_range(seq![b][i], q);
                    assert(i == 0);
                }
                if in_range(b, q) {
                    assert(in_range(seq![b][0], q));
                }
            }
            lemma_covered_concat(seq![b], tail, q);
        }
        if b.1 < s {
            lemma_carve_covered(s, e, tail, p);
        } else if b.0 > e {
            let t = TimeRange(s as u32, e as u32);
            assert(covered(carve(s, e, bs), p) == in_range(t, p)) by {
                if in_range(t, p) {
                    assert(in_range(carve(s, e, bs)[0], p));
                }
                if covered(carve(s, e, bs), p) {
                    let i = choose|i: int|
                        0 <= i < carve(s, e, bs).len() && in_range(carve(s, e, bs)[i], p);
                    assert(i == 0);
                }
            }
            if s <= p <= e && covered(bs, p) {
                let k = choose|k: int| 0 <= k < bs.len() && in_range(bs[k], p);
                assert(bs[0].0 <= bs[k].0);
                assert(false);
            }
        } else if b.0 <= s {
            lemma_carve_covered(b.1 + 1, e, tail, p);
            if s <= p <= b.1 && p <= e {
                assert(in_range(b, p));
            }
        } else {
            let piece = seq![TimeRange(s as u32, (b.0 - 1) as u32)];
            lemma_carve_covered(b.1 + 1, e, tail, p);
            lemma_covered_concat(piece, carve(b.1 + 1, e, tail), p);
            assert(covered(piece, p) == (s <= p <= b.0 - 1)) by {
                if covered(piece, p) {
                    let i = choose|i: int| 0 <= i < 1 && in_range(piece[i], p);
                    assert(i == 0);
                }
                if s <= p <= b.0 - 1 {
                    assert(in_range(piece[0], p));
                }
            }
            if s <= p < b.0 && covered(tail, p) {
                let k = choose|k: int| 0 <= k < tail.len() && in_range(tail[k], p);
                assert(bs[0].0 <= bs[k + 1].0);
                assert(false);
            }
            if b.0 <= p <= b.1 {
                assert(in_range(b, p));
            }
        }
    }
}

/// Carving yields well-formed stretches inside `[s, e]`, ascending by
/// start.
pub proof fn lemma_carve_shape(s: int, e: int, bs: Seq<TimeRange>)
    requires
        forall|k: int| 0 <= k < bs.len() ==> wf_range(#[trigger] bs[k]),
        forall|i: int, j: int|
            0 <= i < j < bs.len() ==> (#[trigger] bs[i]).0 <= (#[trigger] bs[j]).0,
        0 <= s <= u32::MAX as int + 1,
        0 <= e <= u32::MAX as int,
    ensures
        forall|k: int|
            0 <= k < carve(s, e, bs).len() ==> wf_range(#[trigger] carve(s, e, bs)[k]) && s
                <= carve(s, e, bs)[k].0 && carve(s, e, bs)[k].1 <= e,
        forall|i: int, j: int|
            0 <= i < j < carve(s, e, bs).len() ==> (#[trigger] carve(s, e, bs)[i]).0 <= (
            #[trigger] carve(s, e, bs)[j]).0,
    decreases bs.len(),
{
    let out = carve(s, e, bs);
    if s > e {
        assert(out.len() == 0);
    } else if bs.len() == 0 {
        assert(out == seq![TimeRange(s as u32, e as u32)]);
        assert(wf_range(out[0]) && s <= out[0].0 && out[0].1 <= e);
    } else {
        let b = bs[0];
        let tail = bs.drop_first();
        assert forall|k: int| 0 <= k < tail.len() implies wf_range(#[trigger] tail[k]) by {
            assert(tail[k] == bs[k + 1]);
        }
        assert forall|i: int, j: int| 0 <= i < j < tail.len() implies (#[trigger] tail[i]).0 <= (
        #[trigger] tail[j]).0 by {
            assert(tail[i] == bs[i + 1] && tail[j] == bs[j + 1]);
        }
        if b.1 < s {
            lemma_carve_shape(s, e, tail);
            assert(out == carve(s, e, tail));
        } else if b.0 > e {
            assert(out == seq![TimeRange(s as u32, e as u32)]);
            assert(wf_range(out[0]) && s <= out[0].0 && out[0].1 <= e);
        } else if b.0 <= s {
            lemma_carve_shape(b.1 + 1, e, tail);
            assert(out == carve(b.1 + 1, e, tail));
            assert forall|k: int| 0 <= k < out.len() implies wf_range(#[trigger] out[k]) && s
                <= out[k].0 && out[k].1 <= e by {
                assert(out[k] == carve(b.1 + 1, e, tail)[k]);
            }
        } else {
            lemma_carve_shape(b.1 + 1, e, tail);
            let rec = carve(b.1 + 1, e, tail);
            assert(out == seq![TimeRange(s as u32, (b.0 - 1) as u32)] + rec);
            assert forall|k: int| 0 <= k < out.len() implies wf_range(#[trigger] out[k]) && s
                <= out[k].0 && out[k].1 <= e by {
                if k >= 1 {
                    assert(out[k] == rec[k - 1]);
                } else {
                    assert(out[0] == TimeRange(s as u32, (b.0 - 1) as u32));
                }
            }
            assert forall|i: int, j: int| 0 <= i < j < out.len() implies (#[trigger] out[i]).0
                <= (#[trigger] out[j]).0 by {
                if i >= 1 {
                    assert(out[i] == rec[i - 1] && out[j] == rec[j - 1]);
                } else {
                    assert(out[0] == TimeRange(s as u32, (b.0 - 1) as u32));
                    assert(out[j] == rec[j - 1]);
                    assert(rec[j - 1].0 >= b.1 + 1);
                }
            }
        }
    }
}

/// With a well-formed, sorted, non-overlapping master list, a participant's
/// availability comes out well formed and ascending by start.
pub proof fn lemma_user_avail_shape(master: Seq<TimeRange>, blocked: Seq<TimeRange>)
    requires
        forall|k: int| 0 <= k < master.len() ==> wf_range(#[trigger] master[k]),
        sorted_lex(master),
        !adj_overlap(master),
        forall|k: int| 0 <= k < blocked.len() ==> wf_range(#[trigger] blocked[k]),
        forall|i: int, j: int|
            0 <= i < j < blocked.len() ==> (#[trigger] blocked[i]).0 <= (#[trigger] blocked[j]).0,
    ensures
        forall|k: int|
            0 <= k < user_avail(master, blocked).len() ==> wf_range(
                #[trigger] user_avail(master, blocked)[k],
            ),
        forall|i: int, j: int|
            0 <= i < j < user_avail(master, blocked).len() ==> (#[trigger] user_avail(
                master,
                blocked,
            )[i]).0 <= (#[trigger] user_avail(master, blocked)[j]).0,
        master.len() > 0 ==> forall|k: int|
            0 <= k < user_avail(master, blocked).len() ==> (#[trigger] user_avail(
                master,
                blocked,
            )[k]).1 <= master.last().1,
    decreases master.len(),
{
    if blocked.len() == 0 {
        if master.len() > 0 {
            assert forall|k: int| 0 <= k < master.len() implies (#[trigger] master[k]).1
                <= master.last().1 by {
                if k < master.len() - 1 {
                    lemma_master_ends_ascend(master, k);
                }
            }
        }
    } else if master.len() == 0 {
    } else {
        let front = master.drop_last();
        let last = master.last();
        assert forall|k: int| 0 <= k < front.len() implies wf_range(#[trigger] front[k]) by {
            assert(front[k] == master[k]);
        }
        assert(sorted_lex(front)) by {
            assert(forall|i: int, j: int|
                0 <= i < j < front.len() ==> front[i] == master[i] && front[j] == master[j]);
        }
        assert(!adj_overlap(front)) by {
            if adj_overlap(front) {
                let k = choose|k: int| 0 <= k < front.len() - 1 && (#[trigger] front[k]).1
                    >= front[k + 1].0;
                assert(master[k].1 >= master[k + 1].0);
            }
        }
        lemma_user_avail_shape(front, blocked);
        lemma_carve_shape(last.0 as int, last.1 as int, blocked);
        let fparts = concat_carve(front, blocked);
        let lparts = carve(last.0 as int, last.1 as int, blocked);
        assert(user_avail(master, blocked) == fparts + lparts);
        assert(front.len() > 0 ==> fparts == user_avail(front, blocked));
        assert(front.len() == 0 ==> fparts.len() == 0);
        assert forall|u: int, v: int|
            0 <= u < fparts.len() && 0 <= v < lparts.len() implies (#[trigger] fparts[u]).0 <= (
        #[trigger] lparts[v]).0 by {
            assert(front.len() > 0);
            assert(fparts[u].1 <= front.last().1);
            assert(front.last() == master[master.len() - 2]);
            assert(master[master.len() - 2].1 < last.0);
            assert(lparts[v].0 >= last.0);
        }
        if master.len() > 0 {
            assert forall|k: int| 0 <= k < user_avail(master, blocked).len() implies (
            #[trigger] user_avail(master, blocked)[k]).1 <= master.last().1 by {
                if k < fparts.len() {
                    assert(front.len() > 0);
                    assert(user_avail(master, blocked)[k] == fparts[k]);
                    assert(fparts[k].1 <= front.last().1);
                    assert(front.last() == master[master.len() - 2]);
                    lemma_master_ends_ascend(master, master.len() - 2);
                } else {
                    assert(user_avail(master, blocked)[k] == lparts[k - fparts.len()]);
                }
            }
        }
    }
}

/// In a well-formed, sorted, non-overlapping list, ends ascend too.
proof fn lemma_master_ends_ascend(master: Seq<TimeRange>, k: int)
    requires
        forall|k2: int| 0 <= k2 < master.len() ==> wf_range(#[trigger] master[k2]),
        sorted_lex(master),
        !adj_overlap(master),
        0 <= k < master.len() - 1,
    ensures
        master[k].1 < master[master.len() - 1].1,
    decreases master.len() - k,
{
    assert(master[k].1 < master[k + 1].0);
    if k + 1 < master.len() - 1 {
        lemma_master_ends_ascend(master, k + 1);
    }
}

/// Participant availability, point by point: a grid point is available
/// exactly when the master list allows it and the participant's
/// start-sorted blocked list does not cover it.
pub proof fn lemma_user_avail_covered(master: Seq<TimeRange>, blocked: Seq<TimeRange>, p: int)
    requires
        forall|k: int| 0 <= k < blocked.len() ==> wf_range(#[trigger] blocked[k]),
        forall|i: int, j: int|
            0 <= i < j < blocked.len() ==> (#[trigger] blocked[i]).0 <= (#[trigger] blocked[j]).0,
    ensures
        covered(user_avail(master, blocked), p) == (covered(master, p) && !covered(blocked, p)),
    decreases master.len(),
{
    if blocked.len() == 0 {
    } else if master.len() == 0 {
        assert(!covered(master, p));
    } else {
        let front = master.drop_last();
        let last = master.last();
        lemma_user_avail_covered(front, blocked, p);
        lemma_carve_covered(last.0 as int, last.1 as int, blocked, p);
        lemma_covered_concat(
            concat_carve(front, blocked),
            carve(last.0 as int, last.1 as int, blocked),
            p,
        );
        assert(covered(master, p) == (covered(front, p) || in_range(last, p))) by {
            if covered(master, p) {
                let i = choose|i: int| 0 <= i < master.len() && in_range(master[i], p);
                if i < master.len() - 1 {
                    assert(in_range(front[i], p));
                }
            }
            if covered(front, p) {
                let i = choose|i: int| 0 <= i < front.len() && in_range(front[i], p);
                assert(in_range(master[i], p));
            }
            if in_range(last, p) {
                assert(in_range(master[master.len() - 1], p));
            }
        }
    }
}

/// The availability of the first participant with the given identifier, or
/// nothing when nobody carries it.
pub open spec fn avail_of(id: Seq<char>, parts: Seq<Participant>) -> Seq<TimeRange>
    decreases parts.len(),
{
    if parts.len() == 0 {
        Seq::empty()
    } else if parts[0].id@ == id {
        parts[0].available_times@
    } else {
        avail_of(id, parts.drop_first())
    }
}

/// Some participant carries the identifier.
pub open spec fn has_part(id: Seq<char>, parts: Seq<Participant>) -> bool {
    exists|j: int| 0 <= j < parts.len() && (#[trigger] parts[j]).id@ == id
}

/// Intersection of two availability lists, segment by segment: the pieces
/// where both are available, split at either list's boundaries.
pub open spec fn pair_inter(a: Seq<TimeRange>, b: Seq<TimeRange>) -> Seq<TimeRange>
    decreases a.len() + b.len(),
{
    if a.len() == 0 || b.len() == 0 {
        Seq::empty()
    } else {
        let x = a[0];
        let y = b[0];
        if x.1 < y.0 {
            pair_inter(a.drop_first(), b)
        } else if y.1 < x.0 {
            pair_inter(a, b.drop_first())
        } else {
            let lo = if x.0 > y.0 {
                x.0
            } else {
                y.0
            };
            let hi = if x.1 < y.1 {
                x.1
            } else {
                y.1
            };
            seq![TimeRange(lo, hi)] + (if x.1 <= y.1 {
                pair_inter(a.drop_first(), b)
            } else {
                pair_inter(a, b.drop_first())
            })
        }
    }
}

/// The meeting-availability engine, point by point: the intersection of two
/// start-sorted, well-formed availability lists covers exactly the points
/// both cover.
pub proof fn lemma_pair_inter_covered(a: Seq<TimeRange>, b: Seq<TimeRange>, p: int)
    requires
        forall|k: int| 0 <= k < a.len() ==> wf_range(#[trigger] a[k]),
        forall|k: int| 0 <= k < b.len() ==> wf_range(#[trigger] b[k]),
        forall|i: int, j: int|
            0 <= i < j < a.len() ==> (#[trigger] a[i]).0 <= (#[trigger] a[j]).0,
        forall|i: int, j: int|
            0 <= i < j < b.len() ==> (#[trigger] b[i]).0 <= (#[trigger] b[j]).0,
    ensures
        covered(pair_inter(a, b), p) == (covered(a, p) && covered(b, p)),
    decreases a.len() + b.len(),
{
    if a.len() == 0 || b.len() == 0 {
        assert(!covered(a, p) || !covered(b, p));
    } else {
        let x = a[0];
        let y = b[0];
        let ta = a.drop_first();
        let tb = b.drop_first();
        assert forall|k: int| 0 <= k < ta.len() implies wf_range(#[trigger] ta[k]) by {
            assert(ta[k] == a[k + 1]);
        }
        assert forall|k: int| 0 <= k < tb.len() implies wf_range(#[trigger] tb[k]) by {
            assert(tb[k] == b[k + 1]);
        }
        assert forall|i: int, j: int| 0 <= i < j < ta.len() implies (#[trigger] ta[i]).0 <= (
        #[trigger] ta[j]).0 by {
            assert(ta[i] == a[i + 1] && ta[j] == a[j + 1]);
        }
        assert forall|i: int, j: int| 0 <= i < j < tb.len() implies (#[trigger] tb[i]).0 <= (
        #[trigger] tb[j]).0 by {
            assert(tb[i] == b[i + 1] && tb[j] == b[j + 1]);
        }
        assert forall|q: int| covered(a, q) == (in_range(x, q) || covered(ta, q)) by {
            if covered(a, q) {
                let i = choose|i: int| 0 <= i < a.len() && in_range(a[i], q);
                if i > 0 {
                    assert(in_range(ta[i - 1], q));
                }
            }
            if covered(ta, q) {
                let i = choose|i: int| 0 <= i < ta.len() && in_range(ta[i], q);
                assert(in_range(a[i + 1], q));
            }
            if in_range(x, q) {
                assert(in_range(a[0], q));
            }
        }
        assert forall|q: int| covered(b, q) == (in_range(y, q) || covered(tb, q)) by {
            if covered(b, q) {
                let i = choose|i: int| 0 <= i < b.len() && in_range(b[i], q);
                if i > 0 {
                    assert(in_range(tb[i - 1], q));
                }
            }
            if covered(tb, q) {
                let i = choose|i: int| 0 <= i < tb.len() && in_range(tb[i], q);
                assert(in_range(b[i + 1], q));
            }
            if in_range(y, q) {
                assert(in_range(b[0], q));
            }
        }
        if x.1 < y.0 {
            lemma_pair_inter_covered(ta, b, p);
            if in_range(x, p) && covered(b, p) {
                let k = choose|k: int| 0 <= k < b.len() && in_range(b[k], p);
                assert(b[0].0 <= b[k].0);
                assert(false);
            }
        } else if y.1 < x.0 {
            lemma_pair_inter_covered(a, tb, p);
            if in_range(y, p) && covered(a, p) {
                let k = choose|k: int| 0 <= k < a.len() && in_range(a[k], p);
                assert(a[0].0 <= a[k].0);
                assert(false);
            }
        } else {
            let lo = if x.0 > y.0 {
                x.0
            } else {
                y.0
            };
            let hi = if x.1 < y.1 {
                x.1
            } else {
                y.1
            };
            let piece = seq![TimeRange(lo, hi)];
            assert forall|q: int| covered(piece, q) == (lo <= q <= hi) by {
                if covered(piece, q) {
                    let i = choose|i: int| 0 <= i < 1 && in_range(piece[i], q);
                    assert(i == 0);
                }
                if lo <= q <= hi {
                    assert(in_range(piece[0], q));
                }
            }
            if x.1 <= y.1 {
                lemma_pair_inter_covered(ta, b, p);
                lemma_covered_concat(piece, pair_inter(ta, b), p);
                if in_range(x, p) && covered(b, p) && !(lo <= p <= hi) {
                    let k = choose|k: int| 0 <= k < b.len() && in_range(b[k], p);
                    assert(b[0].0 <= b[k].0);
                    assert(false);
                }
            } else {
                lemma_pair_inter_covered(a, tb, p);
                lemma_covered_concat(piece, pair_inter(a, tb), p);
                if in_range(y, p) && covered(a, p) && !(lo <= p <= hi) {
                    let k = choose|k: int| 0 <= k < a.len() && in_range(a[k], p);
                    assert(a[0].0 <= a[k].0);
                    assert(false);
                }
            }
        }
    }
}

/// The times every listed participant is simultaneously available.
pub open spec fn joint_avail(ids: Seq<String>, parts: Seq<Participant>) -> Seq<TimeRange>
    decreases ids.len(),
{
    if ids.len() == 0 {
        Seq::empty()
    } else if ids.len() == 1 {
        avail_of(ids[0]@, parts)
    } else {
        pair_inter(joint_avail(ids.drop_last(), parts), avail_of(ids.last()@, parts))
    }
}

/// Intersecting start-sorted, well-formed lists yields a start-sorted,
/// well-formed list whose stretches start no earlier than either head.
pub proof fn lemma_pair_inter_shape(a: Seq<TimeRange>, b: Seq<TimeRange>)
    requires
        forall|k: int| 0 <= k < a.len() ==> wf_range(#[trigger] a[k]),
        forall|k: int| 0 <= k < b.len() ==> wf_range(#[trigger] b[k]),
        forall|i: int, j: int|
            0 <= i < j < a.len() ==> (#[trigger] a[i]).0 <= (#[trigger] a[j]).0,
        forall|i: int, j: int|
            0 <= i < j < b.len() ==> (#[trigger] b[i]).0 <= (#[trigger] b[j]).0,
    ensures
        forall|k: int|
            0 <= k < pair_inter(a, b).len() ==> wf_range(#[trigger] pair_inter(a, b)[k]) && (
            a.len() > 0 ==> pair_inter(a, b)[k].0 >= a[0].0) && (b.len() > 0 ==> pair_inter(
                a,
                b,
            )[k].0 >= b[0].0),
        forall|i: int, j: int|
            0 <= i < j < pair_inter(a, b).len() ==> (#[trigger] pair_inter(a, b)[i]).0 <= (
            #[trigger] pair_inter(a, b)[j]).0,
    decreases a.len() + b.len(),
{
    let out = pair_inter(a, b);
    if a.len() == 0 || b.len() == 0 {
    } else {
        let x = a[0];
        let y = b[0];
        let ta = a.drop_first();
        let tb = b.drop_first();
        assert forall|k: int| 0 <= k < ta.len() implies wf_range(#[trigger] ta[k]) by {
            assert(ta[k] == a[k + 1]);
        }
        assert forall|k: int| 0 <= k < tb.len() implies wf_range(#[trigger] tb[k]) by {
            assert(tb[k] == b[k + 1]);
        }
        assert forall|i: int, j: int| 0 <= i < j < ta.len() implies (#[trigger] ta[i]).0 <= (
        #[trigger] ta[j]).0 by {
            assert(ta[i] == a[i + 1] && ta[j] == a[j + 1]);
        }
        assert forall|i: int, j: int| 0 <= i < j < tb.len() implies (#[trigger] tb[i]).0 <= (
        #[trigger] tb[j]).0 by {
            assert(tb[i] == b[i + 1] && tb[j] == b[j + 1]);
        }
        assert(ta.len() > 0 ==> ta[0].0 >= a[0].0) by {
            if ta.len() > 0 {
                assert(ta[0] == a[1]);
            }
        }
        assert(tb.len() > 0 ==> tb[0].0 >= b[0].0) by {
            if tb.len() > 0 {
                assert(tb[0] == b[1]);
            }
        }
        if x.1 < y.0 {
            lemma_pair_inter_shape(ta, b);
            assert(out == pair_inter(ta, b));
        } else if y.1 < x.0 {
            lemma_pair_inter_shape(a, tb);
            assert(out == pair_inter(a, tb));
        } else {
            let lo = if x.0 > y.0 {
                x.0
            } else {
                y.0
            };
            let hi = if x.1 < y.1 {
                x.1
            } else {
                y.1
            };
            let piece = TimeRange(lo, hi);
            if x.1 <= y.1 {
                lemma_pair_inter_shape(ta, b);
                let rec = pair_inter(ta, b);
                assert(out == seq![piece] + rec);
                assert forall|k: int| 0 <= k < out.len() implies wf_range(#[trigger] out[k]) && (
                a.len() > 0 ==> out[k].0 >= a[0].0) && (b.len() > 0 ==> out[k].0 >= b[0].0) by {
                    if k >= 1 {
                        assert(out[k] == rec[k - 1]);
                    } else {
                        assert(out[0] == piece);
                    }
                }
                assert forall|i: int, j: int| 0 <= i < j < out.len() implies (
                #[trigger] out[i]).0 <= (#[trigger] out[j]).0 by {
                    if i >= 1 {
                        assert(out[i] == rec[i - 1] && out[j] == rec[j - 1]);
                    } else {
                        assert(out[0] == piece && out[j] == rec[j - 1]);
                    }
                }
            } else {
                lemma_pair_inter_shape(a, tb);
                let rec = pair_inter(a, tb);
                assert(out == seq![piece] + rec);
                assert forall|k: int| 0 <= k < out.len() implies wf_range(#[trigger] out[k]) && (
                a.len() > 0 ==> out[k].0 >= a[0].0) && (b.len() > 0 ==> out[k].0 >= b[0].0) by {
                    if k >= 1 {
                        assert(out[k] == rec[k - 1]);
                    } else {
                        assert(out[0] == piece);
                    }
                }
                assert forall|i: int, j: int| 0 <= i < j < out.len() implies (
                #[trigger] out[i]).0 <= (#[trigger] out[j]).0 by {
                    if i >= 1 {
                        assert(out[i] == rec[i - 1] && out[j] == rec[j - 1]);
                    } else {
                        assert(out[0] == piece && out[j] == rec[j - 1]);
                    }
                }
            }
        }
    }
}

/// A looked-up availability list is one of the participants' lists (or
/// nothing), so it inherits their well-formedness and ordering.
proof fn lemma_avail_of_shape(id: Seq<char>, parts: Seq<Participant>)
    requires
        forall|u: int, k: int|
            0 <= u < parts.len() && 0 <= k < parts[u].available_times@.len() ==> wf_range(
                #[trigger] parts[u].available_times@[k],
            ),
        forall|u: int, i: int, j: int|
            0 <= u < parts.len() && 0 <= i < j < parts[u].available_times@.len() ==> (
            #[trigger] parts[u].available_times@[i]).0 <= (
            #[trigger] parts[u].available_times@[j]).0,
    ensures
        forall|k: int|
            0 <= k < avail_of(id, parts).len() ==> wf_range(#[trigger] avail_of(id, parts)[k]),
        forall|i: int, j: int|
            0 <= i < j < avail_of(id, parts).len() ==> (#[trigger] avail_of(id, parts)[i]).0 <= (
            #[trigger] avail_of(id, parts)[j]).0,
    decreases parts.len(),
{
    if parts.len() == 0 {
    } else if parts[0].id@ == id {
        assert(avail_of(id, parts) == parts[0].available_times@);
    } else {
        let tail = parts.drop_first();
        assert forall|u: int, k: int|
            0 <= u < tail.len() && 0 <= k < tail[u].available_times@.len() implies wf_range(
            #[trigger] tail[u].available_times@[k],
        ) by {
            assert(tail[u] == parts[u + 1]);
        }
        assert forall|u: int, i: int, j: int|
            0 <= u < tail.len() && 0 <= i < j < tail[u].available_times@.len() implies (
        #[trigger] tail[u].available_times@[i]).0 <= (
        #[trigger] tail[u].available_times@[j]).0 by {
            assert(tail[u] == parts[u + 1]);
        }
        lemma_avail_of_shape(id, tail);
        assert(avail_of(id, parts) == avail_of(id, tail));
    }
}

/// The joint availability of any id list stays well formed and start
/// sorted, as long as every participant's list is.
proof fn lemma_joint_avail_shape(ids: Seq<String>, parts: Seq<Participant>)
    requires
        forall|u: int, k: int|
            0 <= u < parts.len() && 0 <= k < parts[u].available_times@.len() ==> wf_range(
                #[trigger] parts[u].available_times@[k],
            ),
        forall|u: int, i: int, j: int|
            0 <= u < parts.len() && 0 <= i < j < parts[u].available_times@.len() ==> (
            #[trigger] parts[u].available_times@[i]).0 <= (
            #[trigger] parts[u].available_times@[j]).0,
    ensures
        forall|k: int|
            0 <= k < joint_avail(ids, parts).len() ==> wf_range(
                #[trigger] joint_avail(ids, parts)[k],
            ),
        forall|i: int, j: int|
            0 <= i < j < joint_avail(ids, parts).len() ==> (#[trigger] joint_avail(
                ids,
                parts,
            )[i]).0 <= (#[trigger] joint_avail(ids, parts)[j]).0,
    decreases ids.len(),
{
    if ids.len() == 0 {
    } else if ids.len() == 1 {
        lemma_avail_of_shape(ids[0]@, parts);
    } else {
        lemma_joint_avail_shape(ids.drop_last(), parts);
        lemma_avail_of_shape(ids.last()@, parts);
        lemma_pair_inter_shape(joint_avail(ids.drop_last(), parts), avail_of(ids.last()@, parts));
    }
}

/// Meeting availability, point by point: a grid point is jointly available
/// exactly when every listed participant's availability covers it, as long
/// as every participant's list is well formed and start sorted — the shape
/// the participant step produces.
pub proof fn lemma_joint_avail_covered(ids: Seq<String>, parts: Seq<Participant>, p: int)
    requires
        ids.len() >= 1,
        forall|u: int, k: int|
            0 <= u < parts.len() && 0 <= k < parts[u].available_times@.len() ==> wf_range(
                #[trigger] parts[u].available_times@[k],
            ),
        forall|u: int, i: int, j: int|
            0 <= u < parts.len() && 0 <= i < j < parts[u].available_times@.len() ==> (
            #[trigger] parts[u].available_times@[i]).0 <= (
            #[trigger] parts[u].available_times@[j]).0,
    ensures
        covered(joint_avail(ids, parts), p) == forall|u: int|
            0 <= u < ids.len() ==> covered(avail_of((#[trigger] ids[u])@, parts), p),
    decreases ids.len(),
{
    if ids.len() == 1 {
        assert(joint_avail(ids, parts) == avail_of(ids[0]@, parts));
        if covered(avail_of(ids[0]@, parts), p) {
            assert(forall|u: int|
                0 <= u < ids.len() ==> covered(avail_of((#[trigger] ids[u])@, parts), p));
        }
    } else {
        let front = ids.drop_last();
        lemma_joint_avail_covered(front, parts, p);
        lemma_joint_avail_shape(front, parts);
        lemma_avail_of_shape(ids.last()@, parts);
        lemma_pair_inter_covered(
            joint_avail(front, parts),
            avail_of(ids.last()@, parts),
            p,
        );
        assert(joint_avail(ids, parts) == pair_inter(
            joint_avail(front, parts),
            avail_of(ids.last()@, parts),
        ));
        assert(covered(joint_avail(ids, parts), p) == (covered(joint_avail(front, parts), p)
            && covered(avail_of(ids.last()@, parts), p)));
        if covered(joint_avail(ids, parts), p) {
            assert forall|u: int| 0 <= u < ids.len() implies covered(
                avail_of((#[trigger] ids[u])@, parts),
                p,
            ) by {
                if u < ids.len() - 1 {
                    assert(front[u] == ids[u]);
                    assert(covered(avail_of((front[u])@, parts), p));
                } else {
                    assert(ids[u] == ids.last());
                }
            }
        }
        if forall|u: int| 0 <= u < ids.len() ==> covered(avail_of((#[trigger] ids[u])@, parts), p) {
            assert forall|u: int| 0 <= u < front.len() implies covered(
                avail_of((#[trigger] front[u])@, parts),
                p,
            ) by {
                assert(front[u] == ids[u]);
            }
            assert(covered(avail_of(ids.last()@, parts), p)) by {
                assert(ids.last() == ids[ids.len() - 1]);
            }
        }
    }
}

/// Looks up the first participant with the given identifier and copies their
/// availability.
fn find_avail(id: &String, parts: &Vec<Participant>) -> (r: Vec<TimeRange>)
    requires
        has_part(id@, parts@),
    ensures
        r@ == avail_of(id@, parts@),
{
    let mut j: usize = 0;
    proof {
        assert(parts@.skip(0) =~= parts@);
    }
    while j < parts.len()
        invariant
            j <= parts@.len(),
            has_part(id@, parts@.skip(j as int)),
            avail_of(id@, parts@.skip(j as int)) == avail_of(id@, parts@),
        decreases parts@.len() - j,
    {
        proof {
            assert(parts@.skip(j as int)[0] == parts@[j as int]);
            assert(parts@.skip(j as int).drop_first() =~= parts@.skip(j as int + 1));
        }
        if parts[j].id == *id {
            let r = copy_ranges(&parts[j].available_times);
            proof {
                assert(avail_of(id@, parts@.skip(j as int)) == parts@[j as int].available_times@);
            }
            return r;
        }
        proof {
            let w = choose|w: int|
                0 <= w < parts@.skip(j as int).len() && (#[trigger] parts@.skip(j as int)[w]).id@
                    == id@;
            assert(w != 0);
            assert(parts@.skip(j as int + 1)[w - 1].id@ == id@);
        }
        j += 1;
    }
    proof {
        assert(false);
    }
    Vec::new()
}

/// Intersects two availability lists.
fn pair_intersect(a: &Vec<TimeRange>, b: &Vec<TimeRange>) -> (r: Vec<TimeRange>)
    ensures
        r@ == pair_inter(a@, b@),
{
    let mut out: Vec<TimeRange> = Vec::new();
    let mut i: usize = 0;
    let mut j: usize = 0;
    proof {
        assert(a@.skip(0) =~= a@);
        assert(b@.skip(0) =~= b@);
    }
    while i < a.len() && j < b.len()
        invariant
            i <= a@.len(),
            j <= b@.len(),
            out@ + pair_inter(a@.skip(i as int), b@.skip(j as int)) =~= pair_inter(a@, b@),
        decreases a@.len() + b@.len() - i - j,
    {
        proof {
            assert(a@.skip(i as int)[0] == a@[i as int]);
            assert(b@.skip(j as int)[0] == b@[j as int]);
            assert(a@.skip(i as int).drop_first() =~= a@.skip(i as int + 1));
            assert(b@.skip(j as int).drop_first() =~= b@.skip(j as int + 1));
        }
        let x = a[i];
        let y = b[j];
        if x.1 < y.0 {
            i += 1;
        } else if y.1 < x.0 {
            j += 1;
        } else {
            let lo = if x.0 > y.0 {
                x.0
            } else {
                y.0
            };
            let hi = if x.1 < y.1 {
                x.1
            } else {
                y.1
            };
            out.push(TimeRange(lo, hi));
            if x.1 <= y.1 {
                i += 1;
            } else {
                j += 1;
            }
        }
    }
    proof {
        assert(pair_inter(a@.skip(i as int), b@.skip(j as int)) =~= Seq::<TimeRange>::empty());
        assert(out@ =~= out@ + Seq::<TimeRange>::empty());
    }
    out
}

/// Intersects the availability of every listed participant.
fn compute_joint(ids: &Vec<String>, parts: &Vec<Participant>) -> (r: Vec<TimeRange>)
    requires
        forall|u: int| 0 <= u < ids@.len() ==> has_part((#[trigger] ids@[u])@, parts@),
    ensures
        r@ == joint_avail(ids@, parts@),
{
    if ids.len() == 0 {
        let r: Vec<TimeRange> = Vec::new();
        return r;
    }
    let mut acc = find_avail(&ids[0], parts);
    proof {
        assert(ids@.take(1)[0] == ids@[0]);
        assert(acc@ == joint_avail(ids@.take(1), parts@));
    }
    let mut i: usize = 1;
    while i < ids.len()
        invariant
            1 <= i <= ids@.len(),
            forall|u: int| 0 <= u < ids@.len() ==> has_part((#[trigger] ids@[u])@, parts@),
            acc@ == joint_avail(ids@.take(i as int), parts@),
        decreases ids@.len() - i,
    {
        let other = find_avail(&ids[i], parts);
        let joined = pair_intersect(&acc, &other);
        proof {
            assert(ids@.take(i as int + 1).drop_last() =~= ids@.take(i as int));
            assert(ids@.take(i as int + 1).last() == ids@[i as int]);
            assert(ids@.take(i as int + 1).len() >= 2);
        }
        acc = joined;
        i += 1;
    }
    proof {
        assert(ids@.take(ids@.len() as int) =~= ids@);
    }
    acc
}

/// Copies a list of identifiers.
fn copy_strings(xs: &Vec<String>) -> (r: Vec<String>)
    ensures
        r@ == xs@,
{
    let mut out: Vec<String> = Vec::new();
    let mut i: usize = 0;
    while i < xs.len()
        invariant
            i <= xs@.len(),
            out@ == xs@.take(i as int),
        decreases xs@.len() - i,
    {
        out.push(xs[i].clone());
        proof {
            assert(xs@.take(i as int + 1) =~= xs@.take(i as int).push(xs@[i as int]));
        }
        i += 1;
    }
    proof {
        assert(xs@.take(xs@.len() as int) =~= xs@);
    }
    out
}

impl Input {
    /// Computes each participant's availability: the master list with the
    /// participant's blocked times carved out, keeping the master list's
    /// segmentation. A fresh input is sorted first; an empty master list
    /// leaves everything untouched.
    pub fn get_user_availability(&mut self) -> (r: Result<(), ValidationError>)
        ensures
            final(self).meetings == old(self).meetings,
            final(self).participants@.len() == old(self).participants@.len(),
            forall|k: int|
                0 <= k < final(self).participants@.len() ==> {
                    let np = #[trigger] final(self).participants@[k];
                    let op = old(self).participants@[k];
                    np.id == op.id && np.blocked_times@.to_multiset()
                        == op.blocked_times@.to_multiset()
                },
            final(self).available_time_range@.to_multiset()
                == old(self).available_time_range@.to_multiset(),
            !(old(self).status == Status::New || old(self).status == Status::Validated)
                ==> final(self).available_time_range@ == old(self).available_time_range@ && forall|
                k: int,
            |
                0 <= k < final(self).participants@.len()
                    ==> (#[trigger] final(self).participants@[k]).blocked_times@ == old(
                    self,
                ).participants@[k].blocked_times@,
            match r {
                Ok(()) => {
                    &&& if final(self).available_time_range@.len() == 0 {
                        forall|k: int|
                            0 <= k < final(self).participants@.len()
                                ==> (#[trigger] final(self).participants@[k]).available_times@
                                == old(self).participants@[k].available_times@
                    } else {
                        (forall|k: int|
                            0 <= k < final(self).participants@.len() ==> {
                                let np = #[trigger] final(self).participants@[k];
                                np.available_times@ == user_avail(
                                    final(self).available_time_range@,
                                    np.blocked_times@,
                                )
                            }) && final(self).status == Status::FoundUserAvailability
                    }
                    &&& ((old(self).status == Status::New || old(self).status == Status::Validated)
                        ==> sorted_lex(final(self).available_time_range@) && !adj_overlap(
                        final(self).available_time_range@,
                    ) && forall|k: int|
                        0 <= k < final(self).participants@.len() ==> {
                            let b = (#[trigger] final(self).participants@[k]).blocked_times@;
                            sorted_lex(b) && !adj_overlap(b)
                        })
                },
                Err(e) => {
                    &&& (old(self).status == Status::New || old(self).status == Status::Validated)
                    &&& (e matches ValidationError::UnsupportedLength { expected, found } ==> (
                    (expected == 168 && old(self).status == Status::New && found == old(
                        self,
                    ).available_time_range@.len() && found > 168) || (expected == 100 && old(
                        self,
                    ).status == Status::New && old(self).available_time_range@.len() <= 168
                        && found == old(self).participants@.len() && found > 100) || (expected
                        == 168 && found > 168 && exists|k: int|
                        0 <= k < old(self).participants@.len() && (#[trigger] old(
                            self,
                        ).participants@[k]).blocked_times@.len() == found)))
                    &&& (e is OverlappingTimeRange ==> (exists|k: int|
                        0 <= k < final(self).participants@.len() && {
                            let b = (#[trigger] final(self).participants@[k]).blocked_times@;
                            sorted_lex(b) && adj_overlap(b)
                        }) || (sorted_lex(final(self).available_time_range@) && adj_overlap(
                        final(self).available_time_range@,
                    )))
                },
            },
    {
        if matches!(self.status, Status::New) || matches!(self.status, Status::Validated) {
            match self.sort() {
                Err(e) => {
                    return Err(e);
                },
                Ok(()) => {},
            }
        }
        if self.available_time_range.len() == 0 {
            return Ok(());
        }
        let ghost master = self.available_time_range@;
        let ghost ops = self.participants@;
        let mut new_parts: Vec<Participant> = Vec::new();
        let mut k: usize = 0;
        while k < self.participants.len()
            invariant
                k <= ops.len(),
                self.participants@ == ops,
                self.available_time_range@ == master,
                new_parts@.len() == k,
                forall|u: int|
                    0 <= u < k ==> {
                        let np = #[trigger] new_parts@[u];
                        let op = ops[u];
                        np.id == op.id && np.blocked_times@ == op.blocked_times@
                            && np.available_times@ == user_avail(master, op.blocked_times@)
                    },
            decreases ops.len() - k,
        {
            let p = &self.participants[k];
            let av: Vec<TimeRange> = if p.blocked_times.len() == 0 {
                copy_ranges(&self.available_time_range)
            } else {
                let mut acc: Vec<TimeRange> = Vec::new();
                let mut i: usize = 0;
                while i < self.available_time_range.len()
                    invariant
                        i <= master.len(),
                        self.available_time_range@ == master,
                        p.blocked_times@ == ops[k as int].blocked_times@,
                        k < ops.len(),
                        self.participants@ == ops,
                        acc@ == concat_carve(master.take(i as int), p.blocked_times@),
                    decreases master.len() - i,
                {
                    let t = self.available_time_range[i];
                    carve_into(t.0, t.1, &p.blocked_times, &mut acc);
                    proof {
                        assert(master.take(i as int + 1).drop_last() =~= master.take(i as int));
                        assert(master.take(i as int + 1).last() == master[i as int]);
                    }
                    i += 1;
                }
                proof {
                    assert(master.take(master.len() as int) =~= master);
                }
                acc
            };
            new_parts.push(
                Participant {
                    id: p.id.clone(),
                    blocked_times: copy_ranges(&p.blocked_times),
                    available_times: av,
                },
            );
            k += 1;
        }
        self.participants = new_parts;
        self.status = Status::FoundUserAvailability;
        Ok(())
    }

    /// Computes each meeting's availability: the stretches where every one
    /// of its participants is simultaneously available, kept where long
    /// enough for the meeting, appended to whatever the meeting already
    /// held. Runs the participant step first when it has not run yet.
    pub fn get_meeting_availability(&mut self) -> (r: Result<(), ValidationError>)
        requires
            forall|k: int|
                0 <= k < old(self).meetings@.len() ==> (#[trigger] old(
                    self,
                ).meetings@[k]).duration >= 1,
            forall|k: int, u: int|
                0 <= k < old(self).meetings@.len() && 0 <= u < old(
                    self,
                ).meetings@[k].participant_ids@.len() ==> has_part(
                    (#[trigger] old(self).meetings@[k].participant_ids@[u])@,
                    old(self).participants@,
                ),
        ensures
            final(self).participants@.len() == old(self).participants@.len(),
            forall|k: int|
                0 <= k < final(self).participants@.len() ==> {
                    let np = #[trigger] final(self).participants@[k];
                    let op = old(self).participants@[k];
                    np.id == op.id && np.blocked_times@.to_multiset()
                        == op.blocked_times@.to_multiset()
                },
            match r {
                Ok(()) => {
                    &&& final(self).meetings@.len() == old(self).meetings@.len()
                    &&& forall|k: int|
                        0 <= k < final(self).meetings@.len() ==> {
                            let nm = #[trigger] final(self).meetings@[k];
                            let om = old(self).meetings@[k];
                            nm.id == om.id && nm.duration == om.duration && nm.participant_ids@
                                == om.participant_ids@ && nm.available_times@
                                == om.available_times@ + joint_avail(
                                om.participant_ids@,
                                final(self).participants@,
                            ).filter(crate::meeting::long_enough(om.duration as int))
                        }
                    &&& final(self).status == Status::FoundMeetingAvailability
                    &&& final(self).available_time_range@.to_multiset() == old(
                        self,
                    ).available_time_range@.to_multiset()
                    &&& ((old(self).status == Status::FoundUserAvailability || old(self).status
                        == Status::FoundMeetingAvailability) ==> final(self).participants == old(
                        self,
                    ).participants && final(self).available_time_range == old(
                        self,
                    ).available_time_range)
                    &&& ((old(self).status == Status::New || old(self).status == Status::Validated
                        || old(self).status == Status::Sorted) ==> {
                        &&& (if final(self).available_time_range@.len() == 0 {
                            forall|k: int|
                                0 <= k < final(self).participants@.len() ==> (#[trigger] final(self).participants@[k]).available_times@
                                    == old(self).participants@[k].available_times@
                        } else {
                            forall|k: int|
                                0 <= k < final(self).participants@.len() ==> {
                                    let np = #[trigger] final(self).participants@[k];
                                    np.available_times@ == user_avail(
                                        final(self).available_time_range@,
                                        np.blocked_times@,
                                    )
                                }
                        })
                        &&& (old(self).status == Status::Sorted
                            ==> final(self).available_time_range@ == old(self).available_time_range@
                            && forall|k: int|
                                0 <= k < final(self).participants@.len() ==> (#[trigger] final(self).participants@[k]).blocked_times@
                                    == old(self).participants@[k].blocked_times@)
                        &&& ((old(self).status == Status::New || old(self).status
                            == Status::Validated) ==> sorted_lex(
                            final(self).available_time_range@,
                        ) && !adj_overlap(final(self).available_time_range@) && forall|k: int|
                            0 <= k < final(self).participants@.len() ==> {
                                let b = (#[trigger] final(self).participants@[k]).blocked_times@;
                                sorted_lex(b) && !adj_overlap(b)
                            })
                    })
                },
                Err(e) => {
                    &&& (old(self).status == Status::New || old(self).status == Status::Validated)
                    &&& final(self).meetings == old(self).meetings
                    &&& (e matches ValidationError::UnsupportedLength { expected, found } ==> (
                    (expected == 168 && old(self).status == Status::New && found == old(
                        self,
                    ).available_time_range@.len() && found > 168) || (expected == 100 && old(
                        self,
                    ).status == Status::New && old(self).available_time_range@.len() <= 168
                        && found == old(self).participants@.len() && found > 100) || (expected
                        == 168 && found > 168 && exists|k: int|
                        0 <= k < old(self).participants@.len() && (#[trigger] old(
                            self,
                        ).participants@[k]).blocked_times@.len() == found)))
                    &&& (e is OverlappingTimeRange ==> (exists|k: int|
                        0 <= k < final(self).participants@.len() && {
                            let b = (#[trigger] final(self).participants@[k]).blocked_times@;
                            sorted_lex(b) && adj_overlap(b)
                        }) || (sorted_lex(final(self).available_time_range@) && adj_overlap(
                        final(self).available_time_range@,
                    )))
                },
            },
    {
        let ghost old_parts = old(self).participants@;
        match self.status {
            Status::New | Status::Sorted | Status::Validated => {
                match self.get_user_availability() {
                    Err(e) => {
                        return Err(e);
                    },
                    Ok(()) => {},
                }
            },
            _ => {},
        }
        proof {
            assert forall|k: int, u: int|
                0 <= k < self.meetings@.len() && 0 <= u
                    < self.meetings@[k].participant_ids@.len() implies has_part(
                (#[trigger] self.meetings@[k].participant_ids@[u])@,
                self.participants@,
            ) by {
                let id = self.meetings@[k].participant_ids@[u]@;
                let w = choose|w: int| 0 <= w < old_parts.len() && (#[trigger] old_parts[w]).id@ == id;
                assert(self.participants@[w].id == old_parts[w].id);
            }
        }
        let ghost parts = self.participants@;
        let ghost oms = self.meetings@;
        let mut new_meetings: Vec<Meeting> = Vec::new();
        let mut k: usize = 0;
        while k < self.meetings.len()
            invariant
                k <= oms.len(),
                self.meetings@ == oms,
                self.participants@ == parts,
                forall|k2: int, u: int|
                    0 <= k2 < oms.len() && 0 <= u < oms[k2].participant_ids@.len() ==> has_part(
                        (#[trigger] oms[k2].participant_ids@[u])@,
                        parts,
                    ),
                forall|k2: int| 0 <= k2 < oms.len() ==> (#[trigger] oms[k2]).duration >= 1,
                new_meetings@.len() == k,
                forall|u: int|
                    0 <= u < k ==> {
                        let nm = #[trigger] new_meetings@[u];
                        let om = oms[u];
                        nm.id == om.id && nm.duration == om.duration && nm.participant_ids@
                            == om.participant_ids@ && nm.available_times@ == om.available_times@
                            + joint_avail(om.participant_ids@, parts).filter(
                            crate::meeting::long_enough(om.duration as int),
                        )
                    },
            decreases oms.len() - k,
        {
            let m = &self.meetings[k];
            let joint = compute_joint(&m.participant_ids, &self.participants);
            let ghost js = joint@;
            let ghost pred = crate::meeting::long_enough(m.duration as int);
            let mut av = copy_ranges(&m.available_times);
            let ghost av0 = av@;
            let mut i: usize = 0;
            while i < joint.len()
                invariant
                    i <= js.len(),
                    joint@ == js,
                    pred == crate::meeting::long_enough(m.duration as int),
                    av@ == av0 + js.take(i as int).filter(pred),
                decreases js.len() - i,
            {
                let t = joint[i];
                proof {
                    assert(js.take(i as int + 1).drop_last() =~= js.take(i as int));
                    assert(js.take(i as int + 1).last() == js[i as int]);
                    reveal_with_fuel(Seq::filter, 2);
                }
                if (t.1 as u64) + 1 >= (t.0 as u64) + (m.duration as u64) {
                    av.push(t);
                    proof {
                        assert(pred(t));
                        assert(av@ =~= av0 + js.take(i as int + 1).filter(pred));
                    }
                } else {
                    proof {
                        assert(!pred(t));
                        assert(av@ =~= av0 + js.take(i as int + 1).filter(pred));
                    }
                }
                i += 1;
            }
            proof {
                assert(js.take(js.len() as int) =~= js);
            }
            new_meetings.push(
                Meeting {
                    id: m.id.clone(),
                    duration: m.duration,
                    participant_ids: copy_strings(&m.participant_ids),
                    available_times: av,
                },
            );
            k += 1;
        }
        self.meetings = new_meetings;
        self.status = Status::FoundMeetingAvailability;
        Ok(())
    }
}

} // verus!
