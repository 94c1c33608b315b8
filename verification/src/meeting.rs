//! Meetings to be scheduled: an identifier, a duration, and the union of the
//! participants' blocked times.

use vstd::prelude::*;
use vstd::string::StringExecFns;

use crate::participant::Participant;
use crate::time::{
    blocks, diff, is_diff_of, lemma_diff_is, merged, ranges_wf, time_merge, wf_range, TimeRange,
    Validate,
};

verus! {

/// A meeting before its participants' blocked times are folded together.
#[derive(Clone, Debug)]
pub struct MeetingParticipants {
    pub id: String,
    pub participants: Vec<Participant>,
    pub duration: u32,
}

/// A meeting to schedule: its blocked times are the union of its
/// participants' blocked times.
#[derive(Clone, Debug)]
pub struct Meeting {
    pub id: String,
    pub blocked_times: Vec<TimeRange>,
    pub duration: u32,
}

/// The blocked times of a list of participants, one after the other.
pub open spec fn all_blocked(ps: Seq<Participant>) -> Seq<TimeRange>
    decreases ps.len(),
{
    if ps.len() == 0 {
        Seq::empty()
    } else {
        all_blocked(ps.drop_last()) + ps.last().blocked_times@
    }
}

/// The ranges a meeting keeps from an availability list: long enough for its
/// duration.
pub open spec fn long_enough(d: int) -> spec_fn(TimeRange) -> bool {
    |t: TimeRange| t.1 - t.0 + 1 >= d
}

impl MeetingParticipants {
    /// Builds a meeting from the people who must attend it.
    pub fn new(id: &str, participants: Vec<Participant>, duration: u32) -> (r: MeetingParticipants)
        ensures
            r.id@ == id@,
            r.participants == participants,
            r.duration == duration,
    {
        MeetingParticipants { id: id.to_string(), participants, duration }
    }
}

impl Meeting {
    /// Builds a meeting directly from an already combined blocked list.
    pub fn new(id: &str, blocked_times: Vec<TimeRange>, duration: u32) -> (r: Meeting)
        ensures
            r.id@ == id@,
            r.blocked_times == blocked_times,
            r.duration == duration,
    {
        Meeting { id: id.to_string(), blocked_times, duration }
    }

    /// Folds the participants' blocked times into one merged blocked list for
    /// the meeting.
    pub fn from_participants(meeting: MeetingParticipants) -> (r: Meeting)
        requires
            forall|i: int, j: int|
                0 <= i < meeting.participants@.len() && 0 <= j
                    < meeting.participants@[i].blocked_times@.len() ==> wf_range(
                    #[trigger] meeting.participants@[i].blocked_times@[j],
                ),
        ensures
            r.id@ == meeting.id@,
            r.duration == meeting.duration,
            r.blocked_times@ == merged(all_blocked(meeting.participants@)),
    {
        let ghost ps = meeting.participants@;
        let mut all: Vec<TimeRange> = Vec::new();
        let mut i: usize = 0;
        while i < meeting.participants.len()
            invariant
                i <= ps.len(),
                meeting.participants@ == ps,
                forall|u: int, v: int|
                    0 <= u < ps.len() && 0 <= v < ps[u].blocked_times@.len() ==> wf_range(
                        #[trigger] ps[u].blocked_times@[v],
                    ),
                all@ == all_blocked(ps.take(i as int)),
            decreases ps.len() - i,
        {
            let p = &meeting.participants[i];
            let mut j: usize = 0;
            while j < p.blocked_times.len()
                invariant
                    j <= p.blocked_times@.len(),
                    p.blocked_times@ == ps[i as int].blocked_times@,
                    i < ps.len(),
                    all@ == all_blocked(ps.take(i as int)) + p.blocked_times@.take(j as int),
                decreases p.blocked_times@.len() - j,
            {
                all.push(p.blocked_times[j]);
                proof {
                    assert(p.blocked_times@.take(j as int + 1) =~= p.blocked_times@.take(
                        j as int,
                    ).push(p.blocked_times@[j as int]));
                    assert(all_blocked(ps.take(i as int)) + p.blocked_times@.take(j as int + 1)
                        =~= (all_blocked(ps.take(i as int)) + p.blocked_times@.take(j as int)).push(
                        p.blocked_times@[j as int],
                    ));
                }
                j += 1;
            }
            proof {
                assert(ps.take(i as int + 1).drop_last() =~= ps.take(i as int));
                assert(ps.take(i as int + 1).last() == ps[i as int]);
                assert(p.blocked_times@.take(p.blocked_times@.len() as int) =~= p.blocked_times@);
            }
            i += 1;
        }
        proof {
            assert(ps.take(ps.len() as int) =~= ps);
            assert forall|k: int| 0 <= k < all@.len() implies wf_range(#[trigger] all@[k]) by {
                lemma_all_blocked_wf(ps, k);
            }
        }
        let blocked_times = time_merge(&all);
        Meeting { id: meeting.id, blocked_times, duration: meeting.duration }
    }

    /// Subtracts the meeting's blocked times from the available times and
    /// keeps only the stretches long enough for the meeting's duration.
    pub fn get_availability(&self, available_times: &Vec<TimeRange>) -> (r: Vec<TimeRange>)
        requires
            forall|i: int|
                0 <= i < available_times@.len() ==> wf_range(#[trigger] available_times@[i]),
            forall|i: int|
                0 <= i < self.blocked_times@.len() ==> wf_range(#[trigger] self.blocked_times@[i]),
        ensures
            r@ == diff(available_times@, self.blocked_times@).filter(
                long_enough(self.duration as int),
            ),
            is_diff_of(
                diff(available_times@, self.blocked_times@),
                available_times@,
                self.blocked_times@,
            ),
    {
        let ghost pred = long_enough(self.duration as int);
        if available_times.len() == 0 {
            let r: Vec<TimeRange> = Vec::new();
            proof {
                assert(is_diff_of(r@, available_times@, self.blocked_times@));
                lemma_diff_is(r@, available_times@, self.blocked_times@);
                assert(Seq::<TimeRange>::empty().filter(pred) =~= Seq::<TimeRange>::empty());
            }
            return r;
        }
        let free = blocks(available_times, &self.blocked_times);
        let ghost fs = free@;
        proof {
            assert(crate::time::is_normal(fs));
            assert(is_diff_of(
                diff(available_times@, self.blocked_times@),
                available_times@,
                self.blocked_times@,
            ));
        }
        let mut out: Vec<TimeRange> = Vec::new();
        let mut i: usize = 0;
        while i < free.len()
            invariant
                i <= fs.len(),
                free@ == fs,
                forall|k: int| 0 <= k < fs.len() ==> wf_range(#[trigger] fs[k]),
                pred == long_enough(self.duration as int),
                out@ == fs.take(i as int).filter(pred),
            decreases fs.len() - i,
        {
            let t = free[i];
            proof {
                assert(fs.take(i as int + 1).drop_last() =~= fs.take(i as int));
                assert(fs.take(i as int + 1).last() == fs[i as int]);
                reveal_with_fuel(Seq::filter, 2);
            }
            if (t.1 - t.0) as u64 + 1 >= self.duration as u64 {
                out.push(t);
                proof {
                    assert(pred(t));
                    assert(fs.take(i as int + 1).filter(pred) =~= out@);
                }
            } else {
                proof {
                    assert(!pred(t));
                    assert(fs.take(i as int + 1).filter(pred) =~= out@);
                }
            }
            i += 1;
        }
        proof {
            assert(fs.take(fs.len() as int) =~= fs);
        }
        out
    }
}

/// Every range gathered from well-formed participant lists is well formed.
proof fn lemma_all_blocked_wf(ps: Seq<Participant>, k: int)
    requires
        forall|u: int, v: int|
            0 <= u < ps.len() && 0 <= v < ps[u].blocked_times@.len() ==> wf_range(
                #[trigger] ps[u].blocked_times@[v],
            ),
        0 <= k < all_blocked(ps).len(),
    ensures
        wf_range(all_blocked(ps)[k]),
    decreases ps.len(),
{
    if ps.len() > 0 {
        let front = all_blocked(ps.drop_last());
        if k < front.len() {
            assert(forall|u: int, v: int|
                0 <= u < ps.drop_last().len() && 0 <= v
                    < ps.drop_last()[u].blocked_times@.len() ==> wf_range(
                    #[trigger] ps.drop_last()[u].blocked_times@[v],
                ));
            lemma_all_blocked_wf(ps.drop_last(), k);
        } else {
            assert(all_blocked(ps)[k] == ps.last().blocked_times@[k - front.len()]);
            assert(wf_range(ps[ps.len() - 1].blocked_times@[k - front.len()]));
        }
    }
}

impl Validate for Meeting {
    open spec fn valid(&self) -> bool {
        self.duration >= 1 && forall|i: int|
            0 <= i < self.blocked_times@.len() ==> wf_range(#[trigger] self.blocked_times@[i])
    }

    open spec fn invalid_message(&self) -> Seq<char> {
        if self.duration < 1 {
            "meeting has an invalid duration: "@ + self.id@
        } else {
            "meeting has a blocked time whose start is after its end: "@ + self.id@
        }
    }

    fn validate(&self) -> (r: Result<(), String>) {
        if self.duration < 1 {
            let msg = "meeting has an invalid duration: ".to_string();
            Err(msg.concat(self.id.as_str()))
        } else if !ranges_wf(&self.blocked_times) {
            let msg = "meeting has a blocked time whose start is after its end: ".to_string();
            Err(msg.concat(self.id.as_str()))
        } else {
            Ok(())
        }
    }
}

} // verus!
