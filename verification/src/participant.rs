//! Participants of meetings: an identifier and the times the person cannot
//! meet.

use vstd::prelude::*;
use vstd::string::StringExecFns;

use crate::time::{
    blocks, diff, is_diff_of, is_merge_of, lemma_diff_is, ranges_wf, time_merge, wf_range,
    TimeRange, Validate,
};

verus! {

/// A person who may be asked to a meeting, with the times they cannot meet.
#[derive(Clone, Debug)]
pub struct Participant {
    pub id: String,
    pub blocked_times: Vec<TimeRange>,
}

impl Participant {
    /// Builds a participant with the given blocked times: the times this
    /// participant *cannot* meet.
    pub fn new(id: &str, blocked_times: Vec<TimeRange>) -> (r: Participant)
        ensures
            r.id@ == id@,
            r.blocked_times == blocked_times,
    {
        Participant { id: id.to_string(), blocked_times }
    }

    /// Subtracts this participant's blocked times from the given available
    /// times: the normal form of the grid points where the participant can
    /// meet.
    pub fn get_availability(&self, available_times: &Vec<TimeRange>) -> (r: Vec<TimeRange>)
        requires
            forall|i: int|
                0 <= i < available_times@.len() ==> wf_range(#[trigger] available_times@[i]),
            forall|i: int|
                0 <= i < self.blocked_times@.len() ==> wf_range(#[trigger] self.blocked_times@[i]),
        ensures
            r@ == diff(available_times@, self.blocked_times@),
            is_diff_of(r@, available_times@, self.blocked_times@),
    {
        if available_times.len() == 0 {
            let r: Vec<TimeRange> = Vec::new();
            proof {
                assert(is_diff_of(r@, available_times@, self.blocked_times@));
                lemma_diff_is(r@, available_times@, self.blocked_times@);
            }
            r
        } else if self.blocked_times.len() == 0 {
            let r = time_merge(available_times);
            proof {
                assert(is_merge_of(r@, available_times@));
                assert(is_diff_of(r@, available_times@, self.blocked_times@));
                lemma_diff_is(r@, available_times@, self.blocked_times@);
            }
            r
        } else {
            blocks(available_times, &self.blocked_times)
        }
    }
}

impl Validate for Participant {
    open spec fn valid(&self) -> bool {
        forall|i: int| 0 <= i < self.blocked_times@.len() ==> wf_range(#[trigger] self.blocked_times@[i])
    }

    open spec fn invalid_message(&self) -> Seq<char> {
        "participant has a blocked time whose start is after its end: "@ + self.id@
    }

    fn validate(&self) -> (r: Result<(), String>) {
        if ranges_wf(&self.blocked_times) {
            Ok(())
        } else {
            let msg = "participant has a blocked time whose start is after its end: ".to_string();
            Err(msg.concat(self.id.as_str()))
        }
    }
}

} // verus!
