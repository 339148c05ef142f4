//! Completion status of a tracked slot.

use vstd::prelude::*;

verus! {

/// How far a tracked slot has progressed.
#[derive(Debug, PartialEq, Eq, Clone, Copy, Structural)]
pub enum Status {
    Unstarted,
    InProgress,
    Goal,
    AllChecks,
    Done,
}

impl Status {
    /// The integer under which a status is persisted.
    pub open spec fn code(self) -> int {
        match self {
            Status::Unstarted => 0,
            Status::InProgress => 1,
            Status::Goal => 2,
            Status::AllChecks => 3,
            Status::Done => 4,
        }
    }

    /// The status persisted under `i`, if any.
    pub open spec fn decode(i: int) -> Option<Status> {
        if i == 0 {
            Some(Status::Unstarted)
        } else if i == 1 {
            Some(Status::InProgress)
        } else if i == 2 {
            Some(Status::Goal)
        } else if i == 3 {
            Some(Status::AllChecks)
        } else if i == 4 {
            Some(Status::Done)
        } else {
            None
        }
    }

    /// The text shown for a status.
    pub open spec fn label(self) -> Seq<char> {
        match self {
            Status::Unstarted => "Unstarted"@,
            Status::InProgress => "In Progress"@,
            Status::Goal => "Goal"@,
            Status::AllChecks => "All Checks"@,
            Status::Done => "Done"@,
        }
    }

    /// Position of a status along the progression
    /// `Unstarted -> InProgress -> {Goal | AllChecks} -> Done`.
    /// `Goal` and `AllChecks` stand side by side.
    pub open spec fn stage(self) -> int {
        match self {
            Status::Unstarted => 0,
            Status::InProgress => 1,
            Status::Goal => 2,
            Status::AllChecks => 2,
            Status::Done => 3,
        }
    }

    /// The status that results when `next` is observed for a slot that
    /// currently has status `self`: an observed `Unstarted` always wins, a
    /// `Done` slot takes whatever is observed, and otherwise the status moves
    /// only forward.
    pub open spec fn merged(self, next: Status) -> Status {
        if next == Status::Unstarted {
            Status::Unstarted
        } else if self == Status::Done {
            next
        } else if self.stage() < next.stage() {
            next
        } else {
            self
        }
    }

    pub fn from_i64(i: i64) -> (status: Option<Status>)
        ensures
            status == Status::decode(i as int),
    {
        match i {
            0 => Some(Status::Unstarted),
            1 => Some(Status::InProgress),
            2 => Some(Status::Goal),
            3 => Some(Status::AllChecks),
            4 => Some(Status::Done),
            _ => None,
        }
    }

    pub fn as_i64(&self) -> (i: i64)
        ensures
            i == self.code(),
    {
        match self {
            Status::Unstarted => 0,
            Status::InProgress => 1,
            Status::Goal => 2,
            Status::AllChecks => 3,
            Status::Done => 4,
        }
    }

    pub fn as_str(&self) -> (text: &'static str)
        ensures
            text@ == self.label(),
    {
        match self {
            Status::Unstarted => "Unstarted",
            Status::InProgress => "In Progress",
            Status::Goal => "Goal",
            Status::AllChecks => "All Checks",
            Status::Done => "Done",
        }
    }

    fn stage_of(&self) -> (stage: u8)
        ensures
            stage == self.stage(),
    {
        match self {
            Status::Unstarted => 0,
            Status::InProgress => 1,
            Status::Goal => 2,
            Status::AllChecks => 2,
            Status::Done => 3,
        }
    }

    /// Folds a freshly observed status into the current one.
    pub fn merge(&mut self, next_status: Status)
        ensures
            *final(self) == old(self).merged(next_status),
    {
        if next_status == Status::Unstarted {
            *self = Status::Unstarted;
        } else if *self == Status::Done {
            *self = next_status;
        } else if self.stage_of() < next_status.stage_of() {
            *self = next_status;
        }
    }
}

/// The last activity that results when `next` is observed for a slot whose
/// last activity so far is `current`: an unknown on either side stays
/// unknown, otherwise the larger of the two.
pub open spec fn merged_last_activity(current: Option<u32>, next: Option<u32>) -> Option<u32> {
    match (current, next) {
        (Some(a), Some(b)) => if b > a {
            Some(b)
        } else {
            Some(a)
        },
        _ => None,
    }
}

pub fn merge_last_activity(last_activity: &mut Option<u32>, next_last_activity: Option<u32>)
    ensures
        *final(last_activity) == merged_last_activity(*old(last_activity), next_last_activity),
{
    match next_last_activity {
        Some(next) => {
            match *last_activity {
                Some(current) => {
                    if next > current {
                        *last_activity = Some(next);
                    }
                },
                None => {},
            }
        },
        None => {
            *last_activity = None;
        },
    }
}

/// Every stored code reads back as the status it was written for.
pub proof fn lemma_code_round_trip(status: Status)
    ensures
        Status::decode(status.code()) == Some(status),
{
}

/// A code that decodes names the status whose code it is.
pub proof fn lemma_decode_round_trip(i: int)
    ensures
        Status::decode(i) matches Some(status) ==> status.code() == i,
        Status::decode(i) is Some <==> 0 <= i <= 4,
{
}

/// Merging never leaves a slot behind where it was, unless the observation
/// is `Unstarted` or the slot was `Done`.
pub proof fn lemma_merge_advances(current: Status, next: Status)
    requires
        next != Status::Unstarted,
        current != Status::Done,
    ensures
        current.merged(next).stage() >= current.stage(),
        current.merged(next) == current || current.merged(next) == next,
{
}

} // verus!
