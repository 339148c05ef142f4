//! The worlds at a glance.

use vstd::prelude::*;

use crate::points::{decimal, decimal_text, same_text};
use crate::status::Status;
use crate::store::{SlotRow, Store, StoreView, TrackedSlot};
use crate::text::{join2, join_lines, lines_text, texts};

verus! {

/// How a status report sorts its slots.
#[derive(Debug, PartialEq, Eq, Clone, Copy, Structural)]
pub enum Sort {
    /// By the time of the last check sent.
    Sent,
    /// By the share of the checks done.
    Checks,
}

impl Sort {
    pub open spec fn parsed(value: Seq<char>) -> Option<Sort> {
        if value == "sent"@ {
            Some(Sort::Sent)
        } else if value == "checks"@ {
            Some(Sort::Checks)
        } else {
            None
        }
    }

    pub open spec fn index(self) -> int {
        match self {
            Sort::Sent => 0,
            Sort::Checks => 1,
        }
    }

    pub open spec fn at(value: int) -> Option<Sort> {
        if value == 0 {
            Some(Sort::Sent)
        } else if value == 1 {
            Some(Sort::Checks)
        } else {
            None
        }
    }

    /// The sort order that a command names.
    pub fn try_from(value: &str) -> (sort: Option<Sort>)
        ensures
            sort == Sort::parsed(value@),
    {
        if same_text(value, "sent") {
            Some(Sort::Sent)
        } else if same_text(value, "checks") {
            Some(Sort::Checks)
        } else {
            None
        }
    }

    /// The number under which a sort order travels in the id of a page.
    pub fn as_i(self) -> (i: usize)
        ensures
            i == self.index(),
    {
        match self {
            Sort::Sent => 0,
            Sort::Checks => 1,
        }
    }

    /// The sort order that travels under the number `value`.
    pub fn try_from_i(value: usize) -> (sort: Option<Sort>)
        ensures
            sort == Sort::at(value as int),
    {
        match value {
            0 => Some(Sort::Sent),
            1 => Some(Sort::Checks),
            _ => None,
        }
    }
}

/// A tracked world at a glance: how many of its slots are unclaimed, and
/// how many have which status.
#[derive(Debug, Clone)]
pub struct TrackedOverview {
    pub name: String,
    pub unclaimed: usize,
    pub unstarted: usize,
    pub in_progress: usize,
    pub goal: usize,
    pub all_checks: usize,
    pub done: usize,
}

/// A world that waits to be tracked at a glance: how many slots it has,
/// and how many preclaims lie on them.
#[derive(Debug, Clone)]
pub struct PreclaimOverview {
    pub name: String,
    pub slots: usize,
    pub preclaims: usize,
}

/// A world at a glance.
#[derive(Debug, Clone)]
pub enum Overview {
    Active(TrackedOverview),
    Preclaim(PreclaimOverview),
}

/// A line of an overview: the label and the number.
pub open spec fn count_line(label: Seq<char>, count: nat) -> Seq<char> {
    label + decimal(count)
}

/// `lines`, with the line for `count` if there is anything to count.
pub open spec fn with_count(lines: Seq<Seq<char>>, label: Seq<char>, count: nat) -> Seq<Seq<char>> {
    if count > 0 {
        lines.push(count_line(label, count))
    } else {
        lines
    }
}

impl Overview {
    /// The name of the world.
    pub open spec fn title(self) -> Seq<char> {
        match self {
            Overview::Active(w) => w.name@,
            Overview::Preclaim(w) => w.name@,
        }
    }

    /// The lines on the world: one for every number that is not zero.
    pub open spec fn lines(self) -> Seq<Seq<char>> {
        match self {
            Overview::Active(w) => with_count(
                with_count(
                    with_count(
                        with_count(
                            with_count(
                                with_count(Seq::empty(), "Unclaimed: "@, w.unclaimed as nat),
                                "Unstarted: "@,
                                w.unstarted as nat,
                            ),
                            "In progress: "@,
                            w.in_progress as nat,
                        ),
                        "Goal: "@,
                        w.goal as nat,
                    ),
                    "All checks: "@,
                    w.all_checks as nat,
                ),
                "Done: "@,
                w.done as nat,
            ),
            Overview::Preclaim(w) => with_count(
                with_count(Seq::empty(), "Slots: "@, w.slots as nat),
                "Preclaims: "@,
                w.preclaims as nat,
            ),
        }
    }

    /// What an overview shows of the world: its name, and its numbers one
    /// per line.
    pub fn field(&self) -> (field: (&str, String, bool))
        ensures
            field.0@ == self.title(),
            field.1@ == lines_text(self.lines(), 0, self.lines().len() as int),
            !field.2,
    {
        let mut entries: Vec<String> = Vec::new();
        proof {
            assert(texts(entries@) =~= Seq::<Seq<char>>::empty());
        }
        match self {
            Overview::Active(w) => {
                push_count(&mut entries, "Unclaimed: ", w.unclaimed);
                push_count(&mut entries, "Unstarted: ", w.unstarted);
                push_count(&mut entries, "In progress: ", w.in_progress);
                push_count(&mut entries, "Goal: ", w.goal);
                push_count(&mut entries, "All checks: ", w.all_checks);
                push_count(&mut entries, "Done: ", w.done);
                (w.name.as_str(), join_lines(&entries, 0, entries.len()), false)
            },
            Overview::Preclaim(w) => {
                push_count(&mut entries, "Slots: ", w.slots);
                push_count(&mut entries, "Preclaims: ", w.preclaims);
                (w.name.as_str(), join_lines(&entries, 0, entries.len()), false)
            },
        }
    }
}

/// Adds the line for `count` to `entries` if there is anything to count.
fn push_count(entries: &mut Vec<String>, label: &str, count: usize)
    ensures
        texts(final(entries)@) == with_count(texts(old(entries)@), label@, count as nat),
{
    if count > 0 {
        let digits = decimal_text(count as u64);
        let line = join2(label, digits.as_str());
        entries.push(line);
        proof {
            assert(texts(entries@) =~= texts(old(entries)@).push(line@));
        }
    }
}

impl StoreView {
    /// Tracked slots of the world `world` with the status `status`.
    pub open spec fn with_status(self, world: i64, status: Status) -> spec_fn(TrackedSlot) -> bool {
        |s: TrackedSlot| s.world == world && s.status == status
    }

    /// Tracked slots of the world `world` that nobody holds.
    pub open spec fn unclaimed_in(self, world: i64) -> spec_fn(TrackedSlot) -> bool {
        |s: TrackedSlot| s.world == world && !self.claimed(s.id)
    }

    /// Slots of the world `world` that waits to be tracked.
    pub open spec fn slot_in(self, world: i64) -> spec_fn(SlotRow) -> bool {
        |s: SlotRow| s.world == world
    }

    /// Whether the slot `slot` belongs to the world with the id `world`
    /// that waits to be tracked.
    pub open spec fn pre_slot_in(self, slot: i64, world: i64) -> bool {
        exists|j: int|
            0 <= j < self.slots.len() && (#[trigger] self.slots[j]).id == slot
                && self.slots[j].world == world
    }

    /// Preclaims on slots of the world `world`.
    pub open spec fn preclaim_in(self, world: i64) -> spec_fn(crate::store::Preclaim) -> bool {
        |p: crate::store::Preclaim| self.pre_slot_in(p.slot, world)
    }

    /// Whether `shown` is the tracked world at `k` at a glance.
    pub open spec fn is_tracked_overview(self, k: int, shown: Overview) -> bool {
        let w = self.tracked_worlds[k];
        &&& shown matches Overview::Active(o)
        &&& o.name@ == w.name@
        &&& o.unclaimed == self.tracked_slots.filter(self.unclaimed_in(w.id)).len()
        &&& o.unstarted == self.tracked_slots.filter(
            self.with_status(w.id, Status::Unstarted),
        ).len()
        &&& o.in_progress == self.tracked_slots.filter(
            self.with_status(w.id, Status::InProgress),
        ).len()
        &&& o.goal == self.tracked_slots.filter(self.with_status(w.id, Status::Goal)).len()
        &&& o.all_checks == self.tracked_slots.filter(
            self.with_status(w.id, Status::AllChecks),
        ).len()
        &&& o.done == self.tracked_slots.filter(self.with_status(w.id, Status::Done)).len()
    }

    /// Whether `shown` is the world at `k` that waits to be tracked, at a
    /// glance.
    pub open spec fn is_preclaim_overview(self, k: int, shown: Overview) -> bool {
        let w = self.worlds[k];
        &&& shown matches Overview::Preclaim(o)
        &&& o.name@ == w.name@
        &&& o.slots == self.slots.filter(self.slot_in(w.id)).len()
        &&& o.preclaims == self.preclaims.filter(self.preclaim_in(w.id)).len()
    }
}

impl Store {
    /// How many tracked slots of the world `world` have the status
    /// `status`.
    pub fn count_with_status(&self, world: i64, status: Status) -> (count: usize)
        ensures
            count == self@.tracked_slots.filter(self@.with_status(world, status)).len(),
    {
        let ghost p = self@.with_status(world, status);
        let mut count: usize = 0;
        let mut i: usize = 0;
        proof {
            crate::seqs::lemma_filter_empty(p);
            assert(self.tracked_slots@.take(0) =~= Seq::<TrackedSlot>::empty());
        }
        while i < self.tracked_slots.len()
            invariant
                i <= self.tracked_slots@.len(),
                p == self@.with_status(world, status),
                count <= i,
                count == self.tracked_slots@.take(i as int).filter(p).len(),
            decreases self.tracked_slots@.len() - i,
        {
            proof {
                crate::seqs::lemma_filter_push(
                    self.tracked_slots@.take(i as int),
                    self.tracked_slots@[i as int],
                    p,
                );
                assert(self.tracked_slots@.take(i as int).push(self.tracked_slots@[i as int])
                    =~= self.tracked_slots@.take(i + 1));
            }
            if self.tracked_slots[i].world == world && self.tracked_slots[i].status == status {
                count += 1;
            }
            i += 1;
        }
        proof {
            assert(self.tracked_slots@.take(i as int) =~= self.tracked_slots@);
        }
        count
    }

    /// How many tracked slots of the world `world` nobody holds.
    pub fn count_unclaimed(&self, world: i64) -> (count: usize)
        ensures
            count == self@.tracked_slots.filter(self@.unclaimed_in(world)).len(),
    {
        let ghost p = self@.unclaimed_in(world);
        let mut count: usize = 0;
        let mut i: usize = 0;
        proof {
            crate::seqs::lemma_filter_empty(p);
            assert(self.tracked_slots@.take(0) =~= Seq::<TrackedSlot>::empty());
        }
        while i < self.tracked_slots.len()
            invariant
                i <= self.tracked_slots@.len(),
                p == self@.unclaimed_in(world),
                count <= i,
                count == self.tracked_slots@.take(i as int).filter(p).len(),
            decreases self.tracked_slots@.len() - i,
        {
            proof {
                crate::seqs::lemma_filter_push(
                    self.tracked_slots@.take(i as int),
                    self.tracked_slots@[i as int],
                    p,
                );
                assert(self.tracked_slots@.take(i as int).push(self.tracked_slots@[i as int])
                    =~= self.tracked_slots@.take(i + 1));
            }
            if self.tracked_slots[i].world == world && !self.is_claimed(self.tracked_slots[i].id) {
                count += 1;
            }
            i += 1;
        }
        proof {
            assert(self.tracked_slots@.take(i as int) =~= self.tracked_slots@);
        }
        count
    }

    /// How many slots the world `world` that waits to be tracked has.
    pub fn count_slots(&self, world: i64) -> (count: usize)
        ensures
            count == self@.slots.filter(self@.slot_in(world)).len(),
    {
        let ghost p = self@.slot_in(world);
        let mut count: usize = 0;
        let mut i: usize = 0;
        proof {
            crate::seqs::lemma_filter_empty(p);
            assert(self.slots@.take(0) =~= Seq::<SlotRow>::empty());
        }
        while i < self.slots.len()
            invariant
                i <= self.slots@.len(),
                p == self@.slot_in(world),
                count <= i,
                count == self.slots@.take(i as int).filter(p).len(),
            decreases self.slots@.len() - i,
        {
            proof {
                crate::seqs::lemma_filter_push(self.slots@.take(i as int), self.slots@[i as int], p);
                assert(self.slots@.take(i as int).push(self.slots@[i as int])
                    =~= self.slots@.take(i + 1));
            }
            if self.slots[i].world == world {
                count += 1;
            }
            i += 1;
        }
        proof {
            assert(self.slots@.take(i as int) =~= self.slots@);
        }
        count
    }

    /// Whether the slot `slot` belongs to the world with the id `world`
    /// that waits to be tracked.
    pub fn is_pre_slot_in(&self, slot: i64, world: i64) -> (found: bool)
        ensures
            found == self@.pre_slot_in(slot, world),
    {
        let mut j: usize = 0;
        while j < self.slots.len()
            invariant
                j <= self.slots@.len(),
                forall|i: int|
                    0 <= i < j ==> !((#[trigger] self.slots@[i]).id == slot
                        && self.slots@[i].world == world),
            decreases self.slots@.len() - j,
        {
            if self.slots[j].id == slot && self.slots[j].world == world {
                proof {
                    assert(self@.slots[j as int].id == slot);
                }
                return true;
            }
            j += 1;
        }
        false
    }

    /// How many preclaims lie on the slots of the world `world`.
    pub fn count_preclaims(&self, world: i64) -> (count: usize)
        ensures
            count == self@.preclaims.filter(self@.preclaim_in(world)).len(),
    {
        let ghost p = self@.preclaim_in(world);
        let mut count: usize = 0;
        let mut i: usize = 0;
        proof {
            crate::seqs::lemma_filter_empty(p);
            assert(self.preclaims@.take(0) =~= Seq::<crate::store::Preclaim>::empty());
        }
        while i < self.preclaims.len()
            invariant
                i <= self.preclaims@.len(),
                p == self@.preclaim_in(world),
                count <= i,
                count == self.preclaims@.take(i as int).filter(p).len(),
            decreases self.preclaims@.len() - i,
        {
            proof {
                crate::seqs::lemma_filter_push(
                    self.preclaims@.take(i as int),
                    self.preclaims@[i as int],
                    p,
                );
                assert(self.preclaims@.take(i as int).push(self.preclaims@[i as int])
                    =~= self.preclaims@.take(i + 1));
            }
            if self.is_pre_slot_in(self.preclaims[i].slot, world) {
                count += 1;
            }
            i += 1;
        }
        proof {
            assert(self.preclaims@.take(i as int) =~= self.preclaims@);
        }
        count
    }

    /// All worlds at a glance: first those that wait to be tracked, then
    /// the tracked ones, each kind in the order of its table.
    pub fn overview(&self) -> (worlds: Vec<Overview>)
        ensures
            worlds@.len() == self@.worlds.len() + self@.tracked_worlds.len(),
            forall|k: int|
                0 <= k < self@.worlds.len() ==> self@.is_preclaim_overview(k, #[trigger] worlds@[k]),
            forall|k: int|
                0 <= k < self@.tracked_worlds.len() ==> self@.is_tracked_overview(
                    k,
                    #[trigger] worlds@[self@.worlds.len() + k],
                ),
    {
        let mut worlds: Vec<Overview> = Vec::new();
        let mut k: usize = 0;
        while k < self.worlds.len()
            invariant
                k <= self.worlds@.len(),
                worlds@.len() == k,
                forall|j: int| 0 <= j < k ==> self@.is_preclaim_overview(j, #[trigger] worlds@[j]),
            decreases self.worlds@.len() - k,
        {
            let id = self.worlds[k].id;
            worlds.push(
                Overview::Preclaim(
                    PreclaimOverview {
                        name: self.worlds[k].name.clone(),
                        slots: self.count_slots(id),
                        preclaims: self.count_preclaims(id),
                    },
                ),
            );
            k += 1;
        }
        let mut n: usize = 0;
        while n < self.tracked_worlds.len()
            invariant
                n <= self.tracked_worlds@.len(),
                worlds@.len() == self.worlds@.len() + n,
                forall|j: int|
                    0 <= j < self@.worlds.len() ==> self@.is_preclaim_overview(
                        j,
                        #[trigger] worlds@[j],
                    ),
                forall|j: int|
                    0 <= j < n ==> self@.is_tracked_overview(
                        j,
                        #[trigger] worlds@[self@.worlds.len() + j],
                    ),
            decreases self.tracked_worlds@.len() - n,
        {
            let id = self.tracked_worlds[n].id;
            worlds.push(
                Overview::Active(
                    TrackedOverview {
                        name: self.tracked_worlds[n].name.clone(),
                        unclaimed: self.count_unclaimed(id),
                        unstarted: self.count_with_status(id, Status::Unstarted),
                        in_progress: self.count_with_status(id, Status::InProgress),
                        goal: self.count_with_status(id, Status::Goal),
                        all_checks: self.count_with_status(id, Status::AllChecks),
                        done: self.count_with_status(id, Status::Done),
                    },
                ),
            );
            n += 1;
        }
        worlds
    }
}

} // verus!
