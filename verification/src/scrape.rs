//! Reading the tracker: what its rows say of the slots, and how a fresh
//! reading changes the tracked slots.

use vstd::prelude::*;

use crate::status::{merged_last_activity, Status};
use crate::store::{first_index, lemma_first_index, lemma_first_index_found};
use crate::store::{Store, StoreView, TrackedSlot, TrackedWorld};
use crate::tracking::SlotData;

verus! {

/// How long a reading of a tracker stays fresh, in seconds.
pub const SCRAPE_INTERVAL: i64 = 3600;

/// One row of the tracker: one game of one slot.
#[derive(Debug, Clone)]
pub struct TrackerRow {
    pub name: String,
    pub game: String,
    /// Whether the tracker shows the goal of the game as completed.
    pub goal_completed: bool,
    pub checks: u32,
    pub checks_total: u32,
    /// Minutes since the last activity, if there was any.
    pub last_activity: Option<u32>,
}

/// What the tracker shows of one slot, with its games as a sequence.
pub struct SlotDataView {
    pub status: Status,
    pub games: Seq<String>,
    pub checks: u32,
    pub checks_total: u32,
    pub last_activity: Option<u32>,
}

impl View for SlotData {
    type V = SlotDataView;

    open spec fn view(&self) -> SlotDataView {
        SlotDataView {
            status: self.status,
            games: self.games@,
            checks: self.checks,
            checks_total: self.checks_total,
            last_activity: self.last_activity,
        }
    }
}

/// The status that a row of the tracker stands for: a game without a check
/// is unstarted unless its goal is completed, a game with all its checks is
/// done if its goal is completed too, and has all checks if not.
pub open spec fn status_of_row(goal_completed: bool, checks: u32, checks_total: u32) -> Status {
    if !goal_completed && checks == 0 {
        Status::Unstarted
    } else if checks == checks_total {
        if goal_completed {
            Status::Done
        } else {
            Status::AllChecks
        }
    } else if goal_completed {
        Status::Goal
    } else {
        Status::InProgress
    }
}

/// A slot as its first row shows it.
pub open spec fn slot_of_row(row: TrackerRow) -> SlotDataView {
    SlotDataView {
        status: status_of_row(row.goal_completed, row.checks, row.checks_total),
        games: seq![row.game],
        checks: row.checks,
        checks_total: row.checks_total,
        last_activity: row.last_activity,
    }
}

/// A slot with one more row taken in, unless its checks leave the range of
/// the counters.
pub open spec fn slot_with_row(slot: SlotDataView, row: TrackerRow) -> Option<SlotDataView> {
    if slot.checks + row.checks > u32::MAX || slot.checks_total + row.checks_total > u32::MAX {
        None
    } else {
        Some(
            SlotDataView {
                status: slot.status.merged(
                    status_of_row(row.goal_completed, row.checks, row.checks_total),
                ),
                games: slot.games.push(row.game),
                checks: (slot.checks + row.checks) as u32,
                checks_total: (slot.checks_total + row.checks_total) as u32,
                last_activity: merged_last_activity(slot.last_activity, row.last_activity),
            },
        )
    }
}

/// Entries for the slot with the name `name`.
pub open spec fn entry_named(name: Seq<char>) -> spec_fn((Seq<char>, SlotDataView)) -> bool {
    |e: (Seq<char>, SlotDataView)| e.0 == name
}

/// The slots that the first `n` of `rows` show, each under its name, in
/// the order in which the names first appear. Nothing where the checks of
/// a slot leave the range of the counters.
pub open spec fn slots_of_rows(rows: Seq<TrackerRow>, n: int) -> Option<
    Seq<(Seq<char>, SlotDataView)>,
>
    decreases n,
{
    if n <= 0 {
        Some(Seq::empty())
    } else {
        match slots_of_rows(rows, n - 1) {
            None => None,
            Some(slots) => {
                let row = rows[n - 1];
                let at = first_index(slots, entry_named(row.name@));
                if at < slots.len() {
                    match slot_with_row(slots[at].1, row) {
                        Some(slot) => Some(slots.update(at, (row.name@, slot))),
                        None => None,
                    }
                } else {
                    Some(slots.push((row.name@, slot_of_row(row))))
                }
            },
        }
    }
}

/// The entries of a reading, each as the name and the view of its slot.
pub open spec fn entries_view(entries: Seq<(String, SlotData)>) -> Seq<(Seq<char>, SlotDataView)> {
    entries.map_values(|e: (String, SlotData)| (e.0@, e.1@))
}

/// Computes [`status_of_row`].
pub fn row_status(goal_completed: bool, checks: u32, checks_total: u32) -> (status: Status)
    ensures
        status == status_of_row(goal_completed, checks, checks_total),
{
    if !goal_completed && checks == 0 {
        Status::Unstarted
    } else if checks == checks_total {
        if goal_completed {
            Status::Done
        } else {
            Status::AllChecks
        }
    } else if goal_completed {
        Status::Goal
    } else {
        Status::InProgress
    }
}

impl SlotData {
    /// The slot that the row `row` shows when it is the first of its slot.
    pub fn from_row(row: &TrackerRow) -> (slot: SlotData)
        ensures
            slot@ == slot_of_row(*row),
    {
        let mut games: Vec<String> = Vec::new();
        games.push(row.game.clone());
        let slot = SlotData {
            status: row_status(row.goal_completed, row.checks, row.checks_total),
            games,
            checks: row.checks,
            checks_total: row.checks_total,
            last_activity: row.last_activity,
        };
        proof {
            assert(slot.games@ =~= seq![row.game]);
        }
        slot
    }

    /// A copy of this slot.
    pub fn duplicate(&self) -> (slot: SlotData)
        ensures
            slot@ == self@,
    {
        let mut games: Vec<String> = Vec::new();
        let mut i: usize = 0;
        while i < self.games.len()
            invariant
                i <= self.games@.len(),
                games@ == self.games@.take(i as int),
            decreases self.games@.len() - i,
        {
            games.push(self.games[i].clone());
            proof {
                assert(games@ =~= self.games@.take(i + 1));
            }
            i += 1;
        }
        proof {
            assert(self.games@.take(i as int) =~= self.games@);
        }
        SlotData {
            status: self.status,
            games,
            checks: self.checks,
            checks_total: self.checks_total,
            last_activity: self.last_activity,
        }
    }

    /// This slot with the row `row` taken in: the statuses are merged, the
    /// game is added, the checks are summed up and the last activity is
    /// merged. Nothing where the checks leave the range of the counters.
    pub fn with_row(&self, row: &TrackerRow) -> (slot: Option<SlotData>)
        ensures
            match slot {
                Some(slot) => slot_with_row(self@, *row) == Some(slot@),
                None => slot_with_row(self@, *row) is None,
            },
    {
        let checks = match self.checks.checked_add(row.checks) {
            Some(checks) => checks,
            None => {
                return None;
            },
        };
        let checks_total = match self.checks_total.checked_add(row.checks_total) {
            Some(checks_total) => checks_total,
            None => {
                return None;
            },
        };
        let mut slot = self.duplicate();
        slot.status.merge(row_status(row.goal_completed, row.checks, row.checks_total));
        slot.games.push(row.game.clone());
        slot.checks = checks;
        slot.checks_total = checks_total;
        crate::status::merge_last_activity(&mut slot.last_activity, row.last_activity);
        Some(slot)
    }
}

/// Finds the entry for the slot with the name `name`.
fn find_entry(slots: &Vec<(String, SlotData)>, name: &String) -> (found: Option<usize>)
    ensures
        match found {
            Some(at) => at < slots@.len() && at == first_index(
                entries_view(slots@),
                entry_named(name@),
            ),
            None => first_index(entries_view(slots@), entry_named(name@)) == slots@.len(),
        },
{
    let ghost entries = entries_view(slots@);
    let mut at: usize = 0;
    while at < slots.len()
        invariant
            at <= slots@.len(),
            entries == entries_view(slots@),
            forall|j: int| 0 <= j < at ==> !entry_named(name@)(#[trigger] entries[j]),
        decreases slots@.len() - at,
    {
        if slots[at].0 == *name {
            proof {
                lemma_first_index(entries, entry_named(name@), at as int);
            }
            return Some(at);
        }
        at += 1;
    }
    proof {
        lemma_first_index(entries, entry_named(name@), at as int);
    }
    None
}

/// Gathers the rows of a tracker into its slots: rows of one name make one
/// slot. Nothing is returned where the checks of a slot leave the range of
/// the counters.
pub fn merge_rows(rows: &Vec<TrackerRow>) -> (slots: Option<Vec<(String, SlotData)>>)
    ensures
        match slots {
            Some(slots) => slots_of_rows(rows@, rows@.len() as int) == Some(entries_view(slots@)),
            None => slots_of_rows(rows@, rows@.len() as int) is None,
        },
{
    let mut slots: Vec<(String, SlotData)> = Vec::new();
    let mut n: usize = 0;
    proof {
        assert(entries_view(slots@) =~= Seq::empty());
    }
    while n < rows.len()
        invariant
            n <= rows@.len(),
            slots_of_rows(rows@, n as int) == Some(entries_view(slots@)),
        decreases rows@.len() - n,
    {
        let row = &rows[n];
        let ghost before = entries_view(slots@);
        let (found, at) = match find_entry(&slots, &row.name) {
            Some(at) => (true, at),
            None => (false, slots.len()),
        };
        if found {
            match slots[at].1.with_row(row) {
                Some(slot) => {
                    slots.set(at, (row.name.clone(), slot));
                    proof {
                        assert(entries_view(slots@) =~= before.update(
                            at as int,
                            (row.name@, slot@),
                        ));
                    }
                },
                None => {
                    proof {
                        assert forall|m: int| n < m <= rows@.len() implies slots_of_rows(
                            rows@,
                            m,
                        ) is None by {
                            lemma_rows_fail_on(rows@, n + 1, m);
                        }
                    }
                    return None;
                },
            }
        } else {
            let slot = SlotData::from_row(row);
            slots.push((row.name.clone(), slot));
            proof {
                assert(entries_view(slots@) =~= before.push((row.name@, slot@)));
            }
        }
        n += 1;
    }
    Some(slots)
}

/// Once the rows taken in so far show no slots, more rows do not either.
pub proof fn lemma_rows_fail_on(rows: Seq<TrackerRow>, n: int, m: int)
    requires
        0 <= n <= m,
        slots_of_rows(rows, n) is None,
    ensures
        slots_of_rows(rows, m) is None,
    decreases m,
{
    if n < m {
        lemma_rows_fail_on(rows, n, m - 1);
    }
}

/// Tracked worlds with the name `name`.
pub open spec fn tracked_named(name: Seq<char>) -> spec_fn(TrackedWorld) -> bool {
    |w: TrackedWorld| w.name@ == name
}

/// Entries of a reading for the slot with the name `name`.
pub open spec fn reading_named(name: Seq<char>) -> spec_fn((String, SlotData)) -> bool {
    |e: (String, SlotData)| e.0@ == name
}

/// Whether every slot of a reading has reached its goal.
pub open spec fn all_goal(data: Seq<(String, SlotData)>) -> bool {
    forall|i: int|
        0 <= i < data.len() ==> (#[trigger] data[i]).1.status == Status::Goal || data[i].1.status
            == Status::Done
}

impl StoreView {
    /// The tracked world with the name `name`.
    pub open spec fn tracked_world_named(self, name: Seq<char>) -> Option<TrackedWorld> {
        let k = first_index(self.tracked_worlds, tracked_named(name));
        if k < self.tracked_worlds.len() {
            Some(self.tracked_worlds[k])
        } else {
            None
        }
    }

    /// The tracker to read for the world `name` at the time `now`: that of
    /// the world if there is one and its last reading is no longer fresh.
    pub open spec fn tracker_due(self, name: Seq<char>, now: i64) -> Option<String> {
        match self.tracked_world_named(name) {
            Some(w) => if w.last_scrape < now - SCRAPE_INTERVAL {
                Some(w.tracker_id)
            } else {
                None
            },
            None => None,
        }
    }

    /// The tracked worlds once the world `name` was read at the time
    /// `now`.
    pub open spec fn worlds_read(self, name: Seq<char>, now: i64) -> Seq<TrackedWorld> {
        let k = first_index(self.tracked_worlds, tracked_named(name));
        if k < self.tracked_worlds.len() && self.tracker_due(name, now) is Some {
            self.tracked_worlds.update(k, TrackedWorld { last_scrape: now, ..self.tracked_worlds[k] })
        } else {
            self.tracked_worlds
        }
    }

    /// A tracked slot after the reading `data` of the world `name`: a slot
    /// of the world that the reading shows has the status that results
    /// from what is observed, and the checks and the last activity that
    /// are observed. Any other slot is as before.
    pub open spec fn refreshed(self, name: Seq<char>, data: Seq<(String, SlotData)>) -> spec_fn(
        TrackedSlot,
    ) -> TrackedSlot {
        |s: TrackedSlot|
            {
                let at = first_index(data, reading_named(s.name@));
                if self.in_world_named(s.world, name) && at < data.len() {
                    TrackedSlot {
                        status: s.status.merged(data[at].1.status),
                        checks: data[at].1.checks,
                        last_activity: data[at].1.last_activity,
                        ..s
                    }
                } else {
                    s
                }
            }
    }

    /// A tracked world after the reading `data` of the world `name`: the
    /// world is done once every slot of the reading has reached its goal.
    pub open spec fn completed(self, name: Seq<char>, data: Seq<(String, SlotData)>) -> spec_fn(
        TrackedWorld,
    ) -> TrackedWorld {
        |w: TrackedWorld|
            if w.name@ == name && all_goal(data) {
                TrackedWorld { done: true, ..w }
            } else {
                w
            }
    }

    /// The tables after the reading `data` of the world `name`.
    pub open spec fn after_refresh(self, name: Seq<char>, data: Seq<(String, SlotData)>) -> StoreView {
        StoreView {
            tracked_slots: self.tracked_slots.map_values(self.refreshed(name, data)),
            tracked_worlds: self.tracked_worlds.map_values(self.completed(name, data)),
            ..self
        }
    }

    /// Changing what a tracked world shows, but neither its id nor its
    /// reality, leaves the tables consistent and the pools of the slots as
    /// they were.
    pub proof fn lemma_world_edit_keeps_wf(self, post: StoreView)
        requires
            self.wf(),
            post == (StoreView { tracked_worlds: post.tracked_worlds, ..self }),
            post.tracked_worlds.len() == self.tracked_worlds.len(),
            forall|i: int|
                0 <= i < self.tracked_worlds.len() ==> {
                    &&& (#[trigger] post.tracked_worlds[i]).id == self.tracked_worlds[i].id
                    &&& post.tracked_worlds[i].reality == self.tracked_worlds[i].reality
                },
        ensures
            post.wf(),
            forall|slot: i64| #[trigger] post.slot_pool(slot) == self.slot_pool(slot),
    {
        assert(post.tracked_ids_unique()) by {
            assert forall|i: int, j: int|
                0 <= i < post.tracked_worlds.len() && 0 <= j < post.tracked_worlds.len() && i
                    != j implies post.tracked_worlds[i].id != post.tracked_worlds[j].id by {
                assert(self.tracked_worlds[i].id != self.tracked_worlds[j].id);
            }
        }
        assert(post.ids_issued()) by {
            assert forall|i: int| 0 <= i < post.tracked_worlds.len() implies (
            #[trigger] post.tracked_worlds[i]).id < post.next_id && (
            post.tracked_worlds[i].reality matches Some(r) ==> r < post.next_id) by {
                assert(self.tracked_worlds[i].id < self.next_id);
            }
        }
        assert forall|slot: i64| #[trigger] post.slot_pool(slot) == self.slot_pool(slot) by {
            if let Some(s) = self.tracked_slot(slot) {
                let p = crate::admission::world_with_id(s.world);
                lemma_first_index_found(self.tracked_worlds, p);
                let k = first_index(self.tracked_worlds, p);
                assert forall|j: int| 0 <= j < k implies !p(#[trigger] post.tracked_worlds[j]) by {
                    assert(!p(self.tracked_worlds[j]));
                }
                if k < self.tracked_worlds.len() {
                    assert(post.tracked_worlds[k].id == self.tracked_worlds[k].id);
                }
                lemma_first_index(post.tracked_worlds, p, k);
            }
        }
    }

    /// A reading leaves the tables consistent and every player within the
    /// allowances.
    pub proof fn lemma_refresh_keeps_wf(self, name: Seq<char>, data: Seq<(String, SlotData)>)
        requires
            self.wf(),
        ensures
            self.after_refresh(name, data).wf(),
            self.within_claim_caps() ==> self.after_refresh(name, data).within_claim_caps(),
            self.within_reality_cap() ==> self.after_refresh(name, data).within_reality_cap(),
    {
        let post = self.after_refresh(name, data);
        let mid = StoreView { tracked_slots: post.tracked_slots, ..self };
        self.lemma_slot_edit_keeps_wf(mid);
        self.lemma_slot_edit_pools(mid);
        mid.lemma_world_edit_keeps_wf(post);
        crate::seqs::lemma_filter_all(self.claims, |c: crate::store::Claim| true);
        assert forall|i: int| 0 <= i < self.tracked_slots.len() implies (
        #[trigger] mid.tracked_slots[i]).free == self.tracked_slots[i].free by {}
        assert forall|slot: i64| #[trigger] post.slot_pool(slot) is Some implies self.slot_pool(
            slot,
        ) == post.slot_pool(slot) by {
            assert(mid.slot_pool(slot) == post.slot_pool(slot));
        }
        self.lemma_fewer_claims_keep_caps(post, |c: crate::store::Claim| true);
    }
}

impl Store {
    /// Finds the tracked world with the name `name`.
    pub fn find_tracked_world_named(&self, name: &String) -> (found: Option<usize>)
        ensures
            match found {
                Some(k) => k < self.tracked_worlds@.len() && k == first_index(
                    self@.tracked_worlds,
                    tracked_named(name@),
                ) && self@.tracked_world_named(name@) == Some(self.tracked_worlds@[k as int]),
                None => self@.tracked_world_named(name@) is None && first_index(
                    self@.tracked_worlds,
                    tracked_named(name@),
                ) == self.tracked_worlds@.len(),
            },
    {
        let mut k: usize = 0;
        while k < self.tracked_worlds.len()
            invariant
                k <= self.tracked_worlds@.len(),
                forall|j: int|
                    0 <= j < k ==> !tracked_named(name@)(#[trigger] self.tracked_worlds@[j]),
            decreases self.tracked_worlds@.len() - k,
        {
            if self.tracked_worlds[k].name == *name {
                proof {
                    lemma_first_index(self.tracked_worlds@, tracked_named(name@), k as int);
                }
                return Some(k);
            }
            k += 1;
        }
        proof {
            lemma_first_index(self.tracked_worlds@, tracked_named(name@), k as int);
        }
        None
    }

    /// Says which tracker to read for the world `name` at the time `now`,
    /// and notes the reading: nothing where the world is unknown or its
    /// last reading is less than an hour old.
    pub fn begin_scrape(&mut self, name: &str, now: i64) -> (tracker: Option<String>)
        requires
            old(self).wf(),
        ensures
            tracker == old(self)@.tracker_due(name@, now),
            final(self)@ == (StoreView {
                tracked_worlds: old(self)@.worlds_read(name@, now),
                ..old(self)@
            }),
            final(self).wf(),
            old(self)@.within_claim_caps() ==> final(self)@.within_claim_caps(),
            old(self)@.within_reality_cap() ==> final(self)@.within_reality_cap(),
    {
        let world_name = name.to_owned();
        match self.find_tracked_world_named(&world_name) {
            Some(k) => {
                if now >= i64::MIN + SCRAPE_INTERVAL && self.tracked_worlds[k].last_scrape < now
                    - SCRAPE_INTERVAL {
                    let tracker = self.tracked_worlds[k].tracker_id.clone();
                    let row = TrackedWorld {
                        id: self.tracked_worlds[k].id,
                        name: self.tracked_worlds[k].name.clone(),
                        tracker_id: self.tracked_worlds[k].tracker_id.clone(),
                        reality: self.tracked_worlds[k].reality,
                        done: self.tracked_worlds[k].done,
                        last_scrape: now,
                    };
                    proof {
                        let post = StoreView {
                            tracked_worlds: self@.tracked_worlds.update(k as int, row),
                            ..self@
                        };
                        self@.lemma_world_edit_keeps_wf(post);
                        crate::seqs::lemma_filter_all(self@.claims, |c: crate::store::Claim| true);
                        self@.lemma_fewer_claims_keep_caps(post, |c: crate::store::Claim| true);
                    }
                    self.tracked_worlds.set(k, row);
                    Some(tracker)
                } else {
                    None
                }
            },
            None => None,
        }
    }

    /// Finds the entry of a reading for the slot with the name `name`.
    fn find_reading(data: &Vec<(String, SlotData)>, name: &String) -> (found: Option<usize>)
        ensures
            match found {
                Some(at) => at < data@.len() && at == first_index(data@, reading_named(name@)),
                None => first_index(data@, reading_named(name@)) == data@.len(),
            },
    {
        let mut at: usize = 0;
        while at < data.len()
            invariant
                at <= data@.len(),
                forall|j: int| 0 <= j < at ==> !reading_named(name@)(#[trigger] data@[j]),
            decreases data@.len() - at,
        {
            if data[at].0 == *name {
                proof {
                    lemma_first_index(data@, reading_named(name@), at as int);
                }
                return Some(at);
            }
            at += 1;
        }
        proof {
            lemma_first_index(data@, reading_named(name@), at as int);
        }
        None
    }

    /// Whether every slot of a reading has reached its goal.
    fn is_all_goal(data: &Vec<(String, SlotData)>) -> (all: bool)
        ensures
            all == all_goal(data@),
    {
        let mut i: usize = 0;
        while i < data.len()
            invariant
                i <= data@.len(),
                forall|j: int|
                    0 <= j < i ==> (#[trigger] data@[j]).1.status == Status::Goal
                        || data@[j].1.status == Status::Done,
            decreases data@.len() - i,
        {
            match data[i].1.status {
                Status::Goal => {},
                Status::Done => {},
                _ => {
                    return false;
                },
            }
            i += 1;
        }
        true
    }

    /// Takes a fresh reading of the tracker of the world `name` into the
    /// tracked slots.
    pub fn refresh(&mut self, name: &str, data: &Vec<(String, SlotData)>)
        requires
            old(self).wf(),
        ensures
            final(self)@ == old(self)@.after_refresh(name@, data@),
            final(self).wf(),
            old(self)@.within_claim_caps() ==> final(self)@.within_claim_caps(),
            old(self)@.within_reality_cap() ==> final(self)@.within_reality_cap(),
    {
        let world_name = name.to_owned();
        proof {
            self@.lemma_refresh_keeps_wf(name@, data@);
        }
        let ghost f = self@.refreshed(name@, data@);
        let ghost g = self@.completed(name@, data@);
        let mut rows: Vec<TrackedSlot> = Vec::new();
        let mut i: usize = 0;
        proof {
            assert(rows@ =~= self.tracked_slots@.take(0).map_values(f));
        }
        while i < self.tracked_slots.len()
            invariant
                i <= self.tracked_slots@.len(),
                world_name@ == name@,
                f == self@.refreshed(name@, data@),
                rows@ == self.tracked_slots@.take(i as int).map_values(f),
            decreases self.tracked_slots@.len() - i,
        {
            let mut row = self.tracked_slots[i].duplicate();
            if self.has_world_named(self.tracked_slots[i].world, &world_name) {
                match Store::find_reading(data, &self.tracked_slots[i].name) {
                    Some(at) => {
                        row.status.merge(data[at].1.status);
                        row.checks = data[at].1.checks;
                        row.last_activity = data[at].1.last_activity;
                    },
                    None => {},
                }
            }
            proof {
                assert(row == f(self.tracked_slots@[i as int]));
            }
            rows.push(row);
            proof {
                assert(rows@ =~= self.tracked_slots@.take(i + 1).map_values(f));
            }
            i += 1;
        }
        proof {
            assert(self.tracked_slots@.take(i as int) =~= self.tracked_slots@);
        }
        let all = Store::is_all_goal(data);
        let mut worlds: Vec<TrackedWorld> = Vec::new();
        let mut k: usize = 0;
        proof {
            assert(worlds@ =~= self.tracked_worlds@.take(0).map_values(g));
        }
        while k < self.tracked_worlds.len()
            invariant
                k <= self.tracked_worlds@.len(),
                world_name@ == name@,
                all == all_goal(data@),
                g == self@.completed(name@, data@),
                worlds@ == self.tracked_worlds@.take(k as int).map_values(g),
            decreases self.tracked_worlds@.len() - k,
        {
            let mut row = self.tracked_worlds[k].duplicate();
            if all && self.tracked_worlds[k].name == world_name {
                row.done = true;
            }
            proof {
                assert(row == g(self.tracked_worlds@[k as int]));
            }
            worlds.push(row);
            proof {
                assert(worlds@ =~= self.tracked_worlds@.take(k + 1).map_values(g));
            }
            k += 1;
        }
        proof {
            assert(self.tracked_worlds@.take(k as int) =~= self.tracked_worlds@);
        }
        self.tracked_slots = rows;
        self.tracked_worlds = worlds;
    }
}

} // verus!
