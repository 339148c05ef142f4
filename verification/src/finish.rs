//! Finishing a world: its points are awarded, and the world goes with all
//! that hangs on it.

use vstd::prelude::*;

use crate::claim::claim_on;
use crate::seqs::{lemma_filter_empty, lemma_filter_members, lemma_filter_pairwise, lemma_filter_push};
use crate::store::{first_index, lemma_first_index};
use crate::store::{Claim, Player, Preclaim, PreclaimStatus, SlotRow, Store, StoreView};
use crate::store::{TrackedSlot, TrackedWorld, Update, WorldRow};

verus! {

/// Why a world was not finished.
#[derive(Debug, PartialEq, Eq, Clone, Copy, Structural)]
pub enum FinishError {
    /// The points of a player would have left the range of the ledger.
    UpdatePoints,
}

impl FinishError {
    pub open spec fn text(self) -> Seq<char> {
        match self {
            FinishError::UpdatePoints => "Failed to update points. Aborting"@,
        }
    }

    /// The step that failed, as it is shown to the organizer.
    pub fn message(&self) -> (text: &'static str)
        ensures
            text@ == self.text(),
    {
        match self {
            FinishError::UpdatePoints => "Failed to update points. Aborting",
        }
    }
}

/// Players with the id `id`.
pub open spec fn player_with_id(id: i64) -> spec_fn(Player) -> bool {
    |p: Player| p.id == id
}

/// Tracked worlds with another name than `name`.
pub open spec fn not_named(name: Seq<char>) -> spec_fn(TrackedWorld) -> bool {
    |w: TrackedWorld| w.name@ != name
}

/// Worlds that are not tracked yet, with another name than `name`.
pub open spec fn pre_not_named(name: Seq<char>) -> spec_fn(WorldRow) -> bool {
    |w: WorldRow| w.name@ != name
}

impl StoreView {
    /// Tracked slots of the world `name`.
    pub open spec fn slot_in_named(self, name: Seq<char>) -> spec_fn(TrackedSlot) -> bool {
        |s: TrackedSlot| self.in_world_named(s.world, name)
    }

    /// Tracked slots of other worlds than `name`.
    pub open spec fn slot_not_in_named(self, name: Seq<char>) -> spec_fn(TrackedSlot) -> bool {
        |s: TrackedSlot| !self.in_world_named(s.world, name)
    }

    /// Whether the tracked slot `slot` belongs to the world `name`.
    pub open spec fn tracked_slot_under(self, slot: i64, name: Seq<char>) -> bool {
        exists|i: int|
            0 <= i < self.tracked_slots.len() && (#[trigger] self.tracked_slots[i]).id == slot
                && self.in_world_named(self.tracked_slots[i].world, name)
    }

    /// Claims on slots of other worlds than `name`.
    pub open spec fn claim_outside(self, name: Seq<char>) -> spec_fn(Claim) -> bool {
        |c: Claim| !self.tracked_slot_under(c.slot, name)
    }

    /// Status notes on slots of other worlds than `name`.
    pub open spec fn update_outside(self, name: Seq<char>) -> spec_fn(Update) -> bool {
        |u: Update| !self.tracked_slot_under(u.slot, name)
    }

    /// Slots of worlds that are not tracked yet, other than `name`.
    pub open spec fn pre_slot_outside(self, name: Seq<char>) -> spec_fn(SlotRow) -> bool {
        |s: SlotRow| !self.in_pre_world_named(s.world, name)
    }

    /// Preclaims on slots of other worlds than `name`.
    pub open spec fn preclaim_outside(self, name: Seq<char>) -> spec_fn(Preclaim) -> bool {
        |p: Preclaim| !self.slot_under(p.slot, name)
    }

    /// Whether `player` holds the claim on the slot `slot`.
    pub open spec fn claimed_by(self, slot: i64, player: i64) -> bool {
        exists|i: int|
            0 <= i < self.claims.len() && (#[trigger] self.claims[i]).slot == slot
                && self.claims[i].player == player
    }

    /// The points that finishing the world `name` awards to `player` for
    /// the slot `s`.
    pub open spec fn award(self, name: Seq<char>, player: i64, s: TrackedSlot) -> int {
        if self.in_world_named(s.world, name) && self.claimed_by(s.id, player) {
            s.points as int
        } else {
            0
        }
    }

    /// The points that finishing the world `name` awards to `player` for
    /// the first `n` tracked slots.
    pub open spec fn awards(self, n: int, name: Seq<char>, player: i64) -> int
        decreases n,
    {
        if n <= 0 {
            0
        } else {
            self.awards(n - 1, name, player) + self.award(name, player, self.tracked_slots[n - 1])
        }
    }

    /// The points that finishing the world `name` awards to `player`.
    pub open spec fn total_award(self, name: Seq<char>, player: i64) -> int {
        self.awards(self.tracked_slots.len() as int, name, player)
    }

    /// Whether finishing the world `name` would take the points of some
    /// player out of the range of the ledger.
    pub open spec fn finish_fails(self, name: Seq<char>) -> bool {
        exists|i: int|
            0 <= i < self.players.len() && (#[trigger] self.players[i]).points + self.total_award(
                name,
                self.players[i].id,
            ) > i64::MAX
    }

    /// A player with the points that finishing the world `name` awards.
    pub open spec fn credited(self, name: Seq<char>) -> spec_fn(Player) -> Player {
        |p: Player| Player { points: (p.points + self.total_award(name, p.id)) as i64, ..p }
    }

    /// How the holder of the claim on the slot `slot` is known outside, if
    /// the slot is claimed by a known player.
    pub open spec fn claimant(self, slot: i64) -> Option<i64> {
        let c = first_index(self.claims, claim_on(slot));
        if c < self.claims.len() {
            let i = first_index(self.players, player_with_id(self.claims[c].player));
            if i < self.players.len() {
                Some(self.players[i].snowflake)
            } else {
                None
            }
        } else {
            None
        }
    }

    /// A slot as finishing its world reports it: its name and its
    /// claimant.
    pub open spec fn reported(self) -> spec_fn(TrackedSlot) -> (String, Option<i64>) {
        |s: TrackedSlot| (s.name, self.claimant(s.id))
    }

    /// What finishing the world `name` reports: every slot of the world
    /// with its claimant, in the order of the table.
    pub open spec fn finish_report(self, name: Seq<char>) -> Seq<(String, Option<i64>)> {
        self.tracked_slots.filter(self.slot_in_named(name)).map_values(self.reported())
    }

    /// The tables after the world `name` was finished: the claimants are
    /// credited, and the world is gone with its slots, their claims and
    /// status notes, and with what was left of it from before it was
    /// tracked. Where the points of a player cannot be credited, nothing
    /// has changed.
    pub open spec fn after_finish(self, name: Seq<char>) -> StoreView {
        if self.finish_fails(name) {
            self
        } else {
            StoreView {
                players: self.players.map_values(self.credited(name)),
                tracked_slots: self.tracked_slots.filter(self.slot_not_in_named(name)),
                claims: self.claims.filter(self.claim_outside(name)),
                updates: self.updates.filter(self.update_outside(name)),
                tracked_worlds: self.tracked_worlds.filter(not_named(name)),
                worlds: self.worlds.filter(pre_not_named(name)),
                slots: self.slots.filter(self.pre_slot_outside(name)),
                preclaims: self.preclaims.filter(self.preclaim_outside(name)),
                ..self
            }
        }
    }

    /// Awards are never negative and grow with the slots counted.
    pub proof fn lemma_awards_grow(self, n: int, m: int, name: Seq<char>, player: i64)
        requires
            self.points_valid(),
            0 <= n <= m <= self.tracked_slots.len(),
        ensures
            0 <= self.awards(n, name, player) <= self.awards(m, name, player),
            self.awards(m, name, player) <= m * i64::MAX,
        decreases m,
    {
        if m > 0 {
            if n < m {
                self.lemma_awards_grow(n, m - 1, name, player);
            } else {
                self.lemma_awards_grow(n - 1, m - 1, name, player);
            }
            assert(self.tracked_slots[m - 1].points >= 0);
        }
    }

    /// Taking rows out of the tables leaves them consistent.
    pub proof fn lemma_removal_keeps_wf(self, post: StoreView)
        requires
            self.wf(),
            post.next_id == self.next_id,
            post.realities == self.realities,
            post.players.len() == self.players.len(),
            forall|i: int|
                0 <= i < post.players.len() ==> (#[trigger] post.players[i]).id
                    == self.players[i].id && post.players[i].points >= 0,
            exists|f: spec_fn(TrackedSlot) -> bool| post.tracked_slots == self.tracked_slots.filter(f),
            exists|f: spec_fn(Claim) -> bool| post.claims == self.claims.filter(f),
            exists|f: spec_fn(TrackedWorld) -> bool|
                post.tracked_worlds == self.tracked_worlds.filter(f),
            exists|f: spec_fn(WorldRow) -> bool| post.worlds == self.worlds.filter(f),
            exists|f: spec_fn(SlotRow) -> bool| post.slots == self.slots.filter(f),
            exists|f: spec_fn(Preclaim) -> bool| post.preclaims == self.preclaims.filter(f),
        ensures
            post.wf(),
    {
        let fs = choose|f: spec_fn(TrackedSlot) -> bool|
            post.tracked_slots == self.tracked_slots.filter(f);
        let fc = choose|f: spec_fn(Claim) -> bool| post.claims == self.claims.filter(f);
        let fw = choose|f: spec_fn(TrackedWorld) -> bool|
            post.tracked_worlds == self.tracked_worlds.filter(f);
        let fpw = choose|f: spec_fn(WorldRow) -> bool| post.worlds == self.worlds.filter(f);
        let fps = choose|f: spec_fn(SlotRow) -> bool| post.slots == self.slots.filter(f);
        let fp = choose|f: spec_fn(Preclaim) -> bool| post.preclaims == self.preclaims.filter(f);
        lemma_filter_members(self.tracked_slots, fs);
        lemma_filter_members(self.claims, fc);
        lemma_filter_members(self.tracked_worlds, fw);
        lemma_filter_members(self.worlds, fpw);
        lemma_filter_members(self.slots, fps);
        lemma_filter_members(self.preclaims, fp);
        lemma_filter_pairwise(self.claims, fc, |a: Claim, b: Claim| a.slot != b.slot);
        lemma_filter_pairwise(
            self.preclaims,
            fp,
            |a: Preclaim, b: Preclaim|
                a.status == PreclaimStatus::Pending && b.status == PreclaimStatus::Pending
                    ==> a.player != b.player,
        );
        lemma_filter_pairwise(self.tracked_worlds, fw, |a: TrackedWorld, b: TrackedWorld| a.id != b.id);
        lemma_filter_pairwise(self.tracked_slots, fs, |a: TrackedSlot, b: TrackedSlot| a.id != b.id);
        lemma_filter_pairwise(
            self.worlds,
            fpw,
            |a: WorldRow, b: WorldRow| a.id != b.id && a.name@ != b.name@,
        );
        lemma_filter_pairwise(self.slots, fps, |a: SlotRow, b: SlotRow| a.id != b.id);
        assert(post.won_only_resolved()) by {
            assert forall|i: int, j: int, k: int|
                0 <= i < post.preclaims.len() && 0 <= j < post.slots.len() && 0 <= k
                    < post.worlds.len() && post.preclaims[i].status == PreclaimStatus::Won
                    && post.slots[j].id == post.preclaims[i].slot && post.worlds[k].id
                    == post.slots[j].world implies post.worlds[k].resolved_preclaims by {
                assert(self.preclaims.contains(post.preclaims[i]));
                assert(self.slots.contains(post.slots[j]));
                assert(self.worlds.contains(post.worlds[k]));
                let i0 = choose|n: int|
                    0 <= n < self.preclaims.len() && self.preclaims[n] == post.preclaims[i];
                let j0 = choose|n: int| 0 <= n < self.slots.len() && self.slots[n] == post.slots[j];
                let k0 = choose|n: int|
                    0 <= n < self.worlds.len() && self.worlds[n] == post.worlds[k];
                assert(self.worlds[k0].resolved_preclaims);
            }
        }
        assert(post.ids_issued()) by {
            assert forall|i: int| 0 <= i < post.players.len() implies (#[trigger] post.players[i]).id
                < post.next_id by {
                assert(self.players[i].id < self.next_id);
            }
            assert forall|i: int| 0 <= i < post.worlds.len() implies (#[trigger] post.worlds[i]).id
                < post.next_id by {
                assert(self.worlds.contains(post.worlds[i]));
                let n = choose|n: int| 0 <= n < self.worlds.len() && self.worlds[n] == post.worlds[i];
                assert(self.worlds[n].id < self.next_id);
            }
            assert forall|i: int| 0 <= i < post.slots.len() implies (#[trigger] post.slots[i]).id
                < post.next_id && post.slots[i].world < post.next_id by {
                assert(self.slots.contains(post.slots[i]));
                let n = choose|n: int| 0 <= n < self.slots.len() && self.slots[n] == post.slots[i];
                assert(self.slots[n].id < self.next_id);
            }
            assert forall|i: int| 0 <= i < post.preclaims.len() implies (
            #[trigger] post.preclaims[i]).slot < post.next_id by {
                assert(self.preclaims.contains(post.preclaims[i]));
                let n = choose|n: int|
                    0 <= n < self.preclaims.len() && self.preclaims[n] == post.preclaims[i];
                assert(self.preclaims[n].slot < self.next_id);
            }
            assert forall|i: int| 0 <= i < post.tracked_worlds.len() implies (
            #[trigger] post.tracked_worlds[i]).id < post.next_id && (
            post.tracked_worlds[i].reality matches Some(r) ==> r < post.next_id) by {
                assert(self.tracked_worlds.contains(post.tracked_worlds[i]));
                let n = choose|n: int|
                    0 <= n < self.tracked_worlds.len() && self.tracked_worlds[n]
                        == post.tracked_worlds[i];
                assert(self.tracked_worlds[n].id < self.next_id);
            }
            assert forall|i: int| 0 <= i < post.tracked_slots.len() implies (
            #[trigger] post.tracked_slots[i]).id < post.next_id && post.tracked_slots[i].world
                < post.next_id by {
                assert(self.tracked_slots.contains(post.tracked_slots[i]));
                let n = choose|n: int|
                    0 <= n < self.tracked_slots.len() && self.tracked_slots[n]
                        == post.tracked_slots[i];
                assert(self.tracked_slots[n].id < self.next_id);
            }
            assert forall|i: int| 0 <= i < post.claims.len() implies (#[trigger] post.claims[i]).slot
                < post.next_id by {
                assert(self.claims.contains(post.claims[i]));
                let n = choose|n: int| 0 <= n < self.claims.len() && self.claims[n] == post.claims[i];
                assert(self.claims[n].slot < self.next_id);
            }
        }
        assert(post.points_valid()) by {
            assert forall|i: int| 0 <= i < post.tracked_slots.len() implies (
            #[trigger] post.tracked_slots[i]).points >= 0 by {
                assert(self.tracked_slots.contains(post.tracked_slots[i]));
                let n = choose|n: int|
                    0 <= n < self.tracked_slots.len() && self.tracked_slots[n]
                        == post.tracked_slots[i];
                assert(self.tracked_slots[n].points >= 0);
            }
        }
    }

    /// Finishing a world leaves the tables consistent.
    pub proof fn lemma_finish_keeps_wf(self, name: Seq<char>)
        requires
            self.wf(),
        ensures
            self.after_finish(name).wf(),
    {
        let post = self.after_finish(name);
        if !self.finish_fails(name) {
            assert forall|i: int| 0 <= i < post.players.len() implies (#[trigger] post.players[i]).id
                == self.players[i].id && post.players[i].points >= 0 by {
                self.lemma_awards_grow(
                    0,
                    self.tracked_slots.len() as int,
                    name,
                    self.players[i].id,
                );
                assert(self.players[i].points >= 0);
                assert(post.players[i] == self.credited(name)(self.players[i]));
            }
            assert(post.tracked_slots == self.tracked_slots.filter(self.slot_not_in_named(name)));
            assert(post.claims == self.claims.filter(self.claim_outside(name)));
            assert(post.tracked_worlds == self.tracked_worlds.filter(not_named(name)));
            assert(post.worlds == self.worlds.filter(pre_not_named(name)));
            assert(post.slots == self.slots.filter(self.pre_slot_outside(name)));
            assert(post.preclaims == self.preclaims.filter(self.preclaim_outside(name)));
            self.lemma_removal_keeps_wf(post);
        }
    }

    /// Finishing a world lifts no player over an allowance: it only takes
    /// claims away.
    pub proof fn lemma_finish_keeps_caps(self, name: Seq<char>)
        requires
            self.wf(),
        ensures
            self.within_claim_caps() ==> self.after_finish(name).within_claim_caps(),
            self.within_reality_cap() ==> self.after_finish(name).within_reality_cap(),
    {
        let post = self.after_finish(name);
        if !self.finish_fails(name) {
            lemma_filter_members(self.tracked_slots, self.slot_not_in_named(name));
            lemma_filter_members(self.tracked_worlds, not_named(name));
            self.lemma_subtables_pools(post);
            self.lemma_fewer_claims_keep_caps(post, self.claim_outside(name));
        }
    }

    /// A world that cannot be finished is left as it was: no points are
    /// awarded and no row is removed.
    pub proof fn lemma_failed_finish_changes_nothing(self, name: Seq<char>)
        requires
            self.finish_fails(name),
        ensures
            self.after_finish(name) == self,
    {
    }
}

impl Store {
    /// Whether the tracked slot `slot` belongs to the world `name`.
    pub fn is_tracked_slot_under(&self, slot: i64, name: &String) -> (found: bool)
        ensures
            found == self@.tracked_slot_under(slot, name@),
    {
        let mut i: usize = 0;
        while i < self.tracked_slots.len()
            invariant
                i <= self.tracked_slots@.len(),
                forall|j: int|
                    0 <= j < i ==> !((#[trigger] self.tracked_slots@[j]).id == slot
                        && self@.in_world_named(self.tracked_slots@[j].world, name@)),
            decreases self.tracked_slots@.len() - i,
        {
            if self.tracked_slots[i].id == slot && self.has_world_named(
                self.tracked_slots[i].world,
                name,
            ) {
                proof {
                    assert(self@.tracked_slots[i as int].id == slot && self@.in_world_named(
                        self@.tracked_slots[i as int].world,
                        name@,
                    ));
                }
                return true;
            }
            i += 1;
        }
        false
    }

    /// Whether `player` holds the claim on the slot `slot`.
    pub fn is_claimed_by(&self, slot: i64, player: i64) -> (found: bool)
        ensures
            found == self@.claimed_by(slot, player),
    {
        let mut i: usize = 0;
        while i < self.claims.len()
            invariant
                i <= self.claims@.len(),
                forall|j: int|
                    0 <= j < i ==> !((#[trigger] self.claims@[j]).slot == slot
                        && self.claims@[j].player == player),
            decreases self.claims@.len() - i,
        {
            if self.claims[i].slot == slot && self.claims[i].player == player {
                proof {
                    assert(self@.claims[i as int].slot == slot);
                }
                return true;
            }
            i += 1;
        }
        false
    }

    /// Computes [`StoreView::claimant`].
    pub fn claimant_of(&self, slot: i64) -> (claimant: Option<i64>)
        ensures
            claimant == self@.claimant(slot),
    {
        let mut c: usize = 0;
        while c < self.claims.len()
            invariant
                c <= self.claims@.len(),
                forall|j: int| 0 <= j < c ==> !claim_on(slot)(#[trigger] self.claims@[j]),
            decreases self.claims@.len() - c,
        {
            if self.claims[c].slot == slot {
                proof {
                    lemma_first_index(self.claims@, claim_on(slot), c as int);
                }
                let player = self.claims[c].player;
                let mut i: usize = 0;
                while i < self.players.len()
                    invariant
                        i <= self.players@.len(),
                        c < self.claims@.len(),
                        first_index(self.claims@, claim_on(slot)) == c,
                        player == self.claims@[c as int].player,
                        forall|j: int|
                            0 <= j < i ==> !player_with_id(player)(#[trigger] self.players@[j]),
                    decreases self.players@.len() - i,
                {
                    if self.players[i].id == player {
                        proof {
                            lemma_first_index(self.players@, player_with_id(player), i as int);
                        }
                        return Some(self.players[i].snowflake);
                    }
                    i += 1;
                }
                proof {
                    lemma_first_index(self.players@, player_with_id(player), i as int);
                }
                return None;
            }
            c += 1;
        }
        proof {
            lemma_first_index(self.claims@, claim_on(slot), c as int);
        }
        None
    }

    /// The points that finishing the world `name` awards to `player`.
    fn total_award_of(&self, name: &String, player: i64) -> (total: i128)
        requires
            self@.points_valid(),
        ensures
            total == self@.total_award(name@, player),
            0 <= total <= usize::MAX * i64::MAX,
    {
        let mut total: i128 = 0;
        let mut n: usize = 0;
        while n < self.tracked_slots.len()
            invariant
                self@.points_valid(),
                n <= self.tracked_slots@.len(),
                total == self@.awards(n as int, name@, player),
                0 <= total <= n * i64::MAX,
            decreases self.tracked_slots@.len() - n,
        {
            proof {
                self@.lemma_awards_grow(n as int, n + 1, name@, player);
            }
            if self.has_world_named(self.tracked_slots[n].world, name) && self.is_claimed_by(
                self.tracked_slots[n].id,
                player,
            ) {
                total = total + self.tracked_slots[n].points as i128;
            }
            n += 1;
        }
        total
    }

    /// The players with the points that finishing the world `name` awards,
    /// unless the points of one of them leave the range of the ledger.
    fn players_credited(&self, name: &String) -> (credited: Option<Vec<Player>>)
        requires
            self@.points_valid(),
        ensures
            match credited {
                Some(players) => !self@.finish_fails(name@) && players@ == self@.players.map_values(
                    self@.credited(name@),
                ),
                None => self@.finish_fails(name@),
            },
    {
        let mut players: Vec<Player> = Vec::new();
        let mut i: usize = 0;
        proof {
            assert(players@ =~= self.players@.take(0).map_values(self@.credited(name@)));
        }
        while i < self.players.len()
            invariant
                self@.points_valid(),
                i <= self.players@.len(),
                players@ == self.players@.take(i as int).map_values(self@.credited(name@)),
                forall|j: int|
                    0 <= j < i ==> (#[trigger] self.players@[j]).points + self@.total_award(
                        name@,
                        self.players@[j].id,
                    ) <= i64::MAX,
            decreases self.players@.len() - i,
        {
            let total = self.total_award_of(name, self.players[i].id);
            let points = self.players[i].points as i128 + total;
            if points > i64::MAX as i128 {
                proof {
                    assert(self@.players[i as int].points + self@.total_award(
                        name@,
                        self@.players[i as int].id,
                    ) > i64::MAX);
                }
                return None;
            }
            proof {
                self@.lemma_awards_grow(
                    0,
                    self.tracked_slots@.len() as int,
                    name@,
                    self.players@[i as int].id,
                );
                assert(self.players@[i as int].points >= 0);
            }
            let row = Player {
                id: self.players[i].id,
                snowflake: self.players[i].snowflake,
                name: self.players[i].name.clone(),
                points: points as i64,
                unspent_points: self.players[i].unspent_points,
                transfer_to: self.players[i].transfer_to,
            };
            proof {
                assert(row == self@.credited(name@)(self.players@[i as int]));
            }
            players.push(row);
            proof {
                assert(players@ =~= self.players@.take(i + 1).map_values(self@.credited(name@)));
            }
            i += 1;
        }
        proof {
            assert(self.players@.take(i as int) =~= self.players@);
        }
        Some(players)
    }

    /// What finishing the world `name` reports.
    fn report_of(&self, name: &String) -> (report: Vec<(String, Option<i64>)>)
        ensures
            report@ == self@.finish_report(name@),
    {
        let mut report: Vec<(String, Option<i64>)> = Vec::new();
        let mut i: usize = 0;
        proof {
            lemma_filter_empty(self@.slot_in_named(name@));
            assert(self.tracked_slots@.take(0) =~= Seq::<TrackedSlot>::empty());
            assert(report@ =~= self.tracked_slots@.take(0).filter(
                self@.slot_in_named(name@),
            ).map_values(self@.reported()));
        }
        while i < self.tracked_slots.len()
            invariant
                i <= self.tracked_slots@.len(),
                report@ == self.tracked_slots@.take(i as int).filter(
                    self@.slot_in_named(name@),
                ).map_values(self@.reported()),
            decreases self.tracked_slots@.len() - i,
        {
            let ghost kept = self.tracked_slots@.take(i as int).filter(self@.slot_in_named(name@));
            proof {
                lemma_filter_push(
                    self.tracked_slots@.take(i as int),
                    self.tracked_slots@[i as int],
                    self@.slot_in_named(name@),
                );
                assert(self.tracked_slots@.take(i as int).push(self.tracked_slots@[i as int])
                    =~= self.tracked_slots@.take(i + 1));
            }
            if self.has_world_named(self.tracked_slots[i].world, name) {
                let claimant = self.claimant_of(self.tracked_slots[i].id);
                report.push((self.tracked_slots[i].name.clone(), claimant));
                proof {
                    assert(report@ =~= kept.push(self.tracked_slots@[i as int]).map_values(
                        self@.reported(),
                    ));
                }
            }
            i += 1;
        }
        proof {
            assert(self.tracked_slots@.take(i as int) =~= self.tracked_slots@);
        }
        report
    }

    /// The tracked slots of other worlds than `name`.
    pub fn tracked_slots_outside(&self, name: &String) -> (kept: Vec<TrackedSlot>)
        ensures
            kept@ == self@.tracked_slots.filter(self@.slot_not_in_named(name@)),
    {
        let mut kept: Vec<TrackedSlot> = Vec::new();
        let mut i: usize = 0;
        proof {
            lemma_filter_empty(self@.slot_not_in_named(name@));
            assert(self.tracked_slots@.take(0) =~= Seq::<TrackedSlot>::empty());
        }
        while i < self.tracked_slots.len()
            invariant
                i <= self.tracked_slots@.len(),
                kept@ == self.tracked_slots@.take(i as int).filter(
                    self@.slot_not_in_named(name@),
                ),
            decreases self.tracked_slots@.len() - i,
        {
            proof {
                lemma_filter_push(
                    self.tracked_slots@.take(i as int),
                    self.tracked_slots@[i as int],
                    self@.slot_not_in_named(name@),
                );
                assert(self.tracked_slots@.take(i as int).push(self.tracked_slots@[i as int])
                    =~= self.tracked_slots@.take(i + 1));
            }
            if !self.has_world_named(self.tracked_slots[i].world, name) {
                kept.push(self.tracked_slots[i].duplicate());
            }
            i += 1;
        }
        proof {
            assert(self.tracked_slots@.take(i as int) =~= self.tracked_slots@);
        }
        kept
    }

    /// The claims on slots of other worlds than `name`.
    pub fn claims_outside(&self, name: &String) -> (kept: Vec<Claim>)
        ensures
            kept@ == self@.claims.filter(self@.claim_outside(name@)),
    {
        let mut kept: Vec<Claim> = Vec::new();
        let mut i: usize = 0;
        proof {
            lemma_filter_empty(self@.claim_outside(name@));
            assert(self.claims@.take(0) =~= Seq::<Claim>::empty());
        }
        while i < self.claims.len()
            invariant
                i <= self.claims@.len(),
                kept@ == self.claims@.take(i as int).filter(self@.claim_outside(name@)),
            decreases self.claims@.len() - i,
        {
            proof {
                lemma_filter_push(
                    self.claims@.take(i as int),
                    self.claims@[i as int],
                    self@.claim_outside(name@),
                );
                assert(self.claims@.take(i as int).push(self.claims@[i as int])
                    =~= self.claims@.take(i + 1));
            }
            if !self.is_tracked_slot_under(self.claims[i].slot, name) {
                kept.push(self.claims[i].duplicate());
            }
            i += 1;
        }
        proof {
            assert(self.claims@.take(i as int) =~= self.claims@);
        }
        kept
    }

    /// The status notes on slots of other worlds than `name`.
    pub fn updates_outside(&self, name: &String) -> (kept: Vec<Update>)
        ensures
            kept@ == self@.updates.filter(self@.update_outside(name@)),
    {
        let mut kept: Vec<Update> = Vec::new();
        let mut i: usize = 0;
        proof {
            lemma_filter_empty(self@.update_outside(name@));
            assert(self.updates@.take(0) =~= Seq::<Update>::empty());
        }
        while i < self.updates.len()
            invariant
                i <= self.updates@.len(),
                kept@ == self.updates@.take(i as int).filter(self@.update_outside(name@)),
            decreases self.updates@.len() - i,
        {
            proof {
                lemma_filter_push(
                    self.updates@.take(i as int),
                    self.updates@[i as int],
                    self@.update_outside(name@),
                );
                assert(self.updates@.take(i as int).push(self.updates@[i as int])
                    =~= self.updates@.take(i + 1));
            }
            if !self.is_tracked_slot_under(self.updates[i].slot, name) {
                kept.push(self.updates[i].duplicate());
            }
            i += 1;
        }
        proof {
            assert(self.updates@.take(i as int) =~= self.updates@);
        }
        kept
    }

    /// The tracked worlds with another name than `name`.
    pub fn tracked_worlds_except(&self, name: &String) -> (kept: Vec<TrackedWorld>)
        ensures
            kept@ == self@.tracked_worlds.filter(not_named(name@)),
    {
        let mut kept: Vec<TrackedWorld> = Vec::new();
        let mut i: usize = 0;
        proof {
            lemma_filter_empty(not_named(name@));
            assert(self.tracked_worlds@.take(0) =~= Seq::<TrackedWorld>::empty());
        }
        while i < self.tracked_worlds.len()
            invariant
                i <= self.tracked_worlds@.len(),
                kept@ == self.tracked_worlds@.take(i as int).filter(not_named(name@)),
            decreases self.tracked_worlds@.len() - i,
        {
            proof {
                lemma_filter_push(
                    self.tracked_worlds@.take(i as int),
                    self.tracked_worlds@[i as int],
                    not_named(name@),
                );
                assert(self.tracked_worlds@.take(i as int).push(self.tracked_worlds@[i as int])
                    =~= self.tracked_worlds@.take(i + 1));
            }
            if !(self.tracked_worlds[i].name == *name) {
                kept.push(self.tracked_worlds[i].duplicate());
            }
            i += 1;
        }
        proof {
            assert(self.tracked_worlds@.take(i as int) =~= self.tracked_worlds@);
        }
        kept
    }

    /// The worlds that are not tracked yet, with another name than `name`.
    pub fn worlds_except(&self, name: &String) -> (kept: Vec<WorldRow>)
        ensures
            kept@ == self@.worlds.filter(pre_not_named(name@)),
    {
        let mut kept: Vec<WorldRow> = Vec::new();
        let mut i: usize = 0;
        proof {
            lemma_filter_empty(pre_not_named(name@));
            assert(self.worlds@.take(0) =~= Seq::<WorldRow>::empty());
        }
        while i < self.worlds.len()
            invariant
                i <= self.worlds@.len(),
                kept@ == self.worlds@.take(i as int).filter(pre_not_named(name@)),
            decreases self.worlds@.len() - i,
        {
            proof {
                lemma_filter_push(
                    self.worlds@.take(i as int),
                    self.worlds@[i as int],
                    pre_not_named(name@),
                );
                assert(self.worlds@.take(i as int).push(self.worlds@[i as int])
                    =~= self.worlds@.take(i + 1));
            }
            if !(self.worlds[i].name == *name) {
                kept.push(self.worlds[i].duplicate());
            }
            i += 1;
        }
        proof {
            assert(self.worlds@.take(i as int) =~= self.worlds@);
        }
        kept
    }

    /// The slots of the worlds that are not tracked yet, other than `name`.
    pub fn slots_outside(&self, name: &String) -> (kept: Vec<SlotRow>)
        ensures
            kept@ == self@.slots.filter(self@.pre_slot_outside(name@)),
    {
        let mut kept: Vec<SlotRow> = Vec::new();
        let mut i: usize = 0;
        proof {
            lemma_filter_empty(self@.pre_slot_outside(name@));
            assert(self.slots@.take(0) =~= Seq::<SlotRow>::empty());
        }
        while i < self.slots.len()
            invariant
                i <= self.slots@.len(),
                kept@ == self.slots@.take(i as int).filter(self@.pre_slot_outside(name@)),
            decreases self.slots@.len() - i,
        {
            proof {
                lemma_filter_push(
                    self.slots@.take(i as int),
                    self.slots@[i as int],
                    self@.pre_slot_outside(name@),
                );
                assert(self.slots@.take(i as int).push(self.slots@[i as int])
                    =~= self.slots@.take(i + 1));
            }
            if !self.has_pre_world_named(self.slots[i].world, name) {
                kept.push(self.slots[i].duplicate());
            }
            i += 1;
        }
        proof {
            assert(self.slots@.take(i as int) =~= self.slots@);
        }
        kept
    }

    /// The preclaims on slots of other worlds than `name`.
    pub fn preclaims_outside(&self, name: &String) -> (kept: Vec<Preclaim>)
        ensures
            kept@ == self@.preclaims.filter(self@.preclaim_outside(name@)),
    {
        let mut kept: Vec<Preclaim> = Vec::new();
        let mut i: usize = 0;
        proof {
            lemma_filter_empty(self@.preclaim_outside(name@));
            assert(self.preclaims@.take(0) =~= Seq::<Preclaim>::empty());
        }
        while i < self.preclaims.len()
            invariant
                i <= self.preclaims@.len(),
                kept@ == self.preclaims@.take(i as int).filter(self@.preclaim_outside(name@)),
            decreases self.preclaims@.len() - i,
        {
            proof {
                lemma_filter_push(
                    self.preclaims@.take(i as int),
                    self.preclaims@[i as int],
                    self@.preclaim_outside(name@),
                );
                assert(self.preclaims@.take(i as int).push(self.preclaims@[i as int])
                    =~= self.preclaims@.take(i + 1));
            }
            if !self.is_slot_under(self.preclaims[i].slot, name) {
                kept.push(self.preclaims[i]);
            }
            i += 1;
        }
        proof {
            assert(self.preclaims@.take(i as int) =~= self.preclaims@);
        }
        kept
    }

    /// A copy of the realities.
    pub fn realities_copied(&self) -> (copy: Vec<crate::store::NamedReality>)
        ensures
            copy@ == self@.realities,
    {
        let mut copy: Vec<crate::store::NamedReality> = Vec::new();
        let mut i: usize = 0;
        while i < self.realities.len()
            invariant
                i <= self.realities@.len(),
                copy@ == self.realities@.take(i as int),
            decreases self.realities@.len() - i,
        {
            copy.push(self.realities[i].duplicate());
            proof {
                assert(copy@ =~= self.realities@.take(i + 1));
            }
            i += 1;
        }
        proof {
            assert(self.realities@.take(i as int) =~= self.realities@);
        }
        copy
    }

    /// Works out what finishing the world `name` leaves and reports,
    /// without touching this store.
    ///
    /// Every slot of the world is reported with its claimant, and the
    /// claimant is credited with the points of the slot. The tables that
    /// are returned hold neither the world nor its slots, claims and status
    /// notes, nor a same-named world that is not tracked yet. Where the
    /// points of a player would leave the range of the ledger, nothing is
    /// returned but the step that failed.
    pub fn finished(&self, name: &str) -> (result: Result<
        (Store, Vec<(String, Option<i64>)>),
        FinishError,
    >)
        requires
            self.wf(),
        ensures
            match result {
                Ok((next, report)) => {
                    &&& !self@.finish_fails(name@)
                    &&& next@ == self@.after_finish(name@)
                    &&& report@ == self@.finish_report(name@)
                    &&& next.wf()
                    &&& (self@.within_claim_caps() ==> next@.within_claim_caps())
                    &&& (self@.within_reality_cap() ==> next@.within_reality_cap())
                },
                Err(e) => e == FinishError::UpdatePoints && self@.finish_fails(name@),
            },
    {
        let world_name = name.to_owned();
        proof {
            self@.lemma_finish_keeps_wf(name@);
            self@.lemma_finish_keeps_caps(name@);
        }
        let players = match self.players_credited(&world_name) {
            Some(players) => players,
            None => {
                return Err(FinishError::UpdatePoints);
            },
        };
        let report = self.report_of(&world_name);
        let next = Store {
            players,
            realities: self.realities_copied(),
            worlds: self.worlds_except(&world_name),
            slots: self.slots_outside(&world_name),
            preclaims: self.preclaims_outside(&world_name),
            tracked_worlds: self.tracked_worlds_except(&world_name),
            tracked_slots: self.tracked_slots_outside(&world_name),
            claims: self.claims_outside(&world_name),
            updates: self.updates_outside(&world_name),
            next_id: self.next_id,
        };
        Ok((next, report))
    }

    /// Finishes the world `name`: awards its points, removes it with all
    /// that hangs on it, and reports every slot with its claimant.
    ///
    /// Either all of this happens or, where it fails, none of it.
    pub fn finish_world(&mut self, name: &str) -> (result: Result<
        Vec<(String, Option<i64>)>,
        FinishError,
    >)
        requires
            old(self).wf(),
        ensures
            final(self).wf(),
            final(self)@ == old(self)@.after_finish(name@),
            match result {
                Ok(report) => !old(self)@.finish_fails(name@) && report@ == old(self)@.finish_report(name@),
                Err(e) => e == FinishError::UpdatePoints && old(self)@.finish_fails(name@)
                    && final(self)@ == old(self)@,
            },
            old(self)@.within_claim_caps() ==> final(self)@.within_claim_caps(),
            old(self)@.within_reality_cap() ==> final(self)@.within_reality_cap(),
    {
        match self.finished(name) {
            Ok((next, report)) => {
                *self = next;
                Ok(report)
            },
            Err(e) => Err(e),
        }
    }
}

} // verus!
