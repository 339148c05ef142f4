//! Players, realities, and worlds that wait to be tracked.

use vstd::prelude::*;

use crate::admission::{world_with_id, Denial};
use crate::claim::not_pending_of;
use crate::finish::pre_not_named;
use crate::resolver::{pre_slot_with_id, pre_world_named};
use crate::seqs::{lemma_filter_all, lemma_filter_empty, lemma_filter_members};
use crate::seqs::lemma_filter_push;
use crate::store::{first_index, lemma_first_index, lemma_first_index_found};
use crate::store::{Claim, NamedReality, Player, Preclaim, PreclaimStatus, Reality, SlotRow};
use crate::store::{Store, StoreView, TrackedSlot, TrackedWorld, WorldRow};

verus! {

/// Why a reality was not registered.
#[derive(Debug, PartialEq, Eq, Clone, Copy, Structural)]
pub enum RealityError {
    /// A reality must allow at least one claim.
    InvalidMaxClaims,
    /// The store has no id left to hand out.
    Exhausted,
}

/// Why a world was not created.
#[derive(Debug, PartialEq, Eq, Clone, Copy, Structural)]
pub enum NewWorldError {
    /// No reality has the name given.
    RealityNotFound,
    /// A world of that name waits to be tracked already, or the store has
    /// not enough ids left to hand out.
    CreateWorld,
}

/// Why a preclaim was not made.
#[derive(Debug, PartialEq, Eq, Clone, Copy, Structural)]
pub enum PreclaimError {
    SlotNotFound,
    AdmissionDenied(Denial),
}

/// Players known outside as `snowflake`.
pub open spec fn player_with_snowflake(snowflake: i64) -> spec_fn(Player) -> bool {
    |p: Player| p.snowflake == snowflake
}

/// Realities with the name `name`.
pub open spec fn reality_named(name: Seq<char>) -> spec_fn(NamedReality) -> bool {
    |r: NamedReality| r.name@ == name
}

/// Whether `row` is the slot that a new world with the id `world` gets
/// under the id `id` for the entry `entry` of its slot file.
pub open spec fn is_new_slot(row: SlotRow, id: int, world: int, entry: (String, String, String, String)) -> bool {
    &&& row.id == id
    &&& row.world == world
    &&& row.name@ == entry.0@
    &&& row.games@ == entry.1@
    &&& row.notes@ == entry.2@
    &&& row.points@ == entry.3@
}

impl StoreView {
    /// The player known outside as `snowflake`.
    pub open spec fn player_known(self, snowflake: i64) -> Option<Player> {
        let i = first_index(self.players, player_with_snowflake(snowflake));
        if i < self.players.len() {
            Some(self.players[i])
        } else {
            None
        }
    }

    /// The reality with the name `name`.
    pub open spec fn reality_by_name(self, name: Seq<char>) -> Option<Reality> {
        let i = first_index(self.realities, reality_named(name));
        if i < self.realities.len() {
            Some(self.realities[i].reality)
        } else {
            None
        }
    }

    /// Whether asking for the player known outside as `snowflake`, and as
    /// `name` by name, gives `player` and leaves the tables `post`: a known
    /// player is returned as is; an unknown one is registered without
    /// points and returned, unless the store has no id left.
    pub open spec fn gets_player(
        self,
        snowflake: i64,
        name: Seq<char>,
        post: StoreView,
        player: Option<Player>,
    ) -> bool {
        match self.player_known(snowflake) {
            Some(known) => player == Some(known) && post == self,
            None => if self.next_id < i64::MAX {
                &&& player matches Some(p)
                &&& p.id == self.next_id
                &&& p.snowflake == snowflake
                &&& p.name@ == name
                &&& p.points == 0
                &&& p.unspent_points == 0
                &&& p.transfer_to is None
                &&& post == self.with_player(p)
            } else {
                player is None && post == self
            },
        }
    }

    /// Whether creating the world `name` with the slots `slots` returns
    /// `result` and leaves the tables `post`.
    ///
    /// The reality must be known, no world of that name may wait to be
    /// tracked, and the store needs an id for the world and for each of
    /// its slots; else nothing changes. The world gets the next id and
    /// its slots the ids after that, in the order of `slots`.
    pub open spec fn creates_world(
        self,
        post: StoreView,
        name: Seq<char>,
        preclaim_end: i64,
        reality: Option<Seq<char>>,
        slots: Seq<(String, String, String, String)>,
        result: Result<usize, NewWorldError>,
    ) -> bool {
        if reality matches Some(r) && self.reality_by_name(r) is None {
            result == Err::<usize, NewWorldError>(NewWorldError::RealityNotFound) && post == self
        } else if self.pre_world(name) is Some || self.next_id + 1 + slots.len() > i64::MAX {
            result == Err::<usize, NewWorldError>(NewWorldError::CreateWorld) && post == self
        } else {
            &&& result == Ok::<usize, NewWorldError>(slots.len() as usize)
            &&& post.worlds.len() == self.worlds.len() + 1
            &&& post.slots.len() == self.slots.len() + slots.len()
            &&& post == self.with_world(
                post.worlds.last(),
                post.slots.subrange(self.slots.len() as int, post.slots.len() as int),
            )
            &&& post.worlds.last().id == self.next_id
            &&& post.worlds.last().name@ == name
            &&& post.worlds.last().preclaim_end == preclaim_end
            &&& !post.worlds.last().resolved_preclaims
            &&& post.worlds.last().reality == match reality {
                Some(r) => Some(self.reality_by_name(r)->0.id),
                None => None,
            }
            &&& forall|i: int|
                0 <= i < slots.len() ==> is_new_slot(
                    #[trigger] post.slots[self.slots.len() + i],
                    self.next_id + 1 + i,
                    self.next_id as int,
                    slots[i],
                )
        }
    }

    /// The tables with one more player.
    pub open spec fn with_player(self, player: Player) -> StoreView {
        StoreView { players: self.players.push(player), next_id: self.next_id + 1, ..self }
    }

    /// The tables with one more reality.
    pub open spec fn with_reality(self, reality: NamedReality) -> StoreView {
        StoreView { realities: self.realities.push(reality), next_id: self.next_id + 1, ..self }
    }

    /// The tables with one more world that waits to be tracked, and its
    /// slots.
    pub open spec fn with_world(self, world: WorldRow, slots: Seq<SlotRow>) -> StoreView {
        StoreView {
            worlds: self.worlds.push(world),
            slots: self.slots + slots,
            next_id: self.next_id + 1 + slots.len(),
            ..self
        }
    }

    /// The tables without the world `name` that waits to be tracked, its
    /// slots and the preclaims on them.
    pub open spec fn after_cancel(self, name: Seq<char>) -> StoreView {
        StoreView {
            worlds: self.worlds.filter(pre_not_named(name)),
            slots: self.slots.filter(self.pre_slot_outside(name)),
            preclaims: self.preclaims.filter(self.preclaim_outside(name)),
            ..self
        }
    }

    /// The worlds with the preclaims of the world `name` ending at
    /// `preclaim_end`.
    pub open spec fn worlds_rescheduled(self, name: Seq<char>, preclaim_end: i64) -> Seq<WorldRow> {
        let k = first_index(self.worlds, pre_world_named(name));
        if k < self.worlds.len() {
            self.worlds.update(k, WorldRow { preclaim_end, ..self.worlds[k] })
        } else {
            self.worlds
        }
    }

    /// The slot with the id `slot` of a world that waits to be tracked.
    pub open spec fn pre_slot(self, slot: i64) -> Option<SlotRow> {
        let j = first_index(self.slots, pre_slot_with_id(slot));
        if j < self.slots.len() {
            Some(self.slots[j])
        } else {
            None
        }
    }

    /// What a preclaim of `player` on the slot `slot` returns.
    pub open spec fn preclaim_outcome(self, player: i64, slot: i64) -> Result<(), PreclaimError> {
        if self.pre_slot(slot) is None {
            Err(PreclaimError::SlotNotFound)
        } else if self.preclaim_admits(player, slot) is Err {
            Err(PreclaimError::AdmissionDenied(self.preclaim_admits(player, slot)->Err_0))
        } else {
            Ok(())
        }
    }

    /// The tables after a preclaim of `player` on the slot `slot`: where it
    /// is made, it is the one pending preclaim of the player.
    pub open spec fn after_preclaim(self, player: i64, slot: i64) -> StoreView {
        if self.preclaim_outcome(player, slot) is Ok {
            StoreView {
                preclaims: self.preclaims.filter(not_pending_of(player)).push(
                    Preclaim { slot, player, status: PreclaimStatus::Pending },
                ),
                ..self
            }
        } else {
            self
        }
    }

    /// Whether the slot `slot` belongs to a world whose preclaims end
    /// after `now`.
    pub open spec fn slot_open(self, slot: i64, now: i64) -> bool {
        exists|j: int, k: int|
            0 <= j < self.slots.len() && 0 <= k < self.worlds.len() && (
            #[trigger] self.slots[j]).id == slot && (#[trigger] self.worlds[k]).id
                == self.slots[j].world && self.worlds[k].preclaim_end > now
    }

    /// Preclaims that `snowflake` cannot take back at the time `now`.
    pub open spec fn preclaim_stays(self, snowflake: i64, now: i64) -> spec_fn(Preclaim) -> bool {
        |p: Preclaim| !(self.player_known_as(p.player, snowflake) && self.slot_open(p.slot, now))
    }

    /// Whether `snowflake` has a preclaim to take back at the time `now`.
    pub open spec fn has_open_preclaim(self, snowflake: i64, now: i64) -> bool {
        exists|i: int|
            0 <= i < self.preclaims.len() && !self.preclaim_stays(snowflake, now)(
                #[trigger] self.preclaims[i],
            )
    }

    /// The tables after `snowflake` took back all preclaims on worlds whose
    /// preclaims end after `now`.
    pub open spec fn after_unpreclaim(self, snowflake: i64, now: i64) -> StoreView {
        StoreView { preclaims: self.preclaims.filter(self.preclaim_stays(snowflake, now)), ..self }
    }

    /// A new player leaves the tables consistent.
    pub proof fn lemma_player_keeps_wf(self, player: Player)
        requires
            self.wf(),
            player.id == self.next_id,
            player.points >= 0,
        ensures
            self.with_player(player).wf(),
    {
        let post = self.with_player(player);
        assert(post.ids_issued()) by {
            assert forall|i: int| 0 <= i < post.players.len() implies (#[trigger] post.players[i]).id
                < post.next_id by {
                if i < self.players.len() {
                    assert(post.players[i] == self.players[i]);
                }
            }
        }
        assert(post.points_valid()) by {
            assert forall|i: int| 0 <= i < post.players.len() implies (
            #[trigger] post.players[i]).points >= 0 by {
                if i < self.players.len() {
                    assert(post.players[i] == self.players[i]);
                }
            }
        }
    }

    /// A new reality leaves the tables consistent and the allowances of
    /// the pools as they were.
    pub proof fn lemma_reality_keeps_wf(self, reality: NamedReality)
        requires
            self.wf(),
            reality.reality.id == self.next_id,
            reality.reality.max_claims > 0,
        ensures
            self.with_reality(reality).wf(),
            self.within_claim_caps() ==> self.with_reality(reality).within_claim_caps(),
            self.within_reality_cap() ==> self.with_reality(reality).within_reality_cap(),
    {
        let post = self.with_reality(reality);
        assert(post.points_valid()) by {
            assert forall|i: int| 0 <= i < post.realities.len() implies (
            #[trigger] post.realities[i]).reality.max_claims > 0 by {
                if i < self.realities.len() {
                    assert(post.realities[i] == self.realities[i]);
                }
            }
        }
        assert forall|player: i64, pool: Option<i64>|
            post.current_claims(player, pool) == self.current_claims(player, pool) by {
            crate::seqs::lemma_filter_agree(
                self.claims,
                self.counting(player, pool),
                post.counting(player, pool),
            );
        }
        if self.within_claim_caps() {
            assert forall|player: i64, pool: Option<i64>| #[trigger]
                post.current_claims(player, pool) <= post.pool_cap(pool) by {
                assert(self.current_claims(player, pool) <= self.pool_cap(pool));
                if pool == Some(reality.reality.id) {
                    if self.current_claims(player, pool) > 0 {
                        lemma_filter_members(self.claims, self.counting(player, pool));
                        let c = self.claims.filter(self.counting(player, pool))[0];
                        assert(self.counting(player, pool)(c));
                        let s = self.tracked_slot(c.slot)->0;
                        lemma_first_index_found(self.tracked_worlds, world_with_id(s.world));
                        let k = first_index(self.tracked_worlds, world_with_id(s.world));
                        assert(self.tracked_worlds[k].reality == pool);
                        assert(false);
                    }
                    let p = crate::admission::reality_with_id(reality.reality.id);
                    lemma_first_index_found(post.realities, p);
                    let i = first_index(post.realities, p);
                    if i < post.realities.len() {
                        assert(post.realities[i].reality.max_claims > 0);
                    }
                } else {
                    self.lemma_pool_cap_stable(reality, pool);
                }
            }
        }
        if self.within_reality_cap() {
            assert forall|player: i64| #[trigger]
                post.current_realities(player).len() <= crate::admission::MAX_REALITIES by {
                assert(post.current_realities(player) =~= self.current_realities(player));
                assert(self.current_realities(player).len() <= crate::admission::MAX_REALITIES);
            }
        }
    }

    /// A new reality changes the allowance of no pool that had one, and
    /// gives no pool less than the allowance of worlds without a reality.
    pub proof fn lemma_pool_cap_stable(self, reality: NamedReality, pool: Option<i64>)
        requires
            self.wf(),
            reality.reality.id == self.next_id,
            reality.reality.max_claims > 0,
        ensures
            pool != Some(reality.reality.id) ==> self.with_reality(reality).pool_cap(pool)
                == self.pool_cap(pool),
    {
        let post = self.with_reality(reality);
        if let Some(id) = pool {
            if id != reality.reality.id {
                let p = crate::admission::reality_with_id(id);
                lemma_first_index_found(self.realities, p);
                let i = first_index(self.realities, p);
                assert forall|j: int| 0 <= j < i implies !p(#[trigger] post.realities[j]) by {
                    assert(post.realities[j] == self.realities[j]);
                }
                if i < self.realities.len() {
                    assert(post.realities[i] == self.realities[i]);
                    lemma_first_index(post.realities, p, i);
                } else {
                    assert forall|j: int| 0 <= j < post.realities.len() implies !p(
                        #[trigger] post.realities[j],
                    ) by {
                        if j < self.realities.len() {
                            assert(post.realities[j] == self.realities[j]);
                        }
                    }
                    lemma_first_index(post.realities, p, post.realities.len() as int);
                }
            }
        }
    }

    /// A new world with fresh ids and a name of its own leaves the tables
    /// consistent.
    pub proof fn lemma_world_keeps_wf(self, world: WorldRow, slots: Seq<SlotRow>)
        requires
            self.wf(),
            world.id == self.next_id,
            !world.resolved_preclaims,
            self.pre_world(world.name@) is None,
            forall|i: int|
                0 <= i < slots.len() ==> (#[trigger] slots[i]).id == self.next_id + 1 + i
                    && slots[i].world == self.next_id,
        ensures
            self.with_world(world, slots).wf(),
    {
        let post = self.with_world(world, slots);
        let n = self.slots.len() as int;
        lemma_first_index_found(self.worlds, pre_world_named(world.name@));
        assert(post.won_only_resolved()) by {
            assert forall|i: int, j: int, k: int|
                0 <= i < post.preclaims.len() && 0 <= j < post.slots.len() && 0 <= k
                    < post.worlds.len() && post.preclaims[i].status == PreclaimStatus::Won
                    && post.slots[j].id == post.preclaims[i].slot && post.worlds[k].id
                    == post.slots[j].world implies post.worlds[k].resolved_preclaims by {
                assert(self.preclaims[i].slot < self.next_id);
                if j < n {
                    assert(post.slots[j] == self.slots[j]);
                    assert(self.slots[j].world < self.next_id);
                    assert(post.worlds[k] == self.worlds[k]);
                } else {
                    assert(post.slots[j] == slots[j - n]);
                }
            }
        }
        assert(post.worlds_unique()) by {
            assert forall|i: int, j: int|
                0 <= i < post.worlds.len() && 0 <= j < post.worlds.len() && i != j implies post.worlds[i].id
                != post.worlds[j].id && post.worlds[i].name@ != post.worlds[j].name@ by {
                if i < self.worlds.len() && j < self.worlds.len() {
                    assert(post.worlds[i] == self.worlds[i] && post.worlds[j] == self.worlds[j]);
                } else if i < self.worlds.len() {
                    assert(post.worlds[i] == self.worlds[i]);
                    assert(self.worlds[i].id < self.next_id);
                    assert(!pre_world_named(world.name@)(self.worlds[i]));
                } else {
                    assert(post.worlds[j] == self.worlds[j]);
                    assert(self.worlds[j].id < self.next_id);
                    assert(!pre_world_named(world.name@)(self.worlds[j]));
                }
            }
            assert forall|i: int, j: int|
                0 <= i < post.slots.len() && 0 <= j < post.slots.len() && i != j implies post.slots[i].id
                != post.slots[j].id by {
                if i < n {
                    assert(post.slots[i] == self.slots[i]);
                    assert(self.slots[i].id < self.next_id);
                } else {
                    assert(post.slots[i] == slots[i - n]);
                }
                if j < n {
                    assert(post.slots[j] == self.slots[j]);
                    assert(self.slots[j].id < self.next_id);
                } else {
                    assert(post.slots[j] == slots[j - n]);
                }
            }
        }
        assert(post.ids_issued()) by {
            assert forall|i: int| 0 <= i < post.worlds.len() implies (#[trigger] post.worlds[i]).id
                < post.next_id by {
                if i < self.worlds.len() {
                    assert(post.worlds[i] == self.worlds[i]);
                }
            }
            assert forall|i: int| 0 <= i < post.slots.len() implies (#[trigger] post.slots[i]).id
                < post.next_id && post.slots[i].world < post.next_id by {
                if i < n {
                    assert(post.slots[i] == self.slots[i]);
                } else {
                    assert(post.slots[i] == slots[i - n]);
                }
            }
        }
    }

    /// Cancelling the preclaims of a world leaves the tables consistent.
    pub proof fn lemma_cancel_keeps_wf(self, name: Seq<char>)
        requires
            self.wf(),
        ensures
            self.after_cancel(name).wf(),
    {
        let post = self.after_cancel(name);
        lemma_filter_all(self.tracked_slots, |s: TrackedSlot| true);
        lemma_filter_all(self.claims, |c: Claim| true);
        lemma_filter_all(self.tracked_worlds, |w: TrackedWorld| true);
        assert(post.tracked_slots == self.tracked_slots.filter(|s: TrackedSlot| true));
        assert(post.claims == self.claims.filter(|c: Claim| true));
        assert(post.tracked_worlds == self.tracked_worlds.filter(|w: TrackedWorld| true));
        assert(post.worlds == self.worlds.filter(pre_not_named(name)));
        assert(post.slots == self.slots.filter(self.pre_slot_outside(name)));
        assert(post.preclaims == self.preclaims.filter(self.preclaim_outside(name)));
        assert forall|i: int| 0 <= i < post.players.len() implies (#[trigger] post.players[i]).id
            == self.players[i].id && post.players[i].points >= 0 by {
            assert(self.players[i].points >= 0);
        }
        self.lemma_removal_keeps_wf(post);
    }

    /// Taking preclaims away leaves the tables consistent.
    pub proof fn lemma_fewer_preclaims_keep_wf(self, keep: spec_fn(Preclaim) -> bool)
        requires
            self.wf(),
        ensures
            (StoreView { preclaims: self.preclaims.filter(keep), ..self }).wf(),
    {
        let post = StoreView { preclaims: self.preclaims.filter(keep), ..self };
        lemma_filter_all(self.tracked_slots, |s: TrackedSlot| true);
        lemma_filter_all(self.claims, |c: Claim| true);
        lemma_filter_all(self.tracked_worlds, |w: TrackedWorld| true);
        lemma_filter_all(self.worlds, |w: WorldRow| true);
        lemma_filter_all(self.slots, |s: SlotRow| true);
        assert(post.tracked_slots == self.tracked_slots.filter(|s: TrackedSlot| true));
        assert(post.claims == self.claims.filter(|c: Claim| true));
        assert(post.tracked_worlds == self.tracked_worlds.filter(|w: TrackedWorld| true));
        assert(post.worlds == self.worlds.filter(|w: WorldRow| true));
        assert(post.slots == self.slots.filter(|s: SlotRow| true));
        assert(post.preclaims == self.preclaims.filter(keep));
        assert forall|i: int| 0 <= i < post.players.len() implies (#[trigger] post.players[i]).id
            == self.players[i].id && post.players[i].points >= 0 by {
            assert(self.players[i].points >= 0);
        }
        self.lemma_removal_keeps_wf(post);
    }

    /// A preclaim leaves the tables consistent: the player has one pending
    /// preclaim at most.
    pub proof fn lemma_preclaim_keeps_wf(self, player: i64, slot: i64)
        requires
            self.wf(),
        ensures
            self.after_preclaim(player, slot).wf(),
    {
        let post = self.after_preclaim(player, slot);
        if self.preclaim_outcome(player, slot) is Ok {
            let keep = not_pending_of(player);
            let mid = StoreView { preclaims: self.preclaims.filter(keep), ..self };
            self.lemma_fewer_preclaims_keep_wf(keep);
            lemma_filter_members(self.preclaims, keep);
            lemma_first_index_found(self.slots, pre_slot_with_id(slot));
            let n = mid.preclaims.len() as int;
            assert(post.pending_unique()) by {
                assert forall|i: int, j: int|
                    0 <= i < post.preclaims.len() && 0 <= j < post.preclaims.len() && i != j
                        && post.preclaims[i].status == PreclaimStatus::Pending
                        && post.preclaims[j].status
                        == PreclaimStatus::Pending implies post.preclaims[i].player
                    != post.preclaims[j].player by {
                    if i < n && j < n {
                        assert(post.preclaims[i] == mid.preclaims[i] && post.preclaims[j]
                            == mid.preclaims[j]);
                    } else if i < n {
                        assert(post.preclaims[i] == mid.preclaims[i]);
                        assert(keep(mid.preclaims[i]));
                    } else {
                        assert(post.preclaims[j] == mid.preclaims[j]);
                        assert(keep(mid.preclaims[j]));
                    }
                }
            }
            assert(post.won_only_resolved()) by {
                assert forall|i: int, j: int, k: int|
                    0 <= i < post.preclaims.len() && 0 <= j < post.slots.len() && 0 <= k
                        < post.worlds.len() && post.preclaims[i].status == PreclaimStatus::Won
                        && post.slots[j].id == post.preclaims[i].slot && post.worlds[k].id
                        == post.slots[j].world implies post.worlds[k].resolved_preclaims by {
                    assert(post.preclaims[i] == mid.preclaims[i]);
                }
            }
            assert(post.ids_issued()) by {
                assert forall|i: int| 0 <= i < post.preclaims.len() implies (
                #[trigger] post.preclaims[i]).slot < post.next_id by {
                    if i < n {
                        assert(post.preclaims[i] == mid.preclaims[i]);
                    } else {
                        let j = first_index(self.slots, pre_slot_with_id(slot));
                        assert(self.slots[j].id < self.next_id);
                    }
                }
            }
        }
    }

    /// Moving the end of the preclaims of a world leaves the tables
    /// consistent.
    pub proof fn lemma_reschedule_keeps_wf(self, name: Seq<char>, preclaim_end: i64)
        requires
            self.wf(),
        ensures
            (StoreView { worlds: self.worlds_rescheduled(name, preclaim_end), ..self }).wf(),
    {
        let post = StoreView { worlds: self.worlds_rescheduled(name, preclaim_end), ..self };
        lemma_first_index_found(self.worlds, pre_world_named(name));
        assert(post.won_only_resolved()) by {
            assert forall|i: int, j: int, k: int|
                0 <= i < post.preclaims.len() && 0 <= j < post.slots.len() && 0 <= k
                    < post.worlds.len() && post.preclaims[i].status == PreclaimStatus::Won
                    && post.slots[j].id == post.preclaims[i].slot && post.worlds[k].id
                    == post.slots[j].world implies post.worlds[k].resolved_preclaims by {
                assert(self.worlds[k].id == post.worlds[k].id);
                assert(self.worlds[k].resolved_preclaims);
            }
        }
        assert(post.worlds_unique()) by {
            assert forall|i: int, j: int|
                0 <= i < post.worlds.len() && 0 <= j < post.worlds.len() && i != j implies post.worlds[i].id
                != post.worlds[j].id && post.worlds[i].name@ != post.worlds[j].name@ by {
                assert(self.worlds[i].id != self.worlds[j].id);
            }
        }
        assert(post.ids_issued()) by {
            assert forall|i: int| 0 <= i < post.worlds.len() implies (#[trigger] post.worlds[i]).id
                < post.next_id by {
                assert(self.worlds[i].id < self.next_id);
            }
        }
    }
}

impl Store {
    /// Finds the reality with the name `name`.
    pub fn find_reality(&self, name: &String) -> (found: Option<Reality>)
        ensures
            found == self@.reality_by_name(name@),
    {
        let mut i: usize = 0;
        while i < self.realities.len()
            invariant
                i <= self.realities@.len(),
                forall|j: int| 0 <= j < i ==> !reality_named(name@)(#[trigger] self.realities@[j]),
            decreases self.realities@.len() - i,
        {
            if self.realities[i].name == *name {
                proof {
                    lemma_first_index(self.realities@, reality_named(name@), i as int);
                }
                return Some(self.realities[i].reality);
            }
            i += 1;
        }
        proof {
            lemma_first_index(self.realities@, reality_named(name@), i as int);
        }
        None
    }

    /// Finds the player known outside as `snowflake`.
    pub fn find_player(&self, snowflake: i64) -> (found: Option<usize>)
        ensures
            match found {
                Some(i) => i < self.players@.len() && self@.player_known(snowflake) == Some(
                    self.players@[i as int],
                ),
                None => self@.player_known(snowflake) is None,
            },
    {
        let mut i: usize = 0;
        while i < self.players.len()
            invariant
                i <= self.players@.len(),
                forall|j: int|
                    0 <= j < i ==> !player_with_snowflake(snowflake)(#[trigger] self.players@[j]),
            decreases self.players@.len() - i,
        {
            if self.players[i].snowflake == snowflake {
                proof {
                    lemma_first_index(self.players@, player_with_snowflake(snowflake), i as int);
                }
                return Some(i);
            }
            i += 1;
        }
        proof {
            lemma_first_index(self.players@, player_with_snowflake(snowflake), i as int);
        }
        None
    }

    /// Returns the player known outside as `snowflake`, and registers the
    /// player under the name `name` first where there is none yet.
    ///
    /// Nothing is returned, and nothing changes, where a new player would
    /// need an id and the store has none left.
    pub fn get_player(&mut self, snowflake: i64, name: &str) -> (player: Option<Player>)
        requires
            old(self).wf(),
        ensures
            final(self).wf(),
            old(self)@.gets_player(snowflake, name@, final(self)@, player),
            old(self)@.within_claim_caps() ==> final(self)@.within_claim_caps(),
            old(self)@.within_reality_cap() ==> final(self)@.within_reality_cap(),
    {
        match self.find_player(snowflake) {
            Some(i) => {
                return Some(self.players[i].duplicate());
            },
            None => {},
        }
        if self.next_id == i64::MAX {
            return None;
        }
        let row = Player {
            id: self.next_id,
            snowflake,
            name: name.to_owned(),
            points: 0,
            unspent_points: 0,
            transfer_to: None,
        };
        let player = row.duplicate();
        proof {
            self@.lemma_player_keeps_wf(row);
            self@.lemma_same_claims_keep_caps(self@.with_player(row));
        }
        self.players.push(row);
        self.next_id = self.next_id + 1;
        Some(player)
    }

    /// Registers a reality that lets every player hold `max_claims` claims.
    pub fn new_reality(&mut self, name: &str, max_claims: i64) -> (result: Result<
        Reality,
        RealityError,
    >)
        requires
            old(self).wf(),
        ensures
            final(self).wf(),
            old(self)@.within_claim_caps() ==> final(self)@.within_claim_caps(),
            old(self)@.within_reality_cap() ==> final(self)@.within_reality_cap(),
            if max_claims < 1 {
                result == Err::<Reality, RealityError>(RealityError::InvalidMaxClaims) && final(self)@
                    == old(self)@
            } else if old(self)@.next_id >= i64::MAX {
                result == Err::<Reality, RealityError>(RealityError::Exhausted) && final(self)@
                    == old(self)@
            } else {
                &&& result == Ok::<Reality, RealityError>(
                    Reality { id: old(self).next_id, max_claims },
                )
                &&& final(self)@.realities.len() == old(self)@.realities.len() + 1
                &&& final(self)@.realities.last().name@ == name@
                &&& final(self)@.realities.last().reality == result->Ok_0
                &&& final(self)@ == old(self)@.with_reality(final(self)@.realities.last())
            },
    {
        if max_claims < 1 {
            return Err(RealityError::InvalidMaxClaims);
        }
        if self.next_id == i64::MAX {
            return Err(RealityError::Exhausted);
        }
        let reality = Reality { id: self.next_id, max_claims };
        let row = NamedReality { name: name.to_owned(), reality };
        proof {
            self@.lemma_reality_keeps_wf(row);
        }
        self.realities.push(row);
        self.next_id = self.next_id + 1;
        Ok(reality)
    }

    /// Creates the world `name`, open for preclaims until `preclaim_end`,
    /// with one slot for every entry of `slots` (name, games, notes and
    /// points of the slot), and returns the number of its slots.
    pub fn new_world(
        &mut self,
        name: &str,
        preclaim_end: i64,
        reality: Option<&str>,
        slots: &Vec<(String, String, String, String)>,
    ) -> (result: Result<usize, NewWorldError>)
        requires
            old(self).wf(),
        ensures
            final(self).wf(),
            old(self)@.within_claim_caps() ==> final(self)@.within_claim_caps(),
            old(self)@.within_reality_cap() ==> final(self)@.within_reality_cap(),
            old(self)@.creates_world(
                final(self)@,
                name@,
                preclaim_end,
                match reality {
                    Some(r) => Some(r@),
                    None => None,
                },
                slots@,
                result,
            ),
    {
        let world_name = name.to_owned();
        let reality_id = match reality {
            Some(r) => {
                let reality_name = r.to_owned();
                match self.find_reality(&reality_name) {
                    Some(found) => Some(found.id),
                    None => {
                        return Err(NewWorldError::RealityNotFound);
                    },
                }
            },
            None => None,
        };
        if self.find_pre_world(&world_name).is_some() {
            return Err(NewWorldError::CreateWorld);
        }
        if self.next_id as i128 + 1 + slots.len() as i128 > i64::MAX as i128 {
            return Err(NewWorldError::CreateWorld);
        }
        let world_id = self.next_id;
        let world = WorldRow {
            id: world_id,
            name: world_name,
            reality: reality_id,
            preclaim_end,
            resolved_preclaims: false,
        };
        let mut rows: Vec<SlotRow> = Vec::new();
        let mut i: usize = 0;
        while i < slots.len()
            invariant
                i <= slots@.len(),
                rows@.len() == i,
                world_id + 1 + slots@.len() <= i64::MAX,
                world_id >= 0,
                forall|j: int|
                    0 <= j < i ==> is_new_slot(
                        #[trigger] rows@[j],
                        world_id + 1 + j,
                        world_id as int,
                        slots@[j],
                    ),
            decreases slots@.len() - i,
        {
            let row = SlotRow {
                id: (world_id as i128 + 1 + i as i128) as i64,
                world: world_id,
                name: slots[i].0.clone(),
                games: slots[i].1.clone(),
                notes: slots[i].2.clone(),
                points: slots[i].3.clone(),
            };
            rows.push(row);
            i += 1;
        }
        let count = slots.len();
        proof {
            self@.lemma_world_keeps_wf(world, rows@);
            self@.lemma_same_claims_keep_caps(self@.with_world(world, rows@));
            assert((self@.slots + rows@).subrange(
                self@.slots.len() as int,
                (self@.slots + rows@).len() as int,
            ) =~= rows@);
        }
        self.worlds.push(world);
        self.slots.append(&mut rows);
        self.next_id = (world_id as i128 + 1 + count as i128) as i64;
        Ok(count)
    }

    /// Removes the world `name` that waits to be tracked, with its slots
    /// and the preclaims on them.
    pub fn cancel_preclaims(&mut self, name: &str)
        requires
            old(self).wf(),
        ensures
            final(self)@ == old(self)@.after_cancel(name@),
            final(self).wf(),
            old(self)@.within_claim_caps() ==> final(self)@.within_claim_caps(),
            old(self)@.within_reality_cap() ==> final(self)@.within_reality_cap(),
    {
        let world_name = name.to_owned();
        proof {
            self@.lemma_cancel_keeps_wf(name@);
            self@.lemma_same_claims_keep_caps(self@.after_cancel(name@));
        }
        let worlds = self.worlds_except(&world_name);
        let slots = self.slots_outside(&world_name);
        let preclaims = self.preclaims_outside(&world_name);
        self.worlds = worlds;
        self.slots = slots;
        self.preclaims = preclaims;
    }

    /// Moves the end of the preclaims of the world `name` to
    /// `preclaim_end`. Returns whether there is such a world.
    pub fn reschedule_preclaims(&mut self, name: &str, preclaim_end: i64) -> (found: bool)
        requires
            old(self).wf(),
        ensures
            found == old(self)@.pre_world(name@) is Some,
            final(self)@ == (StoreView {
                worlds: old(self)@.worlds_rescheduled(name@, preclaim_end),
                ..old(self)@
            }),
            final(self).wf(),
            old(self)@.within_claim_caps() ==> final(self)@.within_claim_caps(),
            old(self)@.within_reality_cap() ==> final(self)@.within_reality_cap(),
    {
        let world_name = name.to_owned();
        proof {
            self@.lemma_reschedule_keeps_wf(name@, preclaim_end);
            self@.lemma_same_claims_keep_caps(
                StoreView { worlds: self@.worlds_rescheduled(name@, preclaim_end), ..self@ },
            );
        }
        match self.find_pre_world(&world_name) {
            Some(k) => {
                let row = WorldRow {
                    id: self.worlds[k].id,
                    name: self.worlds[k].name.clone(),
                    reality: self.worlds[k].reality,
                    preclaim_end,
                    resolved_preclaims: self.worlds[k].resolved_preclaims,
                };
                self.worlds.set(k, row);
                true
            },
            None => false,
        }
    }

    /// Whether a slot with the id `slot` waits to be tracked.
    pub fn has_pre_slot(&self, slot: i64) -> (found: bool)
        ensures
            found == self@.pre_slot(slot) is Some,
    {
        let mut j: usize = 0;
        while j < self.slots.len()
            invariant
                j <= self.slots@.len(),
                forall|i: int| 0 <= i < j ==> !pre_slot_with_id(slot)(#[trigger] self.slots@[i]),
            decreases self.slots@.len() - j,
        {
            if self.slots[j].id == slot {
                proof {
                    lemma_first_index(self.slots@, pre_slot_with_id(slot), j as int);
                }
                return true;
            }
            j += 1;
        }
        proof {
            lemma_first_index(self.slots@, pre_slot_with_id(slot), j as int);
        }
        false
    }

    /// Preclaims the slot `slot` for `player`.
    ///
    /// The slot must wait to be tracked and the player must pass the
    /// admission policy. The preclaim takes the place of whatever pending
    /// preclaim the player had.
    pub fn preclaim(&mut self, player: i64, slot: i64) -> (result: Result<(), PreclaimError>)
        requires
            old(self).wf(),
        ensures
            result == old(self)@.preclaim_outcome(player, slot),
            final(self)@ == old(self)@.after_preclaim(player, slot),
            final(self).wf(),
            old(self)@.within_claim_caps() ==> final(self)@.within_claim_caps(),
            old(self)@.within_reality_cap() ==> final(self)@.within_reality_cap(),
    {
        proof {
            self@.lemma_preclaim_keeps_wf(player, slot);
            self@.lemma_same_claims_keep_caps(self@.after_preclaim(player, slot));
        }
        if !self.has_pre_slot(slot) {
            return Err(PreclaimError::SlotNotFound);
        }
        match self.can_preclaim_slot(player, slot) {
            Err(denial) => {
                return Err(PreclaimError::AdmissionDenied(denial));
            },
            Ok(()) => {},
        }
        let mut kept = self.preclaims_without_pending(player);
        kept.push(Preclaim { slot, player, status: PreclaimStatus::Pending });
        self.preclaims = kept;
        Ok(())
    }

    /// Whether the slot `slot` belongs to a world whose preclaims end
    /// after `now`.
    pub fn is_slot_open(&self, slot: i64, now: i64) -> (open: bool)
        ensures
            open == self@.slot_open(slot, now),
    {
        let mut j: usize = 0;
        while j < self.slots.len()
            invariant
                j <= self.slots@.len(),
                forall|a: int, b: int|
                    0 <= a < j && 0 <= b < self.worlds@.len() ==> !((
                    #[trigger] self.slots@[a]).id == slot && (#[trigger] self.worlds@[b]).id
                        == self.slots@[a].world && self.worlds@[b].preclaim_end > now),
            decreases self.slots@.len() - j,
        {
            if self.slots[j].id == slot {
                let mut k: usize = 0;
                while k < self.worlds.len()
                    invariant
                        j < self.slots@.len(),
                        self.slots@[j as int].id == slot,
                        k <= self.worlds@.len(),
                        forall|b: int|
                            0 <= b < k ==> !((#[trigger] self.worlds@[b]).id
                                == self.slots@[j as int].world && self.worlds@[b].preclaim_end
                                > now),
                    decreases self.worlds@.len() - k,
                {
                    if self.worlds[k].id == self.slots[j].world && self.worlds[k].preclaim_end
                        > now {
                        proof {
                            assert(self@.slots[j as int].id == slot && self@.worlds[k as int].id
                                == self@.slots[j as int].world);
                        }
                        return true;
                    }
                    k += 1;
                }
            }
            j += 1;
        }
        false
    }

    /// Takes back the preclaims of `snowflake` on worlds whose preclaims
    /// end after `now`. Returns whether there was one.
    pub fn unpreclaim(&mut self, snowflake: i64, now: i64) -> (removed: bool)
        requires
            old(self).wf(),
        ensures
            removed == old(self)@.has_open_preclaim(snowflake, now),
            final(self)@ == old(self)@.after_unpreclaim(snowflake, now),
            final(self).wf(),
            old(self)@.within_claim_caps() ==> final(self)@.within_claim_caps(),
            old(self)@.within_reality_cap() ==> final(self)@.within_reality_cap(),
    {
        let ghost keep = self@.preclaim_stays(snowflake, now);
        proof {
            self@.lemma_fewer_preclaims_keep_wf(keep);
            self@.lemma_same_claims_keep_caps(self@.after_unpreclaim(snowflake, now));
        }
        let mut kept: Vec<Preclaim> = Vec::new();
        let mut removed = false;
        let mut i: usize = 0;
        proof {
            lemma_filter_empty(keep);
            assert(self.preclaims@.take(0) =~= Seq::<Preclaim>::empty());
        }
        while i < self.preclaims.len()
            invariant
                i <= self.preclaims@.len(),
                keep == self@.preclaim_stays(snowflake, now),
                kept@ == self.preclaims@.take(i as int).filter(keep),
                removed == exists|j: int| 0 <= j < i && !keep(#[trigger] self@.preclaims[j]),
            decreases self.preclaims@.len() - i,
        {
            let p = self.preclaims[i];
            proof {
                lemma_filter_push(self.preclaims@.take(i as int), p, keep);
                assert(self.preclaims@.take(i as int).push(p) =~= self.preclaims@.take(i + 1));
            }
            if self.is_player_known_as(p.player, snowflake) && self.is_slot_open(p.slot, now) {
                removed = true;
                proof {
                    assert(!keep(self@.preclaims[i as int]));
                }
            } else {
                kept.push(p);
            }
            i += 1;
        }
        proof {
            assert(self.preclaims@.take(i as int) =~= self.preclaims@);
        }
        self.preclaims = kept;
        removed
    }
}

} // verus!
