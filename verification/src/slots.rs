//! What organizers and players do to single tracked slots.

use vstd::prelude::*;

use crate::admission::slot_with_id;
use crate::seqs::{lemma_filter_empty, lemma_filter_members, lemma_filter_pairwise, lemma_filter_push};
use crate::status::Status;
use crate::store::{first_index, lemma_first_index, lemma_first_index_found};
use crate::store::{Claim, Store, StoreView, TrackedSlot, Update};

verus! {

/// No tracked slot answers to the names given.
#[derive(Debug, PartialEq, Eq, Clone, Copy, Structural)]
pub struct NotFound;

/// Whether `note` is the status note of `player` on the slot `slot`, left at
/// `timestamp` with the text `description`.
pub open spec fn is_note(
    note: Update,
    slot: i64,
    player: i64,
    timestamp: i64,
    description: Seq<char>,
) -> bool {
    &&& note.slot == slot
    &&& note.player == player
    &&& note.timestamp == timestamp
    &&& note.description@ == description
}

impl StoreView {
    /// The tables with one more status note.
    pub open spec fn with_note(self, note: Update) -> StoreView {
        StoreView { updates: self.updates.push(note), ..self }
    }

    /// Whether a tracked slot with the id `id` has the name `slot` and
    /// belongs to the world `world`.
    pub open spec fn slot_answers(self, id: i64, world: Seq<char>, slot: Seq<char>) -> bool {
        exists|i: int|
            0 <= i < self.tracked_slots.len() && (#[trigger] self.tracked_slots[i]).id == id
                && self.slot_named(world, slot)(self.tracked_slots[i])
    }

    /// Whether a player with the id `player` is known outside as
    /// `snowflake`.
    pub open spec fn player_known_as(self, player: i64, snowflake: i64) -> bool {
        exists|i: int|
            0 <= i < self.players.len() && (#[trigger] self.players[i]).id == player
                && self.players[i].snowflake == snowflake
    }

    /// Claims on other slots than those that answer to `world` and `slot`.
    pub open spec fn claim_elsewhere(self, world: Seq<char>, slot: Seq<char>) -> spec_fn(
        Claim,
    ) -> bool {
        |c: Claim| !self.slot_answers(c.slot, world, slot)
    }

    /// The tables after the slots that answer to `world` and `slot` were
    /// unclaimed.
    pub open spec fn after_unclaim(self, world: Seq<char>, slot: Seq<char>) -> StoreView {
        StoreView { claims: self.claims.filter(self.claim_elsewhere(world, slot)), ..self }
    }

    /// A tracked slot, marked as free if it answers to `world` and `slot`.
    pub open spec fn freed(self, world: Seq<char>, slot: Seq<char>) -> spec_fn(
        TrackedSlot,
    ) -> TrackedSlot {
        |s: TrackedSlot|
            if self.slot_named(world, slot)(s) {
                TrackedSlot { free: true, ..s }
            } else {
                s
            }
    }

    /// The tables after the slots that answer to `world` and `slot` were
    /// marked as free.
    pub open spec fn after_mark_free(self, world: Seq<char>, slot: Seq<char>) -> StoreView {
        StoreView { tracked_slots: self.tracked_slots.map_values(self.freed(world, slot)), ..self }
    }

    /// Tracked slots that `by` may mark as done under the names `world` and
    /// `slot`: all that answer to the names for an organizer, those that
    /// the player holds for a player.
    pub open spec fn to_finish(self, by: Option<i64>, world: Seq<char>, slot: Seq<char>) -> spec_fn(
        TrackedSlot,
    ) -> bool {
        |s: TrackedSlot|
            self.slot_named(world, slot)(s) && match by {
                Some(player) => self.claimed_by(s.id, player),
                None => true,
            }
    }

    /// Whether `by` may mark the tracked slot with the id `id` as done
    /// under the names `world` and `slot`.
    pub open spec fn finishing(self, id: i64, by: Option<i64>, world: Seq<char>, slot: Seq<char>) -> bool {
        exists|i: int|
            0 <= i < self.tracked_slots.len() && (#[trigger] self.tracked_slots[i]).id == id
                && self.to_finish(by, world, slot)(self.tracked_slots[i])
    }

    /// Whether there is a slot that `by` may mark as done under the names
    /// `world` and `slot`.
    pub open spec fn can_mark_done(self, by: Option<i64>, world: Seq<char>, slot: Seq<char>) -> bool {
        exists|i: int|
            0 <= i < self.tracked_slots.len() && self.to_finish(by, world, slot)(
                #[trigger] self.tracked_slots[i],
            )
    }

    /// A tracked slot, done if `by` may mark it so.
    pub open spec fn done_by(self, by: Option<i64>, world: Seq<char>, slot: Seq<char>) -> spec_fn(
        TrackedSlot,
    ) -> TrackedSlot {
        |s: TrackedSlot|
            if self.to_finish(by, world, slot)(s) {
                TrackedSlot { status: Status::Done, ..s }
            } else {
                s
            }
    }

    /// Claims on slots that are not marked as done.
    pub open spec fn claim_kept(self, by: Option<i64>, world: Seq<char>, slot: Seq<char>) -> spec_fn(
        Claim,
    ) -> bool {
        |c: Claim| !self.finishing(c.slot, by, world, slot)
    }

    /// The tables after `by` marked the slots that answer to `world` and
    /// `slot` as done: they are done, and their claims are given up.
    pub open spec fn after_mark_done(self, by: Option<i64>, world: Seq<char>, slot: Seq<char>) -> StoreView {
        StoreView {
            tracked_slots: self.tracked_slots.map_values(self.done_by(by, world, slot)),
            claims: self.claims.filter(self.claim_kept(by, world, slot)),
            ..self
        }
    }

    /// Claims that `snowflake` holds on slots that answer to `world` and
    /// `slot`.
    pub open spec fn own_claim(self, snowflake: i64, world: Seq<char>, slot: Seq<char>) -> spec_fn(
        Claim,
    ) -> bool {
        |c: Claim| self.player_known_as(c.player, snowflake) && self.slot_answers(c.slot, world, slot)
    }

    /// Whether `snowflake` holds a claim on a slot that answers to `world`
    /// and `slot`.
    pub open spec fn holds_claim(self, snowflake: i64, world: Seq<char>, slot: Seq<char>) -> bool {
        exists|i: int|
            0 <= i < self.claims.len() && self.own_claim(snowflake, world, slot)(
                #[trigger] self.claims[i],
            )
    }

    /// A claim, open to the public with `description` if `snowflake` holds
    /// it on a slot that answers to `world` and `slot`.
    pub open spec fn published(
        self,
        snowflake: i64,
        world: Seq<char>,
        slot: Seq<char>,
        description: String,
    ) -> spec_fn(Claim) -> Claim {
        |c: Claim|
            if self.own_claim(snowflake, world, slot)(c) {
                Claim { public: Some(description), ..c }
            } else {
                c
            }
    }

    /// The tables after `snowflake` opened the claims on the slots that
    /// answer to `world` and `slot` to the public.
    pub open spec fn after_publish(
        self,
        snowflake: i64,
        world: Seq<char>,
        slot: Seq<char>,
        description: String,
    ) -> StoreView {
        StoreView {
            claims: self.claims.map_values(self.published(snowflake, world, slot, description)),
            ..self
        }
    }

    /// Changing what a tracked slot shows, but neither its id nor its world
    /// nor its points, leaves the tables consistent.
    pub proof fn lemma_slot_edit_keeps_wf(self, post: StoreView)
        requires
            self.wf(),
            post == (StoreView { tracked_slots: post.tracked_slots, ..self }),
            post.tracked_slots.len() == self.tracked_slots.len(),
            forall|i: int|
                0 <= i < self.tracked_slots.len() ==> {
                    &&& (#[trigger] post.tracked_slots[i]).id == self.tracked_slots[i].id
                    &&& post.tracked_slots[i].world == self.tracked_slots[i].world
                    &&& post.tracked_slots[i].points == self.tracked_slots[i].points
                },
        ensures
            post.wf(),
    {
        assert(post.tracked_ids_unique()) by {
            assert forall|i: int, j: int|
                0 <= i < post.tracked_slots.len() && 0 <= j < post.tracked_slots.len() && i
                    != j implies post.tracked_slots[i].id != post.tracked_slots[j].id by {
                assert(self.tracked_slots[i].id != self.tracked_slots[j].id);
            }
        }
        assert(post.ids_issued()) by {
            assert forall|i: int| 0 <= i < post.tracked_slots.len() implies (
            #[trigger] post.tracked_slots[i]).id < post.next_id && post.tracked_slots[i].world
                < post.next_id by {
                assert(self.tracked_slots[i].id < self.next_id);
            }
        }
        assert(post.points_valid()) by {
            assert forall|i: int| 0 <= i < post.tracked_slots.len() implies (
            #[trigger] post.tracked_slots[i]).points >= 0 by {
                assert(self.tracked_slots[i].points >= 0);
            }
        }
    }

    /// Where tracked slots keep their ids and worlds and none that was free
    /// stops being free, a slot draws on the pool on which it drew before,
    /// if on any.
    pub proof fn lemma_slot_edit_pools(self, post: StoreView)
        requires
            post.tracked_worlds == self.tracked_worlds,
            post.tracked_slots.len() == self.tracked_slots.len(),
            forall|i: int|
                0 <= i < self.tracked_slots.len() ==> {
                    &&& (#[trigger] post.tracked_slots[i]).id == self.tracked_slots[i].id
                    &&& post.tracked_slots[i].world == self.tracked_slots[i].world
                    &&& (self.tracked_slots[i].free ==> post.tracked_slots[i].free)
                },
        ensures
            forall|slot: i64|
                #[trigger] post.slot_pool(slot) is Some ==> self.slot_pool(slot) == post.slot_pool(
                    slot,
                ),
    {
        assert forall|slot: i64| #[trigger] post.slot_pool(slot) is Some implies self.slot_pool(
            slot,
        ) == post.slot_pool(slot) by {
            lemma_first_index_found(post.tracked_slots, slot_with_id(slot));
            let i = first_index(post.tracked_slots, slot_with_id(slot));
            assert forall|j: int| 0 <= j < i implies !slot_with_id(slot)(
                #[trigger] self.tracked_slots[j],
            ) by {
                assert(!slot_with_id(slot)(post.tracked_slots[j]));
            }
            assert(post.tracked_slots[i].id == self.tracked_slots[i].id);
            lemma_first_index(self.tracked_slots, slot_with_id(slot), i);
        }
    }

    /// Unclaiming leaves the tables consistent and every player within the
    /// allowances.
    pub proof fn lemma_unclaim_keeps_wf(self, world: Seq<char>, slot: Seq<char>)
        requires
            self.wf(),
        ensures
            self.after_unclaim(world, slot).wf(),
            self.within_claim_caps() ==> self.after_unclaim(world, slot).within_claim_caps(),
            self.within_reality_cap() ==> self.after_unclaim(world, slot).within_reality_cap(),
    {
        let post = self.after_unclaim(world, slot);
        let keep = self.claim_elsewhere(world, slot);
        lemma_filter_members(self.claims, keep);
        lemma_filter_pairwise(self.claims, keep, |a: Claim, b: Claim| a.slot != b.slot);
        assert(post.ids_issued()) by {
            assert forall|i: int| 0 <= i < post.claims.len() implies (#[trigger] post.claims[i]).slot
                < post.next_id by {
                assert(self.claims.contains(post.claims[i]));
                let n = choose|n: int| 0 <= n < self.claims.len() && self.claims[n] == post.claims[i];
                assert(self.claims[n].slot < self.next_id);
            }
        }
        self.lemma_fewer_claims_keep_caps(post, keep);
    }

    /// Marking slots as free leaves the tables consistent and every player
    /// within the allowances.
    pub proof fn lemma_mark_free_keeps_wf(self, world: Seq<char>, slot: Seq<char>)
        requires
            self.wf(),
        ensures
            self.after_mark_free(world, slot).wf(),
            self.within_claim_caps() ==> self.after_mark_free(world, slot).within_claim_caps(),
            self.within_reality_cap() ==> self.after_mark_free(world, slot).within_reality_cap(),
    {
        let post = self.after_mark_free(world, slot);
        self.lemma_slot_edit_keeps_wf(post);
        self.lemma_slot_edit_pools(post);
        crate::seqs::lemma_filter_all(self.claims, |c: Claim| true);
        self.lemma_fewer_claims_keep_caps(post, |c: Claim| true);
    }

    /// Marking slots as done leaves the tables consistent and every player
    /// within the allowances.
    pub proof fn lemma_mark_done_keeps_wf(self, by: Option<i64>, world: Seq<char>, slot: Seq<char>)
        requires
            self.wf(),
        ensures
            self.after_mark_done(by, world, slot).wf(),
            self.within_claim_caps() ==> self.after_mark_done(by, world, slot).within_claim_caps(),
            self.within_reality_cap() ==> self.after_mark_done(
                by,
                world,
                slot,
            ).within_reality_cap(),
    {
        let post = self.after_mark_done(by, world, slot);
        let mid = StoreView { tracked_slots: post.tracked_slots, ..self };
        self.lemma_slot_edit_keeps_wf(mid);
        let keep = self.claim_kept(by, world, slot);
        lemma_filter_members(self.claims, keep);
        lemma_filter_pairwise(self.claims, keep, |a: Claim, b: Claim| a.slot != b.slot);
        assert(post.ids_issued()) by {
            assert forall|i: int| 0 <= i < post.claims.len() implies (#[trigger] post.claims[i]).slot
                < post.next_id by {
                assert(self.claims.contains(post.claims[i]));
                let n = choose|n: int| 0 <= n < self.claims.len() && self.claims[n] == post.claims[i];
                assert(self.claims[n].slot < self.next_id);
            }
        }
        self.lemma_slot_edit_pools(post);
        self.lemma_fewer_claims_keep_caps(post, keep);
    }

    /// A status note leaves the tables consistent.
    pub proof fn lemma_note_keeps_wf(self, note: Update)
        requires
            self.wf(),
        ensures
            self.with_note(note).wf(),
    {
    }

    /// Opening claims to the public leaves the tables consistent.
    pub proof fn lemma_publish_keeps_wf(
        self,
        snowflake: i64,
        world: Seq<char>,
        slot: Seq<char>,
        description: String,
    )
        requires
            self.wf(),
        ensures
            self.after_publish(snowflake, world, slot, description).wf(),
    {
        let post = self.after_publish(snowflake, world, slot, description);
        assert(post.claims_unique()) by {
            assert forall|i: int, j: int|
                0 <= i < post.claims.len() && 0 <= j < post.claims.len() && i != j implies post.claims[i].slot
                != post.claims[j].slot by {
                assert(self.claims[i].slot != self.claims[j].slot);
            }
        }
        assert(post.ids_issued()) by {
            assert forall|i: int| 0 <= i < post.claims.len() implies (#[trigger] post.claims[i]).slot
                < post.next_id by {
                assert(self.claims[i].slot < self.next_id);
            }
        }
    }
}

impl Store {
    /// Whether the tracked slot at `i` has the name `slot` and belongs to
    /// the world `world`.
    fn row_answers(&self, i: usize, world: &String, slot: &String) -> (answers: bool)
        requires
            i < self.tracked_slots@.len(),
        ensures
            answers == self@.slot_named(world@, slot@)(self.tracked_slots@[i as int]),
    {
        self.tracked_slots[i].name == *slot && self.has_world_named(
            self.tracked_slots[i].world,
            world,
        )
    }

    /// Whether `by` may mark the tracked slot at `i` as done under the
    /// names `world` and `slot`.
    fn row_to_finish(&self, i: usize, by: Option<i64>, world: &String, slot: &String) -> (answers:
        bool)
        requires
            i < self.tracked_slots@.len(),
        ensures
            answers == self@.to_finish(by, world@, slot@)(self.tracked_slots@[i as int]),
    {
        self.row_answers(i, world, slot) && match by {
            Some(player) => self.is_claimed_by(self.tracked_slots[i].id, player),
            None => true,
        }
    }

    /// Whether a tracked slot with the id `id` has the name `slot` and
    /// belongs to the world `world`.
    pub fn does_slot_answer(&self, id: i64, world: &String, slot: &String) -> (answers: bool)
        ensures
            answers == self@.slot_answers(id, world@, slot@),
    {
        let mut i: usize = 0;
        while i < self.tracked_slots.len()
            invariant
                i <= self.tracked_slots@.len(),
                forall|j: int|
                    0 <= j < i ==> !((#[trigger] self.tracked_slots@[j]).id == id
                        && self@.slot_named(world@, slot@)(self.tracked_slots@[j])),
            decreases self.tracked_slots@.len() - i,
        {
            if self.tracked_slots[i].id == id && self.row_answers(i, world, slot) {
                proof {
                    assert(self@.tracked_slots[i as int].id == id && self@.slot_named(
                        world@,
                        slot@,
                    )(self@.tracked_slots[i as int]));
                }
                return true;
            }
            i += 1;
        }
        false
    }

    /// Whether `by` may mark the tracked slot with the id `id` as done
    /// under the names `world` and `slot`.
    fn is_finishing(&self, id: i64, by: Option<i64>, world: &String, slot: &String) -> (answers:
        bool)
        ensures
            answers == self@.finishing(id, by, world@, slot@),
    {
        let mut i: usize = 0;
        while i < self.tracked_slots.len()
            invariant
                i <= self.tracked_slots@.len(),
                forall|j: int|
                    0 <= j < i ==> !((#[trigger] self.tracked_slots@[j]).id == id
                        && self@.to_finish(by, world@, slot@)(self.tracked_slots@[j])),
            decreases self.tracked_slots@.len() - i,
        {
            if self.tracked_slots[i].id == id && self.row_to_finish(i, by, world, slot) {
                proof {
                    assert(self@.tracked_slots[i as int].id == id && self@.to_finish(
                        by,
                        world@,
                        slot@,
                    )(self@.tracked_slots[i as int]));
                }
                return true;
            }
            i += 1;
        }
        false
    }

    /// Whether a player with the id `player` is known outside as
    /// `snowflake`.
    pub fn is_player_known_as(&self, player: i64, snowflake: i64) -> (known: bool)
        ensures
            known == self@.player_known_as(player, snowflake),
    {
        let mut i: usize = 0;
        while i < self.players.len()
            invariant
                i <= self.players@.len(),
                forall|j: int|
                    0 <= j < i ==> !((#[trigger] self.players@[j]).id == player
                        && self.players@[j].snowflake == snowflake),
            decreases self.players@.len() - i,
        {
            if self.players[i].id == player && self.players[i].snowflake == snowflake {
                proof {
                    assert(self@.players[i as int].id == player);
                }
                return true;
            }
            i += 1;
        }
        false
    }

    /// Takes the claims from the slots with the name `slot` in the world
    /// `world`.
    pub fn unclaim(&mut self, world: &str, slot: &str)
        requires
            old(self).wf(),
        ensures
            final(self)@ == old(self)@.after_unclaim(world@, slot@),
            final(self).wf(),
            old(self)@.within_claim_caps() ==> final(self)@.within_claim_caps(),
            old(self)@.within_reality_cap() ==> final(self)@.within_reality_cap(),
    {
        let world_name = world.to_owned();
        let slot_name = slot.to_owned();
        proof {
            self@.lemma_unclaim_keeps_wf(world@, slot@);
        }
        let ghost keep = self@.claim_elsewhere(world@, slot@);
        let mut kept: Vec<Claim> = Vec::new();
        let mut i: usize = 0;
        proof {
            lemma_filter_empty(keep);
            assert(self.claims@.take(0) =~= Seq::<Claim>::empty());
        }
        while i < self.claims.len()
            invariant
                i <= self.claims@.len(),
                world_name@ == world@,
                slot_name@ == slot@,
                keep == self@.claim_elsewhere(world@, slot@),
                kept@ == self.claims@.take(i as int).filter(keep),
            decreases self.claims@.len() - i,
        {
            proof {
                lemma_filter_push(self.claims@.take(i as int), self.claims@[i as int], keep);
                assert(self.claims@.take(i as int).push(self.claims@[i as int])
                    =~= self.claims@.take(i + 1));
            }
            if !self.does_slot_answer(self.claims[i].slot, &world_name, &slot_name) {
                kept.push(self.claims[i].duplicate());
            }
            i += 1;
        }
        proof {
            assert(self.claims@.take(i as int) =~= self.claims@);
        }
        self.claims = kept;
    }

    /// Marks the slots with the name `slot` in the world `world` as free:
    /// a claim on them takes no capacity any more.
    pub fn mark_free(&mut self, world: &str, slot: &str)
        requires
            old(self).wf(),
        ensures
            final(self)@ == old(self)@.after_mark_free(world@, slot@),
            final(self).wf(),
            old(self)@.within_claim_caps() ==> final(self)@.within_claim_caps(),
            old(self)@.within_reality_cap() ==> final(self)@.within_reality_cap(),
    {
        let world_name = world.to_owned();
        let slot_name = slot.to_owned();
        proof {
            self@.lemma_mark_free_keeps_wf(world@, slot@);
        }
        let ghost f = self@.freed(world@, slot@);
        let mut rows: Vec<TrackedSlot> = Vec::new();
        let mut i: usize = 0;
        proof {
            assert(rows@ =~= self.tracked_slots@.take(0).map_values(f));
        }
        while i < self.tracked_slots.len()
            invariant
                i <= self.tracked_slots@.len(),
                world_name@ == world@,
                slot_name@ == slot@,
                f == self@.freed(world@, slot@),
                rows@ == self.tracked_slots@.take(i as int).map_values(f),
            decreases self.tracked_slots@.len() - i,
        {
            let mut row = self.tracked_slots[i].duplicate();
            if self.row_answers(i, &world_name, &slot_name) {
                row.free = true;
            }
            proof {
                assert(row == f(self.tracked_slots@[i as int]));
            }
            rows.push(row);
            proof {
                assert(rows@ =~= self.tracked_slots@.take(i + 1).map_values(f));
            }
            i += 1;
        }
        proof {
            assert(self.tracked_slots@.take(i as int) =~= self.tracked_slots@);
        }
        self.tracked_slots = rows;
    }

    /// Marks the slots with the name `slot` in the world `world` as done
    /// and gives up the claims on them.
    ///
    /// With a player as `by`, only slots that the player holds are
    /// marked; with `None`, an organizer marks whatever answers to the
    /// names. Where no slot is marked, nothing changes.
    pub fn mark_done(&mut self, by: Option<i64>, world: &str, slot: &str) -> (result: Result<
        (),
        NotFound,
    >)
        requires
            old(self).wf(),
        ensures
            result is Ok == old(self)@.can_mark_done(by, world@, slot@),
            final(self)@ == old(self)@.after_mark_done(by, world@, slot@),
            result is Err ==> final(self)@ == old(self)@,
            final(self).wf(),
            old(self)@.within_claim_caps() ==> final(self)@.within_claim_caps(),
            old(self)@.within_reality_cap() ==> final(self)@.within_reality_cap(),
    {
        let world_name = world.to_owned();
        let slot_name = slot.to_owned();
        proof {
            self@.lemma_mark_done_keeps_wf(by, world@, slot@);
        }
        let ghost f = self@.done_by(by, world@, slot@);
        let ghost keep = self@.claim_kept(by, world@, slot@);
        let mut rows: Vec<TrackedSlot> = Vec::new();
        let mut marked = false;
        let mut i: usize = 0;
        proof {
            assert(rows@ =~= self.tracked_slots@.take(0).map_values(f));
        }
        while i < self.tracked_slots.len()
            invariant
                i <= self.tracked_slots@.len(),
                world_name@ == world@,
                slot_name@ == slot@,
                f == self@.done_by(by, world@, slot@),
                rows@ == self.tracked_slots@.take(i as int).map_values(f),
                marked == exists|j: int|
                    0 <= j < i && self@.to_finish(by, world@, slot@)(
                        #[trigger] self@.tracked_slots[j],
                    ),
            decreases self.tracked_slots@.len() - i,
        {
            let mut row = self.tracked_slots[i].duplicate();
            if self.row_to_finish(i, by, &world_name, &slot_name) {
                row.status = Status::Done;
                marked = true;
                proof {
                    assert(self@.to_finish(by, world@, slot@)(self@.tracked_slots[i as int]));
                }
            }
            proof {
                assert(row == f(self.tracked_slots@[i as int]));
            }
            rows.push(row);
            proof {
                assert(rows@ =~= self.tracked_slots@.take(i + 1).map_values(f));
            }
            i += 1;
        }
        proof {
            assert(self.tracked_slots@.take(i as int) =~= self.tracked_slots@);
        }
        let mut kept: Vec<Claim> = Vec::new();
        let mut c: usize = 0;
        proof {
            lemma_filter_empty(keep);
            assert(self.claims@.take(0) =~= Seq::<Claim>::empty());
        }
        while c < self.claims.len()
            invariant
                c <= self.claims@.len(),
                world_name@ == world@,
                slot_name@ == slot@,
                keep == self@.claim_kept(by, world@, slot@),
                kept@ == self.claims@.take(c as int).filter(keep),
            decreases self.claims@.len() - c,
        {
            proof {
                lemma_filter_push(self.claims@.take(c as int), self.claims@[c as int], keep);
                assert(self.claims@.take(c as int).push(self.claims@[c as int])
                    =~= self.claims@.take(c + 1));
            }
            if !self.is_finishing(self.claims[c].slot, by, &world_name, &slot_name) {
                kept.push(self.claims[c].duplicate());
            }
            c += 1;
        }
        proof {
            assert(self.claims@.take(c as int) =~= self.claims@);
        }
        if !marked {
            proof {
                let pre = self@;
                assert forall|j: int| 0 <= j < pre.tracked_slots.len() implies f(
                    #[trigger] pre.tracked_slots[j],
                ) == pre.tracked_slots[j] by {}
                assert(pre.tracked_slots.map_values(f) =~= pre.tracked_slots);
                assert forall|j: int| 0 <= j < pre.claims.len() implies keep(
                    #[trigger] pre.claims[j],
                ) by {
                    if pre.finishing(pre.claims[j].slot, by, world@, slot@) {
                        let n = choose|n: int|
                            0 <= n < pre.tracked_slots.len() && (
                            #[trigger] pre.tracked_slots[n]).id == pre.claims[j].slot
                                && pre.to_finish(by, world@, slot@)(pre.tracked_slots[n]);
                        assert(false);
                    }
                }
                crate::seqs::lemma_filter_all(pre.claims, keep);
            }
            return Err(NotFound);
        }
        self.tracked_slots = rows;
        self.claims = kept;
        Ok(())
    }

    /// Opens the claims that `snowflake` holds on the slots with the name
    /// `slot` in the world `world` to the public, with `description`.
    /// Returns whether there was such a claim.
    pub fn set_public(&mut self, snowflake: i64, world: &str, slot: &str, description: &str) -> (changed:
        bool)
        requires
            old(self).wf(),
        ensures
            changed == old(self)@.holds_claim(snowflake, world@, slot@),
            final(self).wf(),
            old(self)@.within_claim_caps() ==> final(self)@.within_claim_caps(),
            old(self)@.within_reality_cap() ==> final(self)@.within_reality_cap(),
            exists|text: String|
                text@ == description@ && final(self)@ == old(self)@.after_publish(
                    snowflake,
                    world@,
                    slot@,
                    text,
                ),
    {
        let world_name = world.to_owned();
        let slot_name = slot.to_owned();
        let text = description.to_owned();
        proof {
            self@.lemma_publish_keeps_wf(snowflake, world@, slot@, text);
            self@.lemma_same_holders_keep_caps(
                self@.after_publish(snowflake, world@, slot@, text),
                self@.published(snowflake, world@, slot@, text),
            );
        }
        let ghost f = self@.published(snowflake, world@, slot@, text);
        let mut rows: Vec<Claim> = Vec::new();
        let mut changed = false;
        let mut i: usize = 0;
        proof {
            assert(rows@ =~= self.claims@.take(0).map_values(f));
        }
        while i < self.claims.len()
            invariant
                i <= self.claims@.len(),
                world_name@ == world@,
                slot_name@ == slot@,
                f == self@.published(snowflake, world@, slot@, text),
                rows@ == self.claims@.take(i as int).map_values(f),
                changed == exists|j: int|
                    0 <= j < i && self@.own_claim(snowflake, world@, slot@)(
                        #[trigger] self@.claims[j],
                    ),
            decreases self.claims@.len() - i,
        {
            let own = self.is_player_known_as(self.claims[i].player, snowflake)
                && self.does_slot_answer(self.claims[i].slot, &world_name, &slot_name);
            let row = if own {
                changed = true;
                proof {
                    assert(self@.own_claim(snowflake, world@, slot@)(self@.claims[i as int]));
                }
                Claim {
                    slot: self.claims[i].slot,
                    player: self.claims[i].player,
                    public: Some(text.clone()),
                }
            } else {
                self.claims[i].duplicate()
            };
            proof {
                assert(row == f(self.claims@[i as int]));
            }
            rows.push(row);
            proof {
                assert(rows@ =~= self.claims@.take(i + 1).map_values(f));
            }
            i += 1;
        }
        proof {
            assert(self.claims@.take(i as int) =~= self.claims@);
        }
        self.claims = rows;
        changed
    }

    /// Records a status note of `player` on the slot with the name `slot`
    /// in the world `world`.
    pub fn add_update(
        &mut self,
        player: i64,
        world: &str,
        slot: &str,
        description: &str,
        timestamp: i64,
    ) -> (result: Result<(), NotFound>)
        requires
            old(self).wf(),
        ensures
            final(self).wf(),
            old(self)@.within_claim_caps() ==> final(self)@.within_claim_caps(),
            old(self)@.within_reality_cap() ==> final(self)@.within_reality_cap(),
            match old(self)@.named_slot(world@, slot@) {
                Some(s) => {
                    &&& result is Ok
                    &&& final(self)@.updates.len() == old(self)@.updates.len() + 1
                    &&& is_note(final(self)@.updates.last(), s.id, player, timestamp, description@)
                    &&& final(self)@ == old(self)@.with_note(final(self)@.updates.last())
                },
                None => result is Err && final(self)@ == old(self)@,
            },
    {
        let world_name = world.to_owned();
        let slot_name = slot.to_owned();
        match self.find_named_slot(&world_name, &slot_name) {
            Some(i) => {
                let id = self.tracked_slots[i].id;
                let note = Update { slot: id, player, timestamp, description: description.to_owned() };
                proof {
                    self@.lemma_note_keeps_wf(note);
                    self@.lemma_same_claims_keep_caps(self@.with_note(note));
                }
                self.updates.push(note);
                Ok(())
            },
            None => Err(NotFound),
        }
    }
}

} // verus!
