//! The claim transaction: one player takes one tracked slot.

use vstd::prelude::*;

use crate::admission::{slot_with_id, world_with_id, Denial, MAX_REALITIES};
use crate::seqs::{lemma_filter_agree, lemma_filter_empty, lemma_filter_members};
use crate::seqs::{lemma_filter_pairwise, lemma_filter_push};
use crate::store::{first_index, lemma_first_index, lemma_first_index_found};
use crate::store::{Claim, Preclaim, PreclaimStatus, Reality, Store, StoreView, TrackedSlot};

verus! {

/// Why a claim was not made.
#[derive(Debug, PartialEq, Eq, Clone, Copy, Structural)]
pub enum ClaimError {
    SlotNotFound,
    AdmissionDenied(Denial),
    AlreadyClaimed,
}

impl ClaimError {
    pub open spec fn text(self) -> Seq<char> {
        match self {
            ClaimError::SlotNotFound => "Failed to get slot"@,
            ClaimError::AdmissionDenied(denial) => denial.text(),
            ClaimError::AlreadyClaimed => "Slot is already claimed"@,
        }
    }

    /// The reason as it is shown to the player.
    pub fn message(&self) -> (text: &'static str)
        ensures
            text@ == self.text(),
    {
        match self {
            ClaimError::SlotNotFound => "Failed to get slot",
            ClaimError::AdmissionDenied(denial) => denial.message(),
            ClaimError::AlreadyClaimed => "Slot is already claimed",
        }
    }
}

/// Preclaims other than the pending ones of `player`.
pub open spec fn not_pending_of(player: i64) -> spec_fn(Preclaim) -> bool {
    |p: Preclaim| !(p.player == player && p.status == PreclaimStatus::Pending)
}

/// Claims on the slot `slot`.
pub open spec fn claim_on(slot: i64) -> spec_fn(Claim) -> bool {
    |c: Claim| c.slot == slot
}

impl StoreView {
    /// Whether a tracked world with the id `world` has the name `name`.
    pub open spec fn in_world_named(self, world: i64, name: Seq<char>) -> bool {
        exists|k: int|
            0 <= k < self.tracked_worlds.len() && (#[trigger] self.tracked_worlds[k]).id == world
                && self.tracked_worlds[k].name@ == name
    }

    /// Tracked slots with the name `slot` in a world with the name `world`.
    pub open spec fn slot_named(self, world: Seq<char>, slot: Seq<char>) -> spec_fn(
        TrackedSlot,
    ) -> bool {
        |s: TrackedSlot| s.name@ == slot && self.in_world_named(s.world, world)
    }

    /// The first tracked slot with the name `slot` in a world with the name
    /// `world`.
    pub open spec fn named_slot(self, world: Seq<char>, slot: Seq<char>) -> Option<TrackedSlot> {
        let i = first_index(self.tracked_slots, self.slot_named(world, slot));
        if i < self.tracked_slots.len() {
            Some(self.tracked_slots[i])
        } else {
            None
        }
    }

    /// Whether the slot `slot` has a claim.
    pub open spec fn claimed(self, slot: i64) -> bool {
        exists|i: int| 0 <= i < self.claims.len() && (#[trigger] self.claims[i]).slot == slot
    }

    /// The reality that governs claims on the slot `s`.
    pub open spec fn slot_reality(self, s: TrackedSlot) -> Option<Reality> {
        match self.tracked_world(s.world) {
            Some(w) => self.pool_reality(w.reality),
            None => None,
        }
    }

    /// What a claim of `player` on the slot `slot` of the world `world`
    /// returns.
    pub open spec fn claim_outcome(self, player: i64, world: Seq<char>, slot: Seq<char>) -> Result<
        (),
        ClaimError,
    > {
        match self.named_slot(world, slot) {
            None => Err(ClaimError::SlotNotFound),
            Some(s) => {
                let decision = self.admits(player, self.slot_reality(s));
                if !s.free && decision is Err {
                    Err(ClaimError::AdmissionDenied(decision->Err_0))
                } else if self.claimed(s.id) {
                    Err(ClaimError::AlreadyClaimed)
                } else {
                    Ok(())
                }
            },
        }
    }

    /// The tables after a claim of `player` on the slot `slot` of the world
    /// `world`: where the claim is made, it is added and the pending
    /// preclaims of `player` are gone; otherwise nothing has changed.
    pub open spec fn after_claim(self, player: i64, world: Seq<char>, slot: Seq<char>) -> StoreView {
        match self.named_slot(world, slot) {
            Some(s) if self.claim_outcome(player, world, slot) is Ok => StoreView {
                claims: self.claims.push(Claim { slot: s.id, player, public: None }),
                preclaims: self.preclaims.filter(not_pending_of(player)),
                ..self
            },
            _ => self,
        }
    }

    /// With ids that tell tracked slots apart, a tracked slot is found
    /// under its id.
    pub proof fn lemma_slot_lookup(self, i: int)
        requires
            self.tracked_ids_unique(),
            0 <= i < self.tracked_slots.len(),
        ensures
            self.tracked_slot(self.tracked_slots[i].id) == Some(self.tracked_slots[i]),
    {
        lemma_first_index(self.tracked_slots, slot_with_id(self.tracked_slots[i].id), i);
    }

    /// A store that differs from this one only in claims and preclaims
    /// counts every claim as this one does.
    pub proof fn lemma_counting_agrees(self, other: StoreView, player: i64, pool: Option<i64>)
        requires
            self.tracked_slots == other.tracked_slots,
            self.tracked_worlds == other.tracked_worlds,
        ensures
            forall|c: Claim|
                #[trigger] self.counting(player, pool)(c) == other.counting(player, pool)(c),
    {
    }

    /// A claim leaves the tables consistent.
    pub proof fn lemma_claim_keeps_wf(self, player: i64, world: Seq<char>, slot: Seq<char>)
        requires
            self.wf(),
        ensures
            self.after_claim(player, world, slot).wf(),
    {
        let post = self.after_claim(player, world, slot);
        if self.claim_outcome(player, world, slot) is Ok {
            let s = self.named_slot(world, slot)->0;
            lemma_first_index_found(self.tracked_slots, self.slot_named(world, slot));
            lemma_filter_members(self.preclaims, not_pending_of(player));
            lemma_filter_pairwise(
                self.preclaims,
                not_pending_of(player),
                |a: Preclaim, b: Preclaim|
                    a.status == PreclaimStatus::Pending && b.status == PreclaimStatus::Pending
                        ==> a.player != b.player,
            );
            assert(post.claims_unique()) by {
                assert forall|i: int, j: int|
                    0 <= i < post.claims.len() && 0 <= j < post.claims.len() && i != j implies post.claims[i].slot
                    != post.claims[j].slot by {
                    if i < self.claims.len() && j < self.claims.len() {
                    } else if i < self.claims.len() {
                        assert(self.claims[i].slot != s.id);
                    } else {
                        assert(self.claims[j].slot != s.id);
                    }
                }
            }
            assert(post.won_only_resolved()) by {
                assert forall|i: int, j: int, k: int|
                    0 <= i < post.preclaims.len() && 0 <= j < post.slots.len() && 0 <= k
                        < post.worlds.len() && post.preclaims[i].status == PreclaimStatus::Won
                        && post.slots[j].id == post.preclaims[i].slot && post.worlds[k].id
                        == post.slots[j].world implies post.worlds[k].resolved_preclaims by {
                    assert(self.preclaims.contains(post.preclaims[i]));
                    let n = choose|n: int|
                        0 <= n < self.preclaims.len() && self.preclaims[n] == post.preclaims[i];
                    assert(self.preclaims[n].status == PreclaimStatus::Won);
                }
            }
            assert(post.ids_issued()) by {
                assert forall|i: int| 0 <= i < post.preclaims.len() implies (
                #[trigger] post.preclaims[i]).slot < post.next_id by {
                    assert(self.preclaims.contains(post.preclaims[i]));
                    let n = choose|n: int|
                        0 <= n < self.preclaims.len() && self.preclaims[n] == post.preclaims[i];
                    assert(self.preclaims[n].slot < self.next_id);
                }
                assert forall|i: int| 0 <= i < post.claims.len() implies (
                #[trigger] post.claims[i]).slot < post.next_id by {
                    if i < self.claims.len() {
                        assert(post.claims[i] == self.claims[i]);
                    }
                }
            }
        }
    }

    /// A claim never lifts a player over the claim allowance of a pool: the
    /// claim is made only where the admission policy has room for it.
    pub proof fn lemma_claim_keeps_claim_caps(self, player: i64, world: Seq<char>, slot: Seq<char>)
        requires
            self.wf(),
            self.within_claim_caps(),
        ensures
            self.after_claim(player, world, slot).within_claim_caps(),
    {
        let post = self.after_claim(player, world, slot);
        if self.claim_outcome(player, world, slot) is Ok {
            let s = self.named_slot(world, slot)->0;
            lemma_first_index_found(self.tracked_slots, self.slot_named(world, slot));
            let at = first_index(self.tracked_slots, self.slot_named(world, slot));
            self.lemma_slot_lookup(at);
            let n = self.claims.len() as int;
            let made = Claim { slot: s.id, player, public: None };
            assert forall|p: i64, pool: Option<i64>| #[trigger]
                post.current_claims(p, pool) <= post.pool_cap(pool) by {
                self.lemma_counting_agrees(post, p, pool);
                lemma_filter_agree(self.claims, self.counting(p, pool), post.counting(p, pool));
                lemma_filter_push(self.claims, made, post.counting(p, pool));
                assert(self.current_claims(p, pool) <= self.pool_cap(pool));
                assert(post.claims[n] == made);
                assert(post.slot_pool(s.id) == self.slot_pool(s.id));
                if post.counts(post.claims[n], p, pool) {
                    assert(!s.free);
                    assert(p == player);
                    let w = self.tracked_world(s.world)->0;
                    assert(w.reality == pool);
                    assert(self.slot_reality(s) == self.pool_reality(pool));
                    assert(self.admits(player, self.slot_reality(s)) is Ok);
                }
            }
        }
    }

    /// A claim never lets a player join more realities than allowed.
    pub proof fn lemma_claim_keeps_reality_cap(self, player: i64, world: Seq<char>, slot: Seq<char>)
        requires
            self.wf(),
            self.within_reality_cap(),
        ensures
            self.after_claim(player, world, slot).within_reality_cap(),
    {
        let post = self.after_claim(player, world, slot);
        if self.claim_outcome(player, world, slot) is Ok {
            let s = self.named_slot(world, slot)->0;
            lemma_first_index_found(self.tracked_slots, self.slot_named(world, slot));
            let at = first_index(self.tracked_slots, self.slot_named(world, slot));
            self.lemma_slot_lookup(at);
            let n = self.claims.len() as int;
            assert(post.claims[n] == Claim { slot: s.id, player, public: None });
            assert forall|p: i64| #[trigger]
                post.current_realities(p).len() <= MAX_REALITIES by {
                let before = self.current_realities(p);
                let after = post.current_realities(p);
                self.lemma_realities_finite(p);
                assert(before.len() <= MAX_REALITIES);
                assert forall|r: i64| before.contains(r) implies after.contains(r) by {
                    let i = choose|i: int|
                        0 <= i < self.claims.len() && self.counts(
                            #[trigger] self.claims[i],
                            p,
                            Some(r),
                        );
                    assert(post.claims[i] == self.claims[i]);
                    assert(post.counts(post.claims[i], p, Some(r)));
                }
                let joins = p == player && post.slot_pool(s.id) is Some && post.slot_pool(
                    s.id,
                )->0 is Some;
                if joins {
                    let r = post.slot_pool(s.id)->0->0;
                    assert forall|x: i64| after.contains(x) implies before.insert(r).contains(
                        x,
                    ) by {
                        let i = choose|i: int|
                            0 <= i < post.claims.len() && post.counts(
                                #[trigger] post.claims[i],
                                p,
                                Some(x),
                            );
                        if i < n {
                            assert(post.claims[i] == self.claims[i]);
                            assert(self.counts(self.claims[i], p, Some(x)));
                        }
                    }
                    assert(post.counts(post.claims[n], p, Some(r)));
                    assert(after =~= before.insert(r));
                    if !before.contains(r) {
                        let w = self.tracked_world(s.world)->0;
                        assert(w.reality == Some(r));
                        assert(self.slot_reality(s) == self.pool_reality(Some(r)));
                        assert(self.admits(player, self.slot_reality(s)) is Ok);
                        assert(before.len() < MAX_REALITIES);
                    }
                } else {
                    assert forall|x: i64| after.contains(x) implies before.contains(x) by {
                        let i = choose|i: int|
                            0 <= i < post.claims.len() && post.counts(
                                #[trigger] post.claims[i],
                                p,
                                Some(x),
                            );
                        if i < n {
                            assert(post.claims[i] == self.claims[i]);
                            assert(self.counts(self.claims[i], p, Some(x)));
                        }
                    }
                    assert(after =~= before);
                }
            }
        }
    }

    /// A free slot that nobody has claimed can be claimed by any player,
    /// whatever the admission policy says of that player.
    pub proof fn lemma_free_slot_bypasses_admission(
        self,
        player: i64,
        world: Seq<char>,
        slot: Seq<char>,
    )
        requires
            self.named_slot(world, slot) matches Some(s) && s.free && !self.claimed(s.id),
        ensures
            self.claim_outcome(player, world, slot) is Ok,
    {
    }

    /// In consistent tables at most one claim refers to any one slot.
    pub proof fn lemma_one_claim_per_slot(self, slot: i64)
        requires
            self.wf(),
        ensures
            self.claims.filter(claim_on(slot)).len() <= 1,
    {
        let on = self.claims.filter(claim_on(slot));
        lemma_filter_members(self.claims, claim_on(slot));
        lemma_filter_pairwise(self.claims, claim_on(slot), |a: Claim, b: Claim| a.slot != b.slot);
        if on.len() >= 2 {
            assert(claim_on(slot)(on[0]) && claim_on(slot)(on[1]));
            assert(on[0].slot != on[1].slot);
        }
    }
}

impl Store {
    /// Whether a tracked world with the id `world` has the name `name`.
    pub fn has_world_named(&self, world: i64, name: &String) -> (found: bool)
        ensures
            found == self@.in_world_named(world, name@),
    {
        let mut k: usize = 0;
        while k < self.tracked_worlds.len()
            invariant
                k <= self.tracked_worlds@.len(),
                forall|j: int|
                    0 <= j < k ==> !((#[trigger] self.tracked_worlds@[j]).id == world
                        && self.tracked_worlds@[j].name@ == name@),
            decreases self.tracked_worlds@.len() - k,
        {
            if self.tracked_worlds[k].id == world && self.tracked_worlds[k].name == *name {
                return true;
            }
            k += 1;
        }
        false
    }

    /// Finds the first tracked slot with the name `slot` in a world with
    /// the name `world`.
    pub fn find_named_slot(&self, world: &String, slot: &String) -> (found: Option<usize>)
        ensures
            match found {
                Some(i) => i < self.tracked_slots@.len() && self@.named_slot(world@, slot@) == Some(
                    self.tracked_slots@[i as int],
                ) && i == first_index(self@.tracked_slots, self@.slot_named(world@, slot@)),
                None => self@.named_slot(world@, slot@) is None,
            },
    {
        let mut i: usize = 0;
        while i < self.tracked_slots.len()
            invariant
                i <= self.tracked_slots@.len(),
                forall|j: int|
                    0 <= j < i ==> !self@.slot_named(world@, slot@)(#[trigger] self.tracked_slots@[j]),
            decreases self.tracked_slots@.len() - i,
        {
            if self.tracked_slots[i].name == *slot && self.has_world_named(
                self.tracked_slots[i].world,
                world,
            ) {
                proof {
                    lemma_first_index(
                        self@.tracked_slots,
                        self@.slot_named(world@, slot@),
                        i as int,
                    );
                }
                return Some(i);
            }
            i += 1;
        }
        proof {
            lemma_first_index(self@.tracked_slots, self@.slot_named(world@, slot@), i as int);
        }
        None
    }

    /// Whether the slot `slot` has a claim.
    pub fn is_claimed(&self, slot: i64) -> (claimed: bool)
        ensures
            claimed == self@.claimed(slot),
    {
        let mut i: usize = 0;
        while i < self.claims.len()
            invariant
                i <= self.claims@.len(),
                forall|j: int| 0 <= j < i ==> (#[trigger] self.claims@[j]).slot != slot,
            decreases self.claims@.len() - i,
        {
            if self.claims[i].slot == slot {
                return true;
            }
            i += 1;
        }
        false
    }

    /// The preclaims without the pending ones of `player`.
    pub fn preclaims_without_pending(&self, player: i64) -> (kept: Vec<Preclaim>)
        ensures
            kept@ == self@.preclaims.filter(not_pending_of(player)),
    {
        let mut kept: Vec<Preclaim> = Vec::new();
        let mut i: usize = 0;
        proof {
            lemma_filter_empty(not_pending_of(player));
            assert(self.preclaims@.take(0) =~= Seq::<Preclaim>::empty());
        }
        while i < self.preclaims.len()
            invariant
                i <= self.preclaims@.len(),
                kept@ == self.preclaims@.take(i as int).filter(not_pending_of(player)),
            decreases self.preclaims@.len() - i,
        {
            let p = self.preclaims[i];
            proof {
                lemma_filter_push(self.preclaims@.take(i as int), p, not_pending_of(player));
                assert(self.preclaims@.take(i as int).push(p) =~= self.preclaims@.take(i + 1));
            }
            if !(p.player == player && p.status == PreclaimStatus::Pending) {
                kept.push(p);
            }
            i += 1;
        }
        proof {
            assert(self.preclaims@.take(i as int) =~= self.preclaims@);
        }
        kept
    }

    /// Claims the slot `slot` of the world `world` for `player`.
    ///
    /// The slot must exist, the player must pass the admission policy
    /// unless the slot is free, and nobody may hold the slot yet. A claim
    /// that is made forfeits the pending preclaims of the player.
    pub fn claim(&mut self, player: i64, world: &str, slot: &str) -> (result: Result<(), ClaimError>)
        requires
            old(self).wf(),
        ensures
            result == old(self)@.claim_outcome(player, world@, slot@),
            final(self)@ == old(self)@.after_claim(player, world@, slot@),
            final(self).wf(),
            old(self)@.within_claim_caps() ==> final(self)@.within_claim_caps(),
            old(self)@.within_reality_cap() ==> final(self)@.within_reality_cap(),
    {
        let world_name = world.to_owned();
        let slot_name = slot.to_owned();
        proof {
            self@.lemma_claim_keeps_wf(player, world@, slot@);
            if self@.within_claim_caps() {
                self@.lemma_claim_keeps_claim_caps(player, world@, slot@);
            }
            if self@.within_reality_cap() {
                self@.lemma_claim_keeps_reality_cap(player, world@, slot@);
            }
        }
        let at = match self.find_named_slot(&world_name, &slot_name) {
            Some(at) => at,
            None => {
                return Err(ClaimError::SlotNotFound);
            },
        };
        let slot_id = self.tracked_slots[at].id;
        if !self.tracked_slots[at].free {
            let reality = match self.find_tracked_world(self.tracked_slots[at].world) {
                Some(k) => self.reality_of_pool(self.tracked_worlds[k].reality),
                None => None,
            };
            match self.can_claim_in_reality(player, reality) {
                Err(denial) => {
                    return Err(ClaimError::AdmissionDenied(denial));
                },
                Ok(()) => {},
            }
        }
        if self.is_claimed(slot_id) {
            return Err(ClaimError::AlreadyClaimed);
        }
        let kept = self.preclaims_without_pending(player);
        self.claims.push(Claim { slot: slot_id, player, public: None });
        self.preclaims = kept;
        Ok(())
    }
}

} // verus!
