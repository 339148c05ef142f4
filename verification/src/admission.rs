//! The admission policy: whether a player may take one more claim.

use vstd::prelude::*;

use crate::seqs::{lemma_filter_empty, lemma_filter_members, lemma_filter_push};
use crate::seqs::lemma_filter_twice_len;
use crate::store::{first_index, lemma_first_index, lemma_first_index_found, pool_of};
use crate::store::{Claim, NamedReality, Reality, Store, StoreView, TrackedSlot, TrackedWorld};

verus! {

/// In how many realities a player may hold claims at once.
pub const MAX_REALITIES: usize = 2;

/// How many claims a player may hold in worlds without a reality.
pub const NO_REALITY_CLAIMS: i64 = 2;

/// Why a player may not take one more claim.
#[derive(Debug, PartialEq, Eq, Clone, Copy, Structural)]
pub enum Denial {
    TooManyRealities,
    NoAvailableClaim,
}

impl Denial {
    pub open spec fn text(self) -> Seq<char> {
        match self {
            Denial::TooManyRealities => "You cannot join more realities"@,
            Denial::NoAvailableClaim => "No available claim"@,
        }
    }

    /// The reason as it is shown to the player.
    pub fn message(&self) -> (text: &'static str)
        ensures
            text@ == self.text(),
    {
        match self {
            Denial::TooManyRealities => "You cannot join more realities",
            Denial::NoAvailableClaim => "No available claim",
        }
    }
}

/// How many claims a world with this reality lets one player hold.
pub open spec fn claim_cap(reality: Option<Reality>) -> int {
    match reality {
        Some(r) => r.max_claims as int,
        None => NO_REALITY_CLAIMS as int,
    }
}

/// The decision on one more claim in `reality`, for a player who holds
/// counting claims in the realities `joined` and `held` of them in the pool
/// of `reality`.
pub open spec fn admission(joined: Set<i64>, held: int, reality: Option<Reality>) -> Result<
    (),
    Denial,
> {
    if reality matches Some(r) && !joined.contains(r.id) && joined.len() >= MAX_REALITIES {
        Err(Denial::TooManyRealities)
    } else if held >= claim_cap(reality) {
        Err(Denial::NoAvailableClaim)
    } else {
        Ok(())
    }
}

/// Tracked slots with the id `id`.
pub open spec fn slot_with_id(id: i64) -> spec_fn(TrackedSlot) -> bool {
    |s: TrackedSlot| s.id == id
}

/// Tracked worlds with the id `id`.
pub open spec fn world_with_id(id: i64) -> spec_fn(TrackedWorld) -> bool {
    |w: TrackedWorld| w.id == id
}

/// Realities with the id `id`.
pub open spec fn reality_with_id(id: i64) -> spec_fn(NamedReality) -> bool {
    |r: NamedReality| r.reality.id == id
}

/// Looks up `x` in `v`.
pub fn contains_id(v: &Vec<i64>, x: i64) -> (found: bool)
    ensures
        found == v@.contains(x),
{
    let mut i: usize = 0;
    while i < v.len()
        invariant
            i <= v.len(),
            forall|j: int| 0 <= j < i ==> v@[j] != x,
        decreases v.len() - i,
    {
        if v[i] == x {
            return true;
        }
        i += 1;
    }
    false
}

impl StoreView {
    /// The tracked world with the id `world`, if there is one.
    pub open spec fn tracked_world(self, world: i64) -> Option<TrackedWorld> {
        let k = first_index(self.tracked_worlds, world_with_id(world));
        if k < self.tracked_worlds.len() {
            Some(self.tracked_worlds[k])
        } else {
            None
        }
    }

    /// The tracked slot with the id `slot`, if there is one.
    pub open spec fn tracked_slot(self, slot: i64) -> Option<TrackedSlot> {
        let i = first_index(self.tracked_slots, slot_with_id(slot));
        if i < self.tracked_slots.len() {
            Some(self.tracked_slots[i])
        } else {
            None
        }
    }

    /// How many claims a player may hold in `pool`: what the reality of
    /// that id allows, or `NO_REALITY_CLAIMS` where there is none.
    pub open spec fn pool_cap(self, pool: Option<i64>) -> i64 {
        match pool {
            Some(id) => {
                let i = first_index(self.realities, reality_with_id(id));
                if i < self.realities.len() {
                    self.realities[i].reality.max_claims
                } else {
                    NO_REALITY_CLAIMS
                }
            },
            None => NO_REALITY_CLAIMS,
        }
    }

    /// The reality that governs the worlds of `pool`.
    pub open spec fn pool_reality(self, pool: Option<i64>) -> Option<Reality> {
        match pool {
            Some(id) => Some(Reality { id, max_claims: self.pool_cap(pool) }),
            None => None,
        }
    }

    /// The pool whose capacity a claim on `slot` takes up: none for a slot
    /// that is free, unknown, or in no tracked world.
    pub open spec fn slot_pool(self, slot: i64) -> Option<Option<i64>> {
        match self.tracked_slot(slot) {
            Some(s) => if s.free {
                None
            } else {
                match self.tracked_world(s.world) {
                    Some(w) => Some(w.reality),
                    None => None,
                }
            },
            None => None,
        }
    }

    /// Whether `claim` takes up capacity of `player` in `pool`.
    pub open spec fn counts(self, claim: Claim, player: i64, pool: Option<i64>) -> bool {
        claim.player == player && self.slot_pool(claim.slot) == Some(pool)
    }

    /// Claims that take up capacity of `player` in `pool`.
    pub open spec fn counting(self, player: i64, pool: Option<i64>) -> spec_fn(Claim) -> bool {
        |c: Claim| self.counts(c, player, pool)
    }

    /// How many claims of `player` take up capacity in `pool`.
    pub open spec fn current_claims(self, player: i64, pool: Option<i64>) -> nat {
        self.claims.filter(self.counting(player, pool)).len()
    }

    /// The realities in which `player` holds a claim that takes up capacity.
    pub open spec fn current_realities(self, player: i64) -> Set<i64> {
        Set::new(
            |r: i64|
                exists|i: int|
                    0 <= i < self.claims.len() && self.counts(
                        #[trigger] self.claims[i],
                        player,
                        Some(r),
                    ),
        )
    }

    /// The decision on one more claim of `player` in `reality`.
    pub open spec fn admits(self, player: i64, reality: Option<Reality>) -> Result<(), Denial> {
        admission(
            self.current_realities(player),
            self.current_claims(player, pool_of(reality)) as int,
            reality,
        )
    }

    /// No player holds more counting claims in a pool than the pool allows.
    pub open spec fn within_claim_caps(self) -> bool {
        forall|player: i64, pool: Option<i64>| #[trigger]
            self.current_claims(player, pool) <= self.pool_cap(pool)
    }

    /// No player holds counting claims in more than `MAX_REALITIES`
    /// realities.
    pub open spec fn within_reality_cap(self) -> bool {
        forall|player: i64| #[trigger] self.current_realities(player).len() <= MAX_REALITIES
    }

    /// Where a store has fewer claims than this one, and no slot draws on
    /// a pool there on which it does not draw here, no player is over an
    /// allowance there that is kept here.
    pub proof fn lemma_fewer_claims_keep_caps(self, post: StoreView, keep: spec_fn(Claim) -> bool)
        requires
            post.claims == self.claims.filter(keep),
            post.realities == self.realities,
            forall|slot: i64|
                #[trigger] post.slot_pool(slot) is Some ==> self.slot_pool(slot) == post.slot_pool(
                    slot,
                ),
        ensures
            self.within_claim_caps() ==> post.within_claim_caps(),
            self.within_reality_cap() ==> post.within_reality_cap(),
    {
        lemma_filter_members(self.claims, keep);
        if self.within_claim_caps() {
            assert forall|player: i64, pool: Option<i64>| #[trigger]
                post.current_claims(player, pool) <= post.pool_cap(pool) by {
                assert forall|i: int|
                    0 <= i < self.claims.len() && keep(#[trigger] self.claims[i])
                        && post.counting(player, pool)(self.claims[i]) implies self.counting(
                    player,
                    pool,
                )(self.claims[i]) by {
                    assert(post.slot_pool(self.claims[i].slot) is Some);
                }
                lemma_filter_twice_len(
                    self.claims,
                    keep,
                    post.counting(player, pool),
                    self.counting(player, pool),
                );
                assert(self.current_claims(player, pool) <= self.pool_cap(pool));
            }
        }
        if self.within_reality_cap() {
            assert forall|player: i64| #[trigger]
                post.current_realities(player).len() <= MAX_REALITIES by {
                self.lemma_realities_finite(player);
                assert forall|r: i64|
                    post.current_realities(player).contains(r) implies self.current_realities(
                    player,
                ).contains(r) by {
                    let i = choose|i: int|
                        0 <= i < post.claims.len() && post.counts(
                            #[trigger] post.claims[i],
                            player,
                            Some(r),
                        );
                    assert(self.claims.contains(post.claims[i]));
                    let j = choose|j: int|
                        0 <= j < self.claims.len() && self.claims[j] == post.claims[i];
                    assert(post.slot_pool(self.claims[j].slot) is Some);
                    assert(self.counts(self.claims[j], player, Some(r)));
                }
                vstd::set_lib::lemma_len_subset(
                    post.current_realities(player),
                    self.current_realities(player),
                );
                assert(self.current_realities(player).len() <= MAX_REALITIES);
            }
        }
    }

    /// Without claims every player is within every allowance.
    pub proof fn lemma_no_claims_within_caps(self)
        requires
            self.claims.len() == 0,
            self.points_valid(),
        ensures
            self.within_claim_caps(),
            self.within_reality_cap(),
    {
        assert(self.claims =~= Seq::<Claim>::empty());
        assert forall|player: i64, pool: Option<i64>| #[trigger]
            self.current_claims(player, pool) <= self.pool_cap(pool) by {
            lemma_filter_empty(self.counting(player, pool));
            if let Some(id) = pool {
                lemma_first_index_found(self.realities, reality_with_id(id));
            }
        }
        assert forall|player: i64| #[trigger]
            self.current_realities(player).len() <= MAX_REALITIES by {
            assert(self.current_realities(player) =~= Set::<i64>::empty());
        }
    }

    /// A store with the same claims, tracked worlds, tracked slots and
    /// realities has every player where this one has.
    pub proof fn lemma_same_claims_keep_caps(self, post: StoreView)
        requires
            post.claims == self.claims,
            post.tracked_slots == self.tracked_slots,
            post.tracked_worlds == self.tracked_worlds,
            post.realities == self.realities,
        ensures
            self.within_claim_caps() ==> post.within_claim_caps(),
            self.within_reality_cap() ==> post.within_reality_cap(),
    {
        crate::seqs::lemma_filter_all(self.claims, |c: Claim| true);
        self.lemma_fewer_claims_keep_caps(post, |c: Claim| true);
    }

    /// A store whose claims lie on the same slots and belong to the same
    /// players, with the same tracked worlds, tracked slots and realities,
    /// has every player where this one has.
    pub proof fn lemma_same_holders_keep_caps(self, post: StoreView, f: spec_fn(Claim) -> Claim)
        requires
            post.claims == self.claims.map_values(f),
            forall|c: Claim| (#[trigger] f(c)).slot == c.slot && f(c).player == c.player,
            post.tracked_slots == self.tracked_slots,
            post.tracked_worlds == self.tracked_worlds,
            post.realities == self.realities,
        ensures
            self.within_claim_caps() ==> post.within_claim_caps(),
            self.within_reality_cap() ==> post.within_reality_cap(),
    {
        if self.within_claim_caps() {
            assert forall|player: i64, pool: Option<i64>| #[trigger]
                post.current_claims(player, pool) <= post.pool_cap(pool) by {
                crate::seqs::lemma_filter_map_len(self.claims, f, post.counting(player, pool));
                crate::seqs::lemma_filter_agree(
                    self.claims,
                    self.counting(player, pool),
                    post.counting(player, pool),
                );
                assert(self.current_claims(player, pool) <= self.pool_cap(pool));
            }
        }
        if self.within_reality_cap() {
            assert forall|player: i64| #[trigger]
                post.current_realities(player).len() <= MAX_REALITIES by {
                assert forall|r: i64|
                    post.current_realities(player).contains(r) implies self.current_realities(
                    player,
                ).contains(r) by {
                    let i = choose|i: int|
                        0 <= i < post.claims.len() && post.counts(
                            #[trigger] post.claims[i],
                            player,
                            Some(r),
                        );
                    assert(post.claims[i] == f(self.claims[i]));
                    assert(self.counts(self.claims[i], player, Some(r)));
                }
                assert forall|r: i64|
                    self.current_realities(player).contains(r) implies post.current_realities(
                    player,
                ).contains(r) by {
                    let i = choose|i: int|
                        0 <= i < self.claims.len() && self.counts(
                            #[trigger] self.claims[i],
                            player,
                            Some(r),
                        );
                    assert(post.claims[i] == f(self.claims[i]));
                    assert(post.counts(post.claims[i], player, Some(r)));
                }
                assert(post.current_realities(player) =~= self.current_realities(player));
                assert(self.current_realities(player).len() <= MAX_REALITIES);
            }
        }
    }

    /// Where the tracked worlds and slots of a store are taken from those
    /// of this one, a slot draws there on the pool on which it draws here,
    /// if on any.
    pub proof fn lemma_subtables_pools(self, post: StoreView)
        requires
            self.tracked_ids_unique(),
            forall|i: int|
                0 <= i < post.tracked_slots.len() ==> self.tracked_slots.contains(
                    #[trigger] post.tracked_slots[i],
                ),
            forall|k: int|
                0 <= k < post.tracked_worlds.len() ==> self.tracked_worlds.contains(
                    #[trigger] post.tracked_worlds[k],
                ),
        ensures
            forall|slot: i64|
                #[trigger] post.slot_pool(slot) is Some ==> self.slot_pool(slot) == post.slot_pool(
                    slot,
                ),
    {
        assert forall|slot: i64| #[trigger] post.slot_pool(slot) is Some implies self.slot_pool(
            slot,
        ) == post.slot_pool(slot) by {
            lemma_first_index_found(post.tracked_slots, slot_with_id(slot));
            let i = first_index(post.tracked_slots, slot_with_id(slot));
            let s = post.tracked_slots[i];
            assert(self.tracked_slots.contains(s));
            let i0 = choose|i0: int| 0 <= i0 < self.tracked_slots.len() && self.tracked_slots[i0] == s;
            lemma_first_index(self.tracked_slots, slot_with_id(slot), i0);
            lemma_first_index_found(post.tracked_worlds, world_with_id(s.world));
            let k = first_index(post.tracked_worlds, world_with_id(s.world));
            let w = post.tracked_worlds[k];
            assert(self.tracked_worlds.contains(w));
            let k0 = choose|k0: int|
                0 <= k0 < self.tracked_worlds.len() && self.tracked_worlds[k0] == w;
            lemma_first_index(self.tracked_worlds, world_with_id(s.world), k0);
        }
    }

    /// The realities that a player has joined are finitely many.
    pub proof fn lemma_realities_finite(self, player: i64)
        ensures
            self.current_realities(player).finite(),
    {
        let ids = Seq::new(
            self.tracked_worlds.len(),
            |k: int|
                match self.tracked_worlds[k].reality {
                    Some(r) => r,
                    None => 0i64,
                },
        );
        vstd::seq_lib::seq_to_set_is_finite(ids);
        assert forall|r: i64| self.current_realities(player).contains(r) implies ids.to_set().contains(
            r,
        ) by {
            let i = choose|i: int|
                0 <= i < self.claims.len() && self.counts(
                    #[trigger] self.claims[i],
                    player,
                    Some(r),
                );
            let s = self.tracked_slot(self.claims[i].slot)->0;
            lemma_first_index_found(self.tracked_worlds, world_with_id(s.world));
            let k = first_index(self.tracked_worlds, world_with_id(s.world));
            assert(ids[k] == r);
        }
        vstd::set_lib::lemma_set_subset_finite(ids.to_set(), self.current_realities(player));
    }
}

impl Store {
    pub fn find_tracked_world(&self, world: i64) -> (found: Option<usize>)
        ensures
            match found {
                Some(k) => k < self.tracked_worlds@.len() && self@.tracked_world(world) == Some(
                    self.tracked_worlds@[k as int],
                ),
                None => self@.tracked_world(world) is None,
            },
    {
        let mut k: usize = 0;
        while k < self.tracked_worlds.len()
            invariant
                k <= self.tracked_worlds@.len(),
                forall|j: int| 0 <= j < k ==> !world_with_id(world)(#[trigger] self.tracked_worlds@[j]),
            decreases self.tracked_worlds@.len() - k,
        {
            if self.tracked_worlds[k].id == world {
                proof {
                    lemma_first_index(self.tracked_worlds@, world_with_id(world), k as int);
                }
                return Some(k);
            }
            k += 1;
        }
        proof {
            lemma_first_index(self.tracked_worlds@, world_with_id(world), k as int);
        }
        None
    }

    pub fn find_tracked_slot(&self, slot: i64) -> (found: Option<usize>)
        ensures
            match found {
                Some(i) => i < self.tracked_slots@.len() && self@.tracked_slot(slot) == Some(
                    self.tracked_slots@[i as int],
                ),
                None => self@.tracked_slot(slot) is None,
            },
    {
        let mut i: usize = 0;
        while i < self.tracked_slots.len()
            invariant
                i <= self.tracked_slots@.len(),
                forall|j: int| 0 <= j < i ==> !slot_with_id(slot)(#[trigger] self.tracked_slots@[j]),
            decreases self.tracked_slots@.len() - i,
        {
            if self.tracked_slots[i].id == slot {
                proof {
                    lemma_first_index(self.tracked_slots@, slot_with_id(slot), i as int);
                }
                return Some(i);
            }
            i += 1;
        }
        proof {
            lemma_first_index(self.tracked_slots@, slot_with_id(slot), i as int);
        }
        None
    }

    /// Computes [`StoreView::pool_reality`].
    pub fn reality_of_pool(&self, pool: Option<i64>) -> (reality: Option<Reality>)
        ensures
            reality == self@.pool_reality(pool),
    {
        match pool {
            Some(id) => {
                let mut i: usize = 0;
                while i < self.realities.len()
                    invariant
                        pool == Some(id),
                        i <= self.realities@.len(),
                        forall|j: int|
                            0 <= j < i ==> !reality_with_id(id)(#[trigger] self.realities@[j]),
                    decreases self.realities@.len() - i,
                {
                    if self.realities[i].reality.id == id {
                        proof {
                            lemma_first_index(self.realities@, reality_with_id(id), i as int);
                        }
                        return Some(Reality { id, max_claims: self.realities[i].reality.max_claims });
                    }
                    i += 1;
                }
                proof {
                    lemma_first_index(self.realities@, reality_with_id(id), i as int);
                }
                Some(Reality { id, max_claims: NO_REALITY_CLAIMS })
            },
            None => None,
        }
    }

    /// Computes [`StoreView::slot_pool`].
    pub fn pool_of_slot(&self, slot: i64) -> (pool: Option<Option<i64>>)
        ensures
            pool == self@.slot_pool(slot),
    {
        match self.find_tracked_slot(slot) {
            Some(i) => {
                if self.tracked_slots[i].free {
                    None
                } else {
                    match self.find_tracked_world(self.tracked_slots[i].world) {
                        Some(k) => Some(self.tracked_worlds[k].reality),
                        None => None,
                    }
                }
            },
            None => None,
        }
    }

    /// Computes [`StoreView::current_claims`].
    pub fn count_current_claims(&self, player: i64, pool: Option<i64>) -> (held: usize)
        ensures
            held == self@.current_claims(player, pool),
    {
        let mut held: usize = 0;
        let mut i: usize = 0;
        proof {
            lemma_filter_empty(self@.counting(player, pool));
            assert(self.claims@.take(0) =~= Seq::<Claim>::empty());
        }
        while i < self.claims.len()
            invariant
                i <= self.claims@.len(),
                held <= i,
                held == self.claims@.take(i as int).filter(self@.counting(player, pool)).len(),
            decreases self.claims@.len() - i,
        {
            proof {
                lemma_filter_push(
                    self.claims@.take(i as int),
                    self.claims@[i as int],
                    self@.counting(player, pool),
                );
                assert(self.claims@.take(i as int).push(self.claims@[i as int])
                    =~= self.claims@.take(i + 1));
            }
            if self.claims[i].player == player {
                let p = self.pool_of_slot(self.claims[i].slot);
                let same = match p {
                    Some(Some(a)) => match pool {
                        Some(b) => a == b,
                        None => false,
                    },
                    Some(None) => pool.is_none(),
                    None => false,
                };
                if same {
                    held += 1;
                }
            }
            i += 1;
        }
        proof {
            assert(self.claims@.take(i as int) =~= self.claims@);
        }
        held
    }

    /// Computes [`StoreView::current_realities`], each reality once.
    pub fn list_current_realities(&self, player: i64) -> (joined: Vec<i64>)
        ensures
            joined@.no_duplicates(),
            joined@.to_set() == self@.current_realities(player),
            joined@.len() == self@.current_realities(player).len(),
            self@.current_realities(player).finite(),
    {
        let mut joined: Vec<i64> = Vec::new();
        let mut i: usize = 0;
        while i < self.claims.len()
            invariant
                i <= self.claims@.len(),
                joined@.no_duplicates(),
                forall|r: i64| #[trigger]
                    joined@.contains(r) <==> exists|j: int|
                        0 <= j < i && self@.counts(#[trigger] self.claims@[j], player, Some(r)),
            decreases self.claims@.len() - i,
        {
            let ghost before = joined@;
            if self.claims[i].player == player {
                match self.pool_of_slot(self.claims[i].slot) {
                    Some(Some(r)) => {
                        if !contains_id(&joined, r) {
                            joined.push(r);
                        }
                    },
                    _ => {},
                }
            }
            proof {
                assert forall|r: i64| #[trigger]
                    joined@.contains(r) <==> exists|j: int|
                        0 <= j < i + 1 && self@.counts(
                            #[trigger] self.claims@[j],
                            player,
                            Some(r),
                        ) by {
                    let here = self@.counts(self.claims@[i as int], player, Some(r));
                    if joined@.contains(r) {
                        if before.contains(r) {
                            let j = choose|j: int|
                                0 <= j < i && self@.counts(
                                    #[trigger] self.claims@[j],
                                    player,
                                    Some(r),
                                );
                            assert(0 <= j < i + 1);
                        } else {
                            let at = choose|at: int| 0 <= at < joined@.len() && joined@[at] == r;
                            assert(at == before.len());
                            assert(here);
                        }
                    }
                    if exists|j: int|
                        0 <= j < i + 1 && self@.counts(
                            #[trigger] self.claims@[j],
                            player,
                            Some(r),
                        ) {
                        let j = choose|j: int|
                            0 <= j < i + 1 && self@.counts(
                                #[trigger] self.claims@[j],
                                player,
                                Some(r),
                            );
                        if j < i {
                            assert(before.contains(r));
                            let at = choose|at: int| 0 <= at < before.len() && before[at] == r;
                            assert(joined@[at] == r);
                        } else {
                            assert(here);
                            if before.contains(r) {
                                let at = choose|at: int| 0 <= at < before.len() && before[at] == r;
                                assert(joined@[at] == r);
                            } else {
                                assert(joined@[before.len() as int] == r);
                            }
                        }
                    }
                }
            }
            i += 1;
        }
        proof {
            assert(joined@.to_set() =~= self@.current_realities(player));
            joined@.unique_seq_to_set();
            vstd::seq_lib::seq_to_set_is_finite(joined@);
        }
        joined
    }

    /// Decides whether `player` may take one more claim in a world of
    /// `reality`.
    pub fn can_claim_in_reality(&self, player: i64, reality: Option<Reality>) -> (decision: Result<
        (),
        Denial,
    >)
        ensures
            decision == self@.admits(player, reality),
    {
        let max_claims = match reality {
            Some(r) => {
                let joined = self.list_current_realities(player);
                if !contains_id(&joined, r.id) && joined.len() >= MAX_REALITIES {
                    return Err(Denial::TooManyRealities);
                }
                r.max_claims
            },
            None => NO_REALITY_CLAIMS,
        };
        let pool = match reality {
            Some(r) => Some(r.id),
            None => None,
        };
        let held = self.count_current_claims(player, pool);
        if max_claims <= 0 || held as u64 >= max_claims as u64 {
            return Err(Denial::NoAvailableClaim);
        }
        Ok(())
    }
}

} // verus!
