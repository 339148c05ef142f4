//! Tracking a world: its slots come from the tracker, and the preclaims
//! that won become claims.

use vstd::prelude::*;

use crate::admission::{slot_with_id, world_with_id};
use crate::points::{calc_points, game_str, games_text, slot_points};
use crate::resolver::{is_draw, resolve_preclaims};
use crate::status::Status;
use crate::store::{first_index, lemma_first_index, lemma_first_index_found};
use crate::store::{Claim, Preclaim, PreclaimStatus, Store, StoreView, TrackedSlot, TrackedWorld};

verus! {

/// What the tracker shows of one slot.
#[derive(Debug, Clone)]
pub struct SlotData {
    pub status: Status,
    pub games: Vec<String>,
    pub checks: u32,
    pub checks_total: u32,
    pub last_activity: Option<u32>,
}

/// Why a world was not tracked.
#[derive(Debug, PartialEq, Eq, Clone, Copy, Structural)]
pub enum TrackError {
    /// No reality has the name given.
    RealityNotFound,
    /// The store has not enough ids left to hand out.
    CreateWorld,
}

/// The options of a world that is about to be tracked.
#[derive(Debug, Clone, Copy)]
pub struct TrackOptions {
    /// Whether the slots of the world are worth points.
    pub awards_points: bool,
    /// Whether claims on the slots of the world take up claim capacity.
    pub use_claims: bool,
}

/// Whether `row` is the tracked slot that a new world with the id `world`
/// gets under the id `id` for the entry `entry` of the tracker.
pub open spec fn is_tracked_row(
    row: TrackedSlot,
    id: int,
    world: int,
    entry: (String, SlotData),
    options: TrackOptions,
) -> bool {
    &&& row.id == id
    &&& row.world == world
    &&& row.name@ == entry.0@
    &&& row.games@ == games_text(entry.1.games@, entry.1.games@.len() as int)
    &&& row.status == entry.1.status
    &&& row.checks == entry.1.checks
    &&& row.checks_total == entry.1.checks_total
    &&& row.last_activity == entry.1.last_activity
    &&& row.points == if options.awards_points {
        slot_points(entry.1.games@)
    } else {
        0
    }
    &&& row.free == !options.use_claims
}

/// Whether the points of every entry of `data` can be worked out.
pub open spec fn games_countable(data: Seq<(String, SlotData)>) -> bool {
    forall|i: int| 0 <= i < data.len() ==> 1 + 2 * (#[trigger] data[i]).1.games@.len() <= i64::MAX
}

impl StoreView {
    /// Whether a slot with the id `id` that waits to be tracked has the
    /// name `slot` and belongs to the world `world`.
    pub open spec fn pre_slot_answers(self, id: i64, world: Seq<char>, slot: Seq<char>) -> bool {
        exists|j: int|
            0 <= j < self.slots.len() && (#[trigger] self.slots[j]).id == id && self.slots[j].name@
                == slot && self.in_pre_world_named(self.slots[j].world, world)
    }

    /// Preclaims that won the slot `slot` of the world `world`.
    pub open spec fn won_slot(self, world: Seq<char>, slot: Seq<char>) -> spec_fn(Preclaim) -> bool {
        |p: Preclaim| p.status == PreclaimStatus::Won && self.pre_slot_answers(p.slot, world, slot)
    }

    /// Claims on the slot `slot` of the tracked world `world`.
    pub open spec fn claim_of_slot(self, world: Seq<char>, slot: Seq<char>) -> spec_fn(Claim) -> bool {
        |c: Claim| self.slot_answers(c.slot, world, slot)
    }

    /// The player who takes over the slot `slot` when the world `world`
    /// starts to be tracked: whoever won the slot by preclaim, or else
    /// whoever holds the slot of that name in the world `import`.
    pub open spec fn heir(self, world: Seq<char>, import: Seq<char>, slot: Seq<char>) -> Option<i64> {
        let w = first_index(self.preclaims, self.won_slot(world, slot));
        if w < self.preclaims.len() {
            Some(self.preclaims[w].player)
        } else {
            let c = first_index(self.claims, self.claim_of_slot(import, slot));
            if c < self.claims.len() {
                Some(self.claims[c].player)
            } else {
                None
            }
        }
    }

    /// The claims that the first `n` entries of `data` start with when
    /// their slots get the ids from `base` on.
    pub open spec fn inherited(
        self,
        base: int,
        world: Seq<char>,
        import: Seq<char>,
        data: Seq<(String, SlotData)>,
        n: int,
    ) -> Seq<Claim>
        decreases n,
    {
        if n <= 0 {
            Seq::empty()
        } else {
            let before = self.inherited(base, world, import, data, n - 1);
            match self.heir(world, import, data[n - 1].0@) {
                Some(player) => before.push(
                    Claim { slot: (base + n - 1) as i64, player, public: None },
                ),
                None => before,
            }
        }
    }

    /// How many of the first `n` entries of `data` start without a claim.
    pub open spec fn unclaimed(
        self,
        world: Seq<char>,
        import: Seq<char>,
        data: Seq<(String, SlotData)>,
        n: int,
    ) -> nat
        decreases n,
    {
        if n <= 0 {
            0
        } else {
            self.unclaimed(world, import, data, n - 1) + if self.heir(world, import, data[n - 1].0@)
                is None {
                1nat
            } else {
                0nat
            }
        }
    }

    /// Why tracking a world in the reality `reality` with `slots` slots
    /// fails, if it does.
    pub open spec fn tracking_error(self, reality: Option<Seq<char>>, slots: nat) -> Option<
        TrackError,
    > {
        if reality matches Some(r) && self.reality_by_name(r) is None {
            Some(TrackError::RealityNotFound)
        } else if self.next_id + 1 + slots > i64::MAX {
            Some(TrackError::CreateWorld)
        } else {
            None
        }
    }

    /// Whether `post` holds these tables and the world `name`, tracked
    /// from `data`: the world and one slot per entry have fresh ids, and
    /// the slots that somebody takes over are claimed.
    pub open spec fn tracks_to(
        self,
        post: StoreView,
        name: Seq<char>,
        reality: Option<Seq<char>>,
        import: Seq<char>,
        options: TrackOptions,
        data: Seq<(String, SlotData)>,
    ) -> bool {
        let n = self.tracked_slots.len() as int;
        let world = post.tracked_worlds.last();
        &&& post == (StoreView {
            tracked_worlds: post.tracked_worlds,
            tracked_slots: post.tracked_slots,
            claims: post.claims,
            next_id: post.next_id,
            ..self
        })
        &&& post.next_id == self.next_id + 1 + data.len()
        &&& post.tracked_worlds.len() == self.tracked_worlds.len() + 1
        &&& post.tracked_worlds.drop_last() == self.tracked_worlds
        &&& world.id == self.next_id
        &&& world.name@ == name
        &&& world.reality == match reality {
            Some(r) => Some(self.reality_by_name(r)->0.id),
            None => None,
        }
        &&& !world.done
        &&& world.last_scrape == 0
        &&& post.tracked_slots.len() == n + data.len()
        &&& post.tracked_slots.take(n) == self.tracked_slots
        &&& forall|i: int|
            0 <= i < data.len() ==> is_tracked_row(
                #[trigger] post.tracked_slots[n + i],
                self.next_id + 1 + i,
                self.next_id,
                data[i],
                options,
            )
        &&& post.claims == self.claims + self.inherited(
            self.next_id + 1,
            name,
            import,
            data,
            data.len() as int,
        )
    }

    /// Whether `post` holds these tables after the preclaims of the world
    /// `name` were resolved, if they still had to be.
    pub open spec fn resolves_to(self, post: StoreView, name: Seq<char>) -> bool {
        match self.pre_world(name) {
            Some(w) => if w.resolved_preclaims {
                post == self
            } else {
                exists|winners: Seq<(i64, i64)>|
                    is_draw(self.contenders(name), winners) && post == self.after_resolution(
                        name,
                        winners,
                    )
            },
            None => post == self,
        }
    }

    /// Whether tracking the world `name` from `data` returns `result` and
    /// leaves the tables `post`: where the reality is known and the store
    /// has the ids, the preclaims of the world are resolved if they still
    /// have to be, and then the world is tracked; else nothing changes.
    pub open spec fn tracks_world(
        self,
        post: StoreView,
        name: Seq<char>,
        reality: Option<Seq<char>>,
        import: Seq<char>,
        options: TrackOptions,
        data: Seq<(String, SlotData)>,
        result: Result<usize, TrackError>,
    ) -> bool {
        match self.tracking_error(reality, data.len()) {
            Some(e) => result == Err::<usize, TrackError>(e) && post == self,
            None => exists|mid: StoreView|
                {
                    &&& self.resolves_to(mid, name)
                    &&& result == Ok::<usize, TrackError>(
                        mid.unclaimed(name, import, data, data.len() as int) as usize,
                    )
                    &&& mid.tracks_to(post, name, reality, import, options, data)
                },
        }
    }

    /// The claims that the entries of a new world start with lie on the
    /// slots of those entries, one per slot at most.
    pub proof fn lemma_inherited(
        self,
        base: int,
        world: Seq<char>,
        import: Seq<char>,
        data: Seq<(String, SlotData)>,
        n: int,
    )
        requires
            0 <= n <= data.len(),
            0 <= base,
            base + data.len() <= i64::MAX,
        ensures
            self.inherited(base, world, import, data, n).len() <= n,
            forall|i: int|
                0 <= i < self.inherited(base, world, import, data, n).len() ==> base <= (
                #[trigger] self.inherited(base, world, import, data, n)[i]).slot < base + n,
            forall|i: int, j: int|
                0 <= i < j < self.inherited(base, world, import, data, n).len()
                    ==> self.inherited(base, world, import, data, n)[i].slot < self.inherited(
                    base,
                    world,
                    import,
                    data,
                    n,
                )[j].slot,
        decreases n,
    {
        if n > 0 {
            self.lemma_inherited(base, world, import, data, n - 1);
        }
    }

    /// Tracking a world changes nothing in the pools that the slots from
    /// before draw on.
    pub proof fn lemma_tracking_keeps_pools(
        self,
        post: StoreView,
        name: Seq<char>,
        reality: Option<Seq<char>>,
        import: Seq<char>,
        options: TrackOptions,
        data: Seq<(String, SlotData)>,
    )
        requires
            self.wf(),
            self.tracks_to(post, name, reality, import, options, data),
        ensures
            forall|slot: i64|
                slot < self.next_id ==> #[trigger] post.slot_pool(slot) == self.slot_pool(slot),
    {
        let n = self.tracked_slots.len() as int;
        let m = self.tracked_worlds.len() as int;
        assert forall|slot: i64| slot < self.next_id implies #[trigger] post.slot_pool(slot)
            == self.slot_pool(slot) by {
            let p = slot_with_id(slot);
            lemma_first_index_found(self.tracked_slots, p);
            let i = first_index(self.tracked_slots, p);
            assert forall|j: int| 0 <= j < i implies !p(#[trigger] post.tracked_slots[j]) by {
                assert(post.tracked_slots[j] == post.tracked_slots.take(n)[j]);
            }
            if i < n {
                assert(post.tracked_slots[i] == post.tracked_slots.take(n)[i]);
                lemma_first_index(post.tracked_slots, p, i);
                let s = self.tracked_slots[i];
                let q = world_with_id(s.world);
                lemma_first_index_found(self.tracked_worlds, q);
                let k = first_index(self.tracked_worlds, q);
                assert forall|j: int| 0 <= j < k implies !q(#[trigger] post.tracked_worlds[j]) by {
                    assert(post.tracked_worlds[j] == post.tracked_worlds.drop_last()[j]);
                }
                if k < m {
                    assert(post.tracked_worlds[k] == post.tracked_worlds.drop_last()[k]);
                    lemma_first_index(post.tracked_worlds, q, k);
                } else {
                    assert(s.world < self.next_id);
                    assert(!q(post.tracked_worlds[m]));
                    lemma_first_index(post.tracked_worlds, q, m + 1);
                }
            } else {
                assert forall|j: int| 0 <= j < post.tracked_slots.len() implies !p(
                    #[trigger] post.tracked_slots[j],
                ) by {
                    if j < n {
                        assert(post.tracked_slots[j] == post.tracked_slots.take(n)[j]);
                    } else {
                        assert(is_tracked_row(
                            post.tracked_slots[n + (j - n)],
                            self.next_id + 1 + (j - n),
                            self.next_id,
                            data[j - n],
                            options,
                        ));
                    }
                }
                lemma_first_index(post.tracked_slots, p, post.tracked_slots.len() as int);
            }
        }
    }

    /// Tracking a world leaves every player within the allowances where
    /// its slots are free claims or nobody takes a slot over.
    pub proof fn lemma_tracking_keeps_caps(
        self,
        post: StoreView,
        name: Seq<char>,
        reality: Option<Seq<char>>,
        import: Seq<char>,
        options: TrackOptions,
        data: Seq<(String, SlotData)>,
    )
        requires
            self.wf(),
            self.tracking_error(reality, data.len()) is None,
            self.tracks_to(post, name, reality, import, options, data),
            !options.use_claims || self.inherited(
                self.next_id + 1,
                name,
                import,
                data,
                data.len() as int,
            ).len() == 0,
        ensures
            self.within_claim_caps() ==> post.within_claim_caps(),
            self.within_reality_cap() ==> post.within_reality_cap(),
    {
        let n = self.tracked_slots.len() as int;
        let m = self.claims.len() as int;
        let fresh = self.inherited(self.next_id + 1, name, import, data, data.len() as int);
        self.lemma_inherited(self.next_id + 1, name, import, data, data.len() as int);
        self.lemma_tracking_keeps_pools(post, name, reality, import, options, data);
        self.lemma_tracking_keeps_wf(post, name, reality, import, options, data);
        assert(post.claims.take(m) =~= self.claims);
        // No claim that comes with the world takes up capacity.
        assert forall|i: int| m <= i < post.claims.len() implies post.slot_pool(
            (#[trigger] post.claims[i]).slot,
        ) is None by {
            let c = fresh[i - m];
            assert(post.claims[i] == c);
            let j = c.slot - (self.next_id + 1);
            assert(is_tracked_row(
                post.tracked_slots[n + j],
                self.next_id + 1 + j,
                self.next_id,
                data[j],
                options,
            ));
            post.lemma_slot_lookup(n + j);
        }
        assert forall|i: int| 0 <= i < m implies post.slot_pool((#[trigger] post.claims[i]).slot)
            == self.slot_pool(self.claims[i].slot) by {
            assert(post.claims[i] == self.claims[i]);
            assert(self.claims[i].slot < self.next_id);
        }
        assert forall|player: i64, pool: Option<i64>|
            post.current_claims(player, pool) == self.current_claims(player, pool) by {
            let q = post.counting(player, pool);
            assert(post.claims =~= self.claims + fresh);
            Seq::filter_distributes_over_add(self.claims, fresh, q);
            assert forall|i: int| 0 <= i < self.claims.len() implies self.counting(player, pool)(
                #[trigger] self.claims[i],
            ) == q(self.claims[i]) by {
                assert(post.claims[i] == self.claims[i]);
            }
            crate::seqs::lemma_filter_agree(self.claims, self.counting(player, pool), q);
            assert forall|i: int| 0 <= i < fresh.len() implies !q(#[trigger] fresh[i]) by {
                assert(post.claims[m + i] == fresh[i]);
            }
            crate::seqs::lemma_filter_none(fresh, q);
        }
        assert forall|pool: Option<i64>| post.pool_cap(pool) == self.pool_cap(pool) by {}
        if self.within_claim_caps() {
            assert forall|player: i64, pool: Option<i64>| #[trigger]
                post.current_claims(player, pool) <= post.pool_cap(pool) by {
                assert(self.current_claims(player, pool) <= self.pool_cap(pool));
            }
        }
        if self.within_reality_cap() {
            assert forall|player: i64| #[trigger]
                post.current_realities(player).len() <= crate::admission::MAX_REALITIES by {
                assert forall|r: i64|
                    post.current_realities(player).contains(r) implies self.current_realities(
                    player,
                ).contains(r) by {
                    let i = choose|i: int|
                        0 <= i < post.claims.len() && post.counts(
                            #[trigger] post.claims[i],
                            player,
                            Some(r),
                        );
                    assert(i < m);
                    assert(post.claims[i] == self.claims[i]);
                    assert(self.counts(self.claims[i], player, Some(r)));
                }
                self.lemma_realities_finite(player);
                vstd::set_lib::lemma_len_subset(
                    post.current_realities(player),
                    self.current_realities(player),
                );
                assert(self.current_realities(player).len() <= crate::admission::MAX_REALITIES);
            }
        }
    }

    /// Tracking a world leaves the tables consistent.
    pub proof fn lemma_tracking_keeps_wf(
        self,
        post: StoreView,
        name: Seq<char>,
        reality: Option<Seq<char>>,
        import: Seq<char>,
        options: TrackOptions,
        data: Seq<(String, SlotData)>,
    )
        requires
            self.wf(),
            self.tracking_error(reality, data.len()) is None,
            self.tracks_to(post, name, reality, import, options, data),
        ensures
            post.wf(),
    {
        let n = self.tracked_slots.len() as int;
        let m = self.claims.len() as int;
        let fresh = self.inherited(self.next_id + 1, name, import, data, data.len() as int);
        self.lemma_inherited(self.next_id + 1, name, import, data, data.len() as int);
        assert(post.claims_unique()) by {
            assert forall|i: int, j: int|
                0 <= i < post.claims.len() && 0 <= j < post.claims.len() && i != j implies post.claims[i].slot
                != post.claims[j].slot by {
                if i < m {
                    assert(post.claims[i] == self.claims[i]);
                    assert(self.claims[i].slot < self.next_id);
                } else {
                    assert(post.claims[i] == fresh[i - m]);
                }
                if j < m {
                    assert(post.claims[j] == self.claims[j]);
                    assert(self.claims[j].slot < self.next_id);
                } else {
                    assert(post.claims[j] == fresh[j - m]);
                }
            }
        }
        assert(post.tracked_ids_unique()) by {
            assert forall|i: int, j: int|
                0 <= i < post.tracked_worlds.len() && 0 <= j < post.tracked_worlds.len() && i
                    != j implies post.tracked_worlds[i].id != post.tracked_worlds[j].id by {
                if i < self.tracked_worlds.len() {
                    assert(post.tracked_worlds[i] == post.tracked_worlds.drop_last()[i]);
                    assert(self.tracked_worlds[i].id < self.next_id);
                }
                if j < self.tracked_worlds.len() {
                    assert(post.tracked_worlds[j] == post.tracked_worlds.drop_last()[j]);
                    assert(self.tracked_worlds[j].id < self.next_id);
                }
            }
            assert forall|i: int, j: int|
                0 <= i < post.tracked_slots.len() && 0 <= j < post.tracked_slots.len() && i
                    != j implies post.tracked_slots[i].id != post.tracked_slots[j].id by {
                if i < n {
                    assert(post.tracked_slots[i] == post.tracked_slots.take(n)[i]);
                    assert(self.tracked_slots[i].id < self.next_id);
                } else {
                    assert(is_tracked_row(
                        post.tracked_slots[n + (i - n)],
                        self.next_id + 1 + (i - n),
                        self.next_id,
                        data[i - n],
                        options,
                    ));
                }
                if j < n {
                    assert(post.tracked_slots[j] == post.tracked_slots.take(n)[j]);
                    assert(self.tracked_slots[j].id < self.next_id);
                } else {
                    assert(is_tracked_row(
                        post.tracked_slots[n + (j - n)],
                        self.next_id + 1 + (j - n),
                        self.next_id,
                        data[j - n],
                        options,
                    ));
                }
            }
        }
        assert(post.ids_issued()) by {
            assert forall|i: int| 0 <= i < post.tracked_worlds.len() implies (
            #[trigger] post.tracked_worlds[i]).id < post.next_id && (
            post.tracked_worlds[i].reality matches Some(r) ==> r < post.next_id) by {
                if i < self.tracked_worlds.len() {
                    assert(post.tracked_worlds[i] == post.tracked_worlds.drop_last()[i]);
                    assert(self.tracked_worlds[i].id < self.next_id);
                } else if let Some(r) = reality {
                    crate::store::lemma_first_index_found(
                        self.realities,
                        crate::worlds::reality_named(r),
                    );
                    let at = first_index(self.realities, crate::worlds::reality_named(r));
                    assert(self.realities[at].reality.id < self.next_id);
                }
            }
            assert forall|i: int| 0 <= i < post.tracked_slots.len() implies (
            #[trigger] post.tracked_slots[i]).id < post.next_id && post.tracked_slots[i].world
                < post.next_id by {
                if i < n {
                    assert(post.tracked_slots[i] == post.tracked_slots.take(n)[i]);
                    assert(self.tracked_slots[i].id < self.next_id);
                } else {
                    assert(is_tracked_row(
                        post.tracked_slots[n + (i - n)],
                        self.next_id + 1 + (i - n),
                        self.next_id,
                        data[i - n],
                        options,
                    ));
                }
            }
            assert forall|i: int| 0 <= i < post.claims.len() implies (#[trigger] post.claims[i]).slot
                < post.next_id by {
                if i < m {
                    assert(post.claims[i] == self.claims[i]);
                    assert(self.claims[i].slot < self.next_id);
                } else {
                    assert(post.claims[i] == fresh[i - m]);
                }
            }
        }
        assert(post.points_valid()) by {
            assert forall|i: int| 0 <= i < post.tracked_slots.len() implies (
            #[trigger] post.tracked_slots[i]).points >= 0 by {
                if i < n {
                    assert(post.tracked_slots[i] == post.tracked_slots.take(n)[i]);
                    assert(self.tracked_slots[i].points >= 0);
                } else {
                    assert(is_tracked_row(
                        post.tracked_slots[n + (i - n)],
                        self.next_id + 1 + (i - n),
                        self.next_id,
                        data[i - n],
                        options,
                    ));
                    crate::points::lemma_games_points_bounds(
                        data[i - n].1.games@,
                        data[i - n].1.games@.len() as int,
                    );
                }
            }
        }
    }
}

impl Store {
    /// Whether a slot with the id `id` that waits to be tracked has the
    /// name `slot` and belongs to the world `world`.
    pub fn does_pre_slot_answer(&self, id: i64, world: &String, slot: &String) -> (answers: bool)
        ensures
            answers == self@.pre_slot_answers(id, world@, slot@),
    {
        let mut j: usize = 0;
        while j < self.slots.len()
            invariant
                j <= self.slots@.len(),
                forall|i: int|
                    0 <= i < j ==> !((#[trigger] self.slots@[i]).id == id && self.slots@[i].name@
                        == slot@ && self@.in_pre_world_named(self.slots@[i].world, world@)),
            decreases self.slots@.len() - j,
        {
            if self.slots[j].id == id && self.slots[j].name == *slot && self.has_pre_world_named(
                self.slots[j].world,
                world,
            ) {
                proof {
                    assert(self@.slots[j as int].id == id && self@.slots[j as int].name@ == slot@
                        && self@.in_pre_world_named(self@.slots[j as int].world, world@));
                }
                return true;
            }
            j += 1;
        }
        false
    }

    /// Computes [`StoreView::heir`].
    pub fn heir_of(&self, world: &String, import: &String, slot: &String) -> (heir: Option<i64>)
        ensures
            heir == self@.heir(world@, import@, slot@),
    {
        let mut w: usize = 0;
        while w < self.preclaims.len()
            invariant
                w <= self.preclaims@.len(),
                forall|i: int|
                    0 <= i < w ==> !self@.won_slot(world@, slot@)(#[trigger] self.preclaims@[i]),
            decreases self.preclaims@.len() - w,
        {
            if self.preclaims[w].status == PreclaimStatus::Won && self.does_pre_slot_answer(
                self.preclaims[w].slot,
                world,
                slot,
            ) {
                proof {
                    lemma_first_index(self.preclaims@, self@.won_slot(world@, slot@), w as int);
                }
                return Some(self.preclaims[w].player);
            }
            w += 1;
        }
        proof {
            lemma_first_index(self.preclaims@, self@.won_slot(world@, slot@), w as int);
        }
        let mut c: usize = 0;
        while c < self.claims.len()
            invariant
                c <= self.claims@.len(),
                first_index(self.preclaims@, self@.won_slot(world@, slot@))
                    == self.preclaims@.len(),
                forall|i: int|
                    0 <= i < c ==> !self@.claim_of_slot(import@, slot@)(#[trigger] self.claims@[i]),
            decreases self.claims@.len() - c,
        {
            if self.does_slot_answer(self.claims[c].slot, import, slot) {
                proof {
                    lemma_first_index(self.claims@, self@.claim_of_slot(import@, slot@), c as int);
                }
                return Some(self.claims[c].player);
            }
            c += 1;
        }
        proof {
            lemma_first_index(self.claims@, self@.claim_of_slot(import@, slot@), c as int);
        }
        None
    }

    /// Starts to track the world `name` with the slots that `data` lists,
    /// and returns how many of them nobody holds.
    ///
    /// Every slot goes to the player who won it by preclaim or, where
    /// nobody did, to the player who holds the slot of that name in the
    /// world `import`. This is the part of [`Store::track_world`] that
    /// leaves nothing to chance.
    pub fn begin_tracking(
        &mut self,
        tracker_id: &str,
        name: &str,
        reality: Option<&str>,
        import: &str,
        options: TrackOptions,
        data: &Vec<(String, SlotData)>,
    ) -> (result: Result<usize, TrackError>)
        requires
            old(self).wf(),
            games_countable(data@),
        ensures
            final(self).wf(),
            !options.use_claims ==> (old(self)@.within_claim_caps() ==> final(self)@.within_claim_caps()) && (old(self)@.within_reality_cap() ==> final(self)@.within_reality_cap()),
            match old(self)@.tracking_error(
                match reality {
                    Some(r) => Some(r@),
                    None => None,
                },
                data@.len(),
            ) {
                Some(e) => result == Err::<usize, TrackError>(e) && final(self)@ == old(self)@,
                None => {
                    &&& result == Ok::<usize, TrackError>(
                        old(self)@.unclaimed(name@, import@, data@, data@.len() as int) as usize,
                    )
                    &&& old(self)@.tracks_to(
                        final(self)@,
                        name@,
                        match reality {
                            Some(r) => Some(r@),
                            None => None,
                        },
                        import@,
                        options,
                        data@,
                    )
                    &&& final(self)@.tracked_worlds.last().tracker_id@ == tracker_id@
                },
            },
    {
        let world_name = name.to_owned();
        let import_name = import.to_owned();
        let ghost reality_view: Option<Seq<char>> = match reality {
            Some(r) => Some(r@),
            None => None,
        };
        let reality_id = match reality {
            Some(r) => {
                let reality_name = r.to_owned();
                match self.find_reality(&reality_name) {
                    Some(found) => Some(found.id),
                    None => {
                        return Err(TrackError::RealityNotFound);
                    },
                }
            },
            None => None,
        };
        if self.next_id as i128 + 1 + data.len() as i128 > i64::MAX as i128 {
            return Err(TrackError::CreateWorld);
        }
        let world_id = self.next_id;
        let base = world_id + 1;
        let world = TrackedWorld {
            id: world_id,
            name: world_name,
            tracker_id: tracker_id.to_owned(),
            reality: reality_id,
            done: false,
            last_scrape: 0,
        };
        let mut rows: Vec<TrackedSlot> = Vec::new();
        let mut claims: Vec<Claim> = Vec::new();
        let mut unclaimed: usize = 0;
        let mut i: usize = 0;
        let free = !options.use_claims;
        while i < data.len()
            invariant
                i <= data@.len(),
                games_countable(data@),
                0 <= world_id,
                base == world_id + 1,
                world_id + 1 + data@.len() <= i64::MAX,
                free == !options.use_claims,
                world.name@ == name@,
                import_name@ == import@,
                rows@.len() == i,
                forall|j: int|
                    0 <= j < i ==> is_tracked_row(
                        #[trigger] rows@[j],
                        base + j,
                        world_id as int,
                        data@[j],
                        options,
                    ),
                claims@ == self@.inherited(base as int, name@, import@, data@, i as int),
                unclaimed == self@.unclaimed(name@, import@, data@, i as int),
                unclaimed <= i,
            decreases data@.len() - i,
        {
            let id = (base as i128 + i as i128) as i64;
            let entry = &data[i];
            let points = if options.awards_points {
                calc_points(entry.1.games.as_slice())
            } else {
                0
            };
            let row = TrackedSlot {
                id,
                world: world_id,
                name: entry.0.clone(),
                games: game_str(entry.1.games.as_slice()),
                status: entry.1.status,
                checks: entry.1.checks,
                checks_total: entry.1.checks_total,
                last_activity: entry.1.last_activity,
                points,
                free,
            };
            rows.push(row);
            match self.heir_of(&world.name, &import_name, &entry.0) {
                Some(player) => {
                    claims.push(Claim { slot: id, player, public: None });
                },
                None => {
                    unclaimed += 1;
                },
            }
            i += 1;
        }
        let ghost pre = self@;
        self.tracked_worlds.push(world);
        self.tracked_slots.append(&mut rows);
        self.claims.append(&mut claims);
        self.next_id = (world_id as i128 + 1 + data.len() as i128) as i64;
        proof {
            let post = self@;
            let n = pre.tracked_slots.len() as int;
            assert(post.tracked_worlds.drop_last() =~= pre.tracked_worlds);
            assert(post.tracked_slots.take(n) =~= pre.tracked_slots);
            assert(pre.tracks_to(post, name@, reality_view, import@, options, data@));
            pre.lemma_tracking_keeps_wf(post, name@, reality_view, import@, options, data@);
            if !options.use_claims {
                pre.lemma_tracking_keeps_caps(post, name@, reality_view, import@, options, data@);
            }
        }
        Ok(unclaimed)
    }

    /// Tracks the world `name`: resolves its preclaims where that is still
    /// to be done, then creates the world with the slots that `data` lists
    /// and hands every slot to the player who takes it over. Returns how
    /// many slots nobody holds.
    pub fn track_world(
        &mut self,
        tracker_id: &str,
        name: &str,
        reality: Option<&str>,
        import: &str,
        options: TrackOptions,
        data: &Vec<(String, SlotData)>,
    ) -> (result: Result<usize, TrackError>)
        requires
            old(self).wf(),
            games_countable(data@),
        ensures
            final(self).wf(),
            !options.use_claims ==> (old(self)@.within_claim_caps() ==> final(self)@.within_claim_caps()) && (old(self)@.within_reality_cap() ==> final(self)@.within_reality_cap()),
            old(self)@.tracks_world(
                final(self)@,
                name@,
                match reality {
                    Some(r) => Some(r@),
                    None => None,
                },
                import@,
                options,
                data@,
                result,
            ),
    {
        match reality {
            Some(r) => {
                let reality_name = r.to_owned();
                if self.find_reality(&reality_name).is_none() {
                    return Err(TrackError::RealityNotFound);
                }
            },
            None => {},
        }
        if self.next_id as i128 + 1 + data.len() as i128 > i64::MAX as i128 {
            return Err(TrackError::CreateWorld);
        }
        let _ = resolve_preclaims(self, name);
        let ghost mid = self@;
        proof {
            assert(old(self)@.resolves_to(mid, name@));
            assert(mid.realities == old(self)@.realities);
            assert(mid.next_id == old(self)@.next_id);
        }
        self.begin_tracking(tracker_id, name, reality, import, options, data)
    }
}

} // verus!
