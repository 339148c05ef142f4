//! The preclaim lottery: one winner per contended slot of a world.

use rand::seq::SliceRandom;
use vstd::prelude::*;

use crate::admission::Denial;
use crate::seqs::{lemma_filter_empty, lemma_filter_members, lemma_filter_push};
use crate::store::{first_index, lemma_first_index, lemma_first_index_found};
use crate::store::{Preclaim, PreclaimStatus, Reality, SlotRow, Store, StoreView, WorldRow};

verus! {

/// Why the preclaims of a world were not resolved.
#[derive(Debug, PartialEq, Eq, Clone, Copy, Structural)]
pub enum ResolveError {
    WorldNotFound,
}

/// Worlds with the name `name`.
pub open spec fn pre_world_named(name: Seq<char>) -> spec_fn(WorldRow) -> bool {
    |w: WorldRow| w.name@ == name
}

/// Worlds with the id `id`.
pub open spec fn pre_world_with_id(id: i64) -> spec_fn(WorldRow) -> bool {
    |w: WorldRow| w.id == id
}

/// Slots with the id `id`.
pub open spec fn pre_slot_with_id(id: i64) -> spec_fn(SlotRow) -> bool {
    |s: SlotRow| s.id == id
}

/// The slot and the player of a preclaim.
pub open spec fn pair_of(p: Preclaim) -> (i64, i64) {
    (p.slot, p.player)
}

/// Whether `contenders` holds a preclaim of the slot and the player that
/// `pair` names.
pub open spec fn contends(contenders: Seq<Preclaim>, pair: (i64, i64)) -> bool {
    exists|c: int| 0 <= c < contenders.len() && pair_of(#[trigger] contenders[c]) == pair
}

/// Whether `winners` holds a winner of the slot `slot`.
pub open spec fn has_winner_of(winners: Seq<(i64, i64)>, slot: i64) -> bool {
    exists|w: int| 0 <= w < winners.len() && (#[trigger] winners[w]).0 == slot
}

/// Whether `winners` is a fair outcome for `contenders`: every winner is a
/// contender for the slot it won, no slot has two winners, and every slot
/// that anybody contends for has a winner.
pub open spec fn is_draw(contenders: Seq<Preclaim>, winners: Seq<(i64, i64)>) -> bool {
    &&& forall|w: int| 0 <= w < winners.len() ==> contends(contenders, #[trigger] winners[w])
    &&& forall|a: int, b: int|
        0 <= a < winners.len() && 0 <= b < winners.len() && a != b ==> (#[trigger] winners[a]).0 != (
        #[trigger] winners[b]).0
    &&& forall|c: int|
        0 <= c < contenders.len() ==> has_winner_of(winners, (#[trigger] contenders[c]).slot)
}

impl StoreView {
    /// The world with the name `name` that is not tracked yet.
    pub open spec fn pre_world(self, name: Seq<char>) -> Option<WorldRow> {
        let k = first_index(self.worlds, pre_world_named(name));
        if k < self.worlds.len() {
            Some(self.worlds[k])
        } else {
            None
        }
    }

    /// Whether a world with the id `world` and the name `name` is waiting
    /// to be tracked.
    pub open spec fn in_pre_world_named(self, world: i64, name: Seq<char>) -> bool {
        exists|k: int|
            0 <= k < self.worlds.len() && (#[trigger] self.worlds[k]).id == world
                && self.worlds[k].name@ == name
    }

    /// Whether the slot `slot` belongs to the world `name`.
    pub open spec fn slot_under(self, slot: i64, name: Seq<char>) -> bool {
        exists|j: int|
            0 <= j < self.slots.len() && (#[trigger] self.slots[j]).id == slot
                && self.in_pre_world_named(self.slots[j].world, name)
    }

    /// The reality that governs preclaims on the slot `slot`.
    pub open spec fn pre_slot_reality(self, slot: i64) -> Option<Reality> {
        let j = first_index(self.slots, pre_slot_with_id(slot));
        if j < self.slots.len() {
            let k = first_index(self.worlds, pre_world_with_id(self.slots[j].world));
            if k < self.worlds.len() {
                self.pool_reality(self.worlds[k].reality)
            } else {
                None
            }
        } else {
            None
        }
    }

    /// The decision on a preclaim of `player` on the slot `slot`.
    pub open spec fn preclaim_admits(self, player: i64, slot: i64) -> Result<(), Denial> {
        self.admits(player, self.pre_slot_reality(slot))
    }

    /// The reality that governs claims on the tracked slot `slot`.
    pub open spec fn tracked_slot_reality(self, slot: i64) -> Option<Reality> {
        match self.tracked_slot(slot) {
            Some(s) => self.slot_reality(s),
            None => None,
        }
    }

    /// Pending preclaims on slots of the world `name` whose players still
    /// pass the admission policy.
    pub open spec fn contender(self, name: Seq<char>) -> spec_fn(Preclaim) -> bool {
        |p: Preclaim|
            p.status == PreclaimStatus::Pending && self.slot_under(p.slot, name)
                && self.preclaim_admits(p.player, p.slot) is Ok
    }

    /// The preclaims that take part in the lottery of the world `name`.
    pub open spec fn contenders(self, name: Seq<char>) -> Seq<Preclaim> {
        self.preclaims.filter(self.contender(name))
    }

    /// Preclaims that won a slot of the world `name`.
    pub open spec fn won_under(self, name: Seq<char>) -> spec_fn(Preclaim) -> bool {
        |p: Preclaim| p.status == PreclaimStatus::Won && self.slot_under(p.slot, name)
    }

    /// The winners on record for the world `name`, as pairs of slot and
    /// player.
    pub open spec fn won_rows(self, name: Seq<char>) -> Seq<(i64, i64)> {
        self.preclaims.filter(self.won_under(name)).map_values(|p: Preclaim| pair_of(p))
    }

    /// A preclaim after the lottery of the world `name` was settled with
    /// `winners`: a pending preclaim of that world has won or is
    /// superseded, any other is as before.
    pub open spec fn settled_row(self, name: Seq<char>, winners: Seq<(i64, i64)>, p: Preclaim) -> Preclaim {
        if p.status == PreclaimStatus::Pending && self.slot_under(p.slot, name) {
            Preclaim {
                status: if winners.contains(pair_of(p)) {
                    PreclaimStatus::Won
                } else {
                    PreclaimStatus::Superseded
                },
                ..p
            }
        } else {
            p
        }
    }

    /// The worlds once the preclaims of the world `name` are marked as
    /// resolved.
    pub open spec fn worlds_resolved(self, name: Seq<char>) -> Seq<WorldRow> {
        let k = first_index(self.worlds, pre_world_named(name));
        if k < self.worlds.len() {
            self.worlds.update(k, WorldRow { resolved_preclaims: true, ..self.worlds[k] })
        } else {
            self.worlds
        }
    }

    /// The tables after the lottery of the world `name` was settled with
    /// `winners`.
    pub open spec fn after_resolution(self, name: Seq<char>, winners: Seq<(i64, i64)>) -> StoreView {
        StoreView {
            preclaims: self.preclaims.map_values(
                |p: Preclaim| self.settled_row(name, winners, p),
            ),
            worlds: self.worlds_resolved(name),
            ..self
        }
    }

    /// Which world a slot belongs to does not depend on whether preclaims
    /// are resolved.
    pub proof fn lemma_resolution_keeps_worlds(self, name: Seq<char>, winners: Seq<(i64, i64)>)
        ensures
            self.after_resolution(name, winners).worlds.len() == self.worlds.len(),
            forall|k: int|
                0 <= k < self.worlds.len() ==> {
                    let w = #[trigger] self.after_resolution(name, winners).worlds[k];
                    &&& w.id == self.worlds[k].id
                    &&& w.name == self.worlds[k].name
                    &&& w.reality == self.worlds[k].reality
                    &&& w.preclaim_end == self.worlds[k].preclaim_end
                    &&& (self.worlds[k].resolved_preclaims ==> w.resolved_preclaims)
                    &&& (self.worlds[k].name@ == name && self.wf() ==> w.resolved_preclaims)
                },
            forall|slot: i64, other: Seq<char>|
                self.after_resolution(name, winners).slot_under(slot, other) == self.slot_under(
                    slot,
                    other,
                ),
    {
        let post = self.after_resolution(name, winners);
        lemma_first_index_found(self.worlds, pre_world_named(name));
        assert forall|slot: i64, other: Seq<char>| post.slot_under(slot, other) == self.slot_under(
            slot,
            other,
        ) by {
            if self.slot_under(slot, other) {
                let j = choose|j: int|
                    0 <= j < self.slots.len() && (#[trigger] self.slots[j]).id == slot
                        && self.in_pre_world_named(self.slots[j].world, other);
                let k = choose|k: int|
                    0 <= k < self.worlds.len() && (#[trigger] self.worlds[k]).id
                        == self.slots[j].world && self.worlds[k].name@ == other;
                assert(post.worlds[k].id == self.slots[j].world && post.worlds[k].name@ == other);
                assert(post.in_pre_world_named(post.slots[j].world, other));
            }
            if post.slot_under(slot, other) {
                let j = choose|j: int|
                    0 <= j < post.slots.len() && (#[trigger] post.slots[j]).id == slot
                        && post.in_pre_world_named(post.slots[j].world, other);
                let k = choose|k: int|
                    0 <= k < post.worlds.len() && (#[trigger] post.worlds[k]).id
                        == post.slots[j].world && post.worlds[k].name@ == other;
                assert(self.worlds[k].id == self.slots[j].world && self.worlds[k].name@ == other);
                assert(self.in_pre_world_named(self.slots[j].world, other));
            }
        }
    }

    /// Settling a lottery leaves the tables consistent, whoever won.
    pub proof fn lemma_resolution_keeps_wf(self, name: Seq<char>, winners: Seq<(i64, i64)>)
        requires
            self.wf(),
        ensures
            self.after_resolution(name, winners).wf(),
    {
        let post = self.after_resolution(name, winners);
        self.lemma_resolution_keeps_worlds(name, winners);
        assert(post.won_only_resolved()) by {
            assert forall|i: int, j: int, k: int|
                0 <= i < post.preclaims.len() && 0 <= j < post.slots.len() && 0 <= k
                    < post.worlds.len() && post.preclaims[i].status == PreclaimStatus::Won
                    && post.slots[j].id == post.preclaims[i].slot && post.worlds[k].id
                    == post.slots[j].world implies post.worlds[k].resolved_preclaims by {
                let p = self.preclaims[i];
                if p.status == PreclaimStatus::Won {
                    assert(self.worlds[k].resolved_preclaims);
                } else {
                    assert(self.slot_under(p.slot, name));
                    let j2 = choose|j2: int|
                        0 <= j2 < self.slots.len() && (#[trigger] self.slots[j2]).id == p.slot
                            && self.in_pre_world_named(self.slots[j2].world, name);
                    let k2 = choose|k2: int|
                        0 <= k2 < self.worlds.len() && (#[trigger] self.worlds[k2]).id
                            == self.slots[j2].world && self.worlds[k2].name@ == name;
                    assert(j2 == j);
                    assert(k2 == k);
                }
            }
        }
        assert(post.worlds_unique()) by {
            assert forall|i: int, j: int|
                0 <= i < post.worlds.len() && 0 <= j < post.worlds.len() && i != j implies post.worlds[i].id
                != post.worlds[j].id && post.worlds[i].name@ != post.worlds[j].name@ by {
                assert(self.worlds[i].id != self.worlds[j].id);
            }
        }
        assert(post.ids_issued()) by {
            assert forall|i: int| 0 <= i < post.worlds.len() implies (#[trigger] post.worlds[i]).id
                < post.next_id by {
                assert(self.worlds[i].id < self.next_id);
            }
            assert forall|i: int| 0 <= i < post.preclaims.len() implies (
            #[trigger] post.preclaims[i]).slot < post.next_id by {
                assert(self.preclaims[i].slot < self.next_id);
            }
        }
    }

    /// Once the lottery of a world has been settled, the world counts as
    /// resolved and the winners on record are the winners it was settled
    /// with: resolving it again reads them back and draws nothing.
    pub proof fn lemma_resolution_idempotent(self, name: Seq<char>, winners: Seq<(i64, i64)>)
        requires
            self.wf(),
            self.pre_world(name) matches Some(w) && !w.resolved_preclaims,
            is_draw(self.contenders(name), winners),
        ensures
            self.after_resolution(name, winners).pre_world(name) matches Some(w)
                && w.resolved_preclaims,
            self.after_resolution(name, winners).won_rows(name).to_set() == winners.to_set(),
    {
        let post = self.after_resolution(name, winners);
        self.lemma_resolution_keeps_worlds(name, winners);
        lemma_first_index_found(self.worlds, pre_world_named(name));
        let k0 = first_index(self.worlds, pre_world_named(name));
        assert(post.pre_world(name) matches Some(w) && w.resolved_preclaims) by {
            assert forall|j: int| 0 <= j < k0 implies !pre_world_named(name)(#[trigger] post.worlds[j]) by {
                assert(!pre_world_named(name)(self.worlds[j]));
            }
            lemma_first_index(post.worlds, pre_world_named(name), k0);
        }
        let won = post.preclaims.filter(post.won_under(name));
        lemma_filter_members(post.preclaims, post.won_under(name));
        lemma_filter_members(self.preclaims, self.contender(name));
        let rows = post.won_rows(name);
        assert forall|x: (i64, i64)| rows.contains(x) implies winners.contains(x) by {
            let n = choose|n: int| 0 <= n < rows.len() && rows[n] == x;
            assert(post.preclaims.contains(won[n]));
            let i = choose|i: int| 0 <= i < post.preclaims.len() && post.preclaims[i] == won[n];
            let p = self.preclaims[i];
            assert(post.preclaims[i] == self.settled_row(name, winners, p));
            if p.status == PreclaimStatus::Won {
                assert(self.slot_under(p.slot, name));
                let j = choose|j: int|
                    0 <= j < self.slots.len() && (#[trigger] self.slots[j]).id == p.slot
                        && self.in_pre_world_named(self.slots[j].world, name);
                let k = choose|k: int|
                    0 <= k < self.worlds.len() && (#[trigger] self.worlds[k]).id
                        == self.slots[j].world && self.worlds[k].name@ == name;
                assert(self.worlds[k].resolved_preclaims);
                assert(k == k0);
            }
        }
        assert forall|x: (i64, i64)| winners.contains(x) implies rows.contains(x) by {
            let w = choose|w: int| 0 <= w < winners.len() && winners[w] == x;
            assert(contends(self.contenders(name), winners[w]));
            let c = choose|c: int|
                0 <= c < self.contenders(name).len() && pair_of(
                    #[trigger] self.contenders(name)[c],
                ) == winners[w];
            let p = self.contenders(name)[c];
            assert(self.preclaims.contains(p));
            let i = choose|i: int| 0 <= i < self.preclaims.len() && self.preclaims[i] == p;
            assert(post.preclaims[i] == self.settled_row(name, winners, p));
            assert(post.won_under(name)(post.preclaims[i]));
            assert(won.contains(post.preclaims[i]));
            let n = choose|n: int| 0 <= n < won.len() && won[n] == post.preclaims[i];
            assert(rows[n] == x);
        }
        assert(rows.to_set() =~= winners.to_set());
    }
}

/// Calls `choose` of rand's `SliceRandom` on `players`, with the generator
/// of the current thread. Nothing is proved of it; it is taken to return
/// nothing for an empty list and otherwise one of the listed players.
#[verifier::external_body]
fn choose_player(players: &Vec<i64>) -> (picked: Option<i64>)
    ensures
        players@.len() == 0 ==> picked is None,
        players@.len() > 0 ==> picked is Some && players@.contains(picked->0),
{
    players.choose(&mut rand::thread_rng()).copied()
}

/// The players that contend for the slot `slot`.
fn players_for(contenders: &Vec<Preclaim>, slot: i64) -> (players: Vec<i64>)
    ensures
        forall|n: int|
            0 <= n < players@.len() ==> contends(contenders@, (slot, #[trigger] players@[n])),
        forall|c: int|
            0 <= c < contenders@.len() && (#[trigger] contenders@[c]).slot == slot
                ==> players@.len() > 0,
{
    let mut players: Vec<i64> = Vec::new();
    let mut i: usize = 0;
    while i < contenders.len()
        invariant
            i <= contenders@.len(),
            forall|n: int|
                0 <= n < players@.len() ==> contends(contenders@, (slot, #[trigger] players@[n])),
            forall|c: int|
                0 <= c < i && (#[trigger] contenders@[c]).slot == slot ==> players@.len() > 0,
        decreases contenders@.len() - i,
    {
        if contenders[i].slot == slot {
            players.push(contenders[i].player);
            proof {
                assert(pair_of(contenders@[i as int]) == (slot, contenders@[i as int].player));
            }
        }
        i += 1;
    }
    players
}

/// Whether `winners` holds a pair for the slot `slot`.
fn has_winner(winners: &Vec<(i64, i64)>, slot: i64) -> (found: bool)
    ensures
        found == has_winner_of(winners@, slot),
{
    let mut w: usize = 0;
    while w < winners.len()
        invariant
            w <= winners@.len(),
            forall|v: int| 0 <= v < w ==> (#[trigger] winners@[v]).0 != slot,
        decreases winners@.len() - w,
    {
        if winners[w].0 == slot {
            return true;
        }
        w += 1;
    }
    false
}

/// Whether `winners` holds the pair of `slot` and `player`.
fn has_pair(winners: &Vec<(i64, i64)>, slot: i64, player: i64) -> (found: bool)
    ensures
        found == winners@.contains((slot, player)),
{
    let mut w: usize = 0;
    while w < winners.len()
        invariant
            w <= winners@.len(),
            forall|v: int| 0 <= v < w ==> winners@[v] != (slot, player),
        decreases winners@.len() - w,
    {
        if winners[w].0 == slot && winners[w].1 == player {
            return true;
        }
        w += 1;
    }
    false
}

/// Draws one winner for every slot that somebody contends for, each
/// contender of a slot with the same chance.
///
/// Who wins is left to chance; whatever is drawn is a fair outcome in the
/// sense of [`is_draw`].
pub fn draw(contenders: &Vec<Preclaim>) -> (winners: Vec<(i64, i64)>)
    ensures
        is_draw(contenders@, winners@),
{
    let mut winners: Vec<(i64, i64)> = Vec::new();
    let mut i: usize = 0;
    while i < contenders.len()
        invariant
            i <= contenders@.len(),
            forall|w: int|
                0 <= w < winners@.len() ==> contends(contenders@, #[trigger] winners@[w]),
            forall|a: int, b: int|
                0 <= a < winners@.len() && 0 <= b < winners@.len() && a != b ==> (
                #[trigger] winners@[a]).0 != (#[trigger] winners@[b]).0,
            forall|c: int| 0 <= c < i ==> has_winner_of(winners@, (#[trigger] contenders@[c]).slot),
        decreases contenders@.len() - i,
    {
        let slot = contenders[i].slot;
        let ghost before = winners@;
        if !has_winner(&winners, slot) {
            let players = players_for(contenders, slot);
            match choose_player(&players) {
                Some(player) => {
                    winners.push((slot, player));
                    proof {
                        let n = choose|n: int| 0 <= n < players@.len() && players@[n] == player;
                        assert(contends(contenders@, (slot, players@[n])));
                    }
                },
                None => {
                    proof {
                        assert(contenders@[i as int].slot == slot);
                        assert(false);
                    }
                },
            }
        }
        proof {
            assert forall|w: int| 0 <= w < winners@.len() implies contends(
                contenders@,
                #[trigger] winners@[w],
            ) by {
                if w < before.len() {
                    assert(winners@[w] == before[w]);
                }
            }
            assert forall|a: int, b: int|
                0 <= a < winners@.len() && 0 <= b < winners@.len() && a != b implies (
            #[trigger] winners@[a]).0 != (#[trigger] winners@[b]).0 by {
                if a < before.len() && b < before.len() {
                    assert(winners@[a] == before[a] && winners@[b] == before[b]);
                } else if a < before.len() {
                    assert(winners@[a] == before[a]);
                } else {
                    assert(winners@[b] == before[b]);
                }
            }
            assert forall|c: int| 0 <= c < i + 1 implies has_winner_of(
                winners@,
                (#[trigger] contenders@[c]).slot,
            ) by {
                if c < i {
                    let w = choose|w: int|
                        0 <= w < before.len() && (#[trigger] before[w]).0 == contenders@[c].slot;
                    assert(winners@[w] == before[w]);
                } else if before.len() < winners@.len() {
                    assert(winners@[before.len() as int].0 == slot);
                } else {
                    let w = choose|w: int|
                        0 <= w < before.len() && (#[trigger] before[w]).0 == slot;
                    assert(winners@[w] == before[w]);
                }
            }
        }
        i += 1;
    }
    winners
}

impl Store {
    /// Finds the world with the name `name` that is not tracked yet.
    pub fn find_pre_world(&self, name: &String) -> (found: Option<usize>)
        ensures
            match found {
                Some(k) => k < self.worlds@.len() && k == first_index(
                    self@.worlds,
                    pre_world_named(name@),
                ) && self@.pre_world(name@) == Some(self.worlds@[k as int]),
                None => self@.pre_world(name@) is None && first_index(
                    self@.worlds,
                    pre_world_named(name@),
                ) == self.worlds@.len(),
            },
    {
        let mut k: usize = 0;
        while k < self.worlds.len()
            invariant
                k <= self.worlds@.len(),
                forall|j: int| 0 <= j < k ==> !pre_world_named(name@)(#[trigger] self.worlds@[j]),
            decreases self.worlds@.len() - k,
        {
            if self.worlds[k].name == *name {
                proof {
                    lemma_first_index(self.worlds@, pre_world_named(name@), k as int);
                }
                return Some(k);
            }
            k += 1;
        }
        proof {
            lemma_first_index(self.worlds@, pre_world_named(name@), k as int);
        }
        None
    }

    /// Whether a world with the id `world` and the name `name` is waiting
    /// to be tracked.
    pub fn has_pre_world_named(&self, world: i64, name: &String) -> (found: bool)
        ensures
            found == self@.in_pre_world_named(world, name@),
    {
        let mut k: usize = 0;
        while k < self.worlds.len()
            invariant
                k <= self.worlds@.len(),
                forall|j: int|
                    0 <= j < k ==> !((#[trigger] self.worlds@[j]).id == world
                        && self.worlds@[j].name@ == name@),
            decreases self.worlds@.len() - k,
        {
            if self.worlds[k].id == world && self.worlds[k].name == *name {
                return true;
            }
            k += 1;
        }
        false
    }

    /// Whether the slot `slot` belongs to the world `name`.
    pub fn is_slot_under(&self, slot: i64, name: &String) -> (found: bool)
        ensures
            found == self@.slot_under(slot, name@),
    {
        let mut j: usize = 0;
        while j < self.slots.len()
            invariant
                j <= self.slots@.len(),
                forall|i: int|
                    0 <= i < j ==> !((#[trigger] self.slots@[i]).id == slot
                        && self@.in_pre_world_named(self.slots@[i].world, name@)),
            decreases self.slots@.len() - j,
        {
            if self.slots[j].id == slot && self.has_pre_world_named(self.slots[j].world, name) {
                proof {
                    assert(self@.slots[j as int].id == slot && self@.in_pre_world_named(
                        self@.slots[j as int].world,
                        name@,
                    ));
                }
                return true;
            }
            j += 1;
        }
        false
    }

    /// Computes [`StoreView::pre_slot_reality`].
    pub fn reality_of_pre_slot(&self, slot: i64) -> (reality: Option<Reality>)
        ensures
            reality == self@.pre_slot_reality(slot),
    {
        let mut j: usize = 0;
        while j < self.slots.len()
            invariant
                j <= self.slots@.len(),
                forall|i: int| 0 <= i < j ==> !pre_slot_with_id(slot)(#[trigger] self.slots@[i]),
            decreases self.slots@.len() - j,
        {
            if self.slots[j].id == slot {
                proof {
                    lemma_first_index(self.slots@, pre_slot_with_id(slot), j as int);
                }
                let world = self.slots[j].world;
                let mut k: usize = 0;
                while k < self.worlds.len()
                    invariant
                        k <= self.worlds@.len(),
                        j < self.slots@.len(),
                        first_index(self.slots@, pre_slot_with_id(slot)) == j,
                        world == self.slots@[j as int].world,
                        forall|i: int|
                            0 <= i < k ==> !pre_world_with_id(world)(#[trigger] self.worlds@[i]),
                    decreases self.worlds@.len() - k,
                {
                    if self.worlds[k].id == world {
                        proof {
                            lemma_first_index(self.worlds@, pre_world_with_id(world), k as int);
                        }
                        return self.reality_of_pool(self.worlds[k].reality);
                    }
                    k += 1;
                }
                proof {
                    lemma_first_index(self.worlds@, pre_world_with_id(world), k as int);
                }
                return None;
            }
            j += 1;
        }
        proof {
            lemma_first_index(self.slots@, pre_slot_with_id(slot), j as int);
        }
        None
    }

    /// Decides whether `player` may preclaim the slot `slot`.
    pub fn can_preclaim_slot(&self, player: i64, slot: i64) -> (decision: Result<(), Denial>)
        ensures
            decision == self@.preclaim_admits(player, slot),
    {
        let reality = self.reality_of_pre_slot(slot);
        self.can_claim_in_reality(player, reality)
    }

    /// Decides whether `player` may claim the tracked slot `slot`.
    pub fn can_claim_slot(&self, player: i64, slot: i64) -> (decision: Result<(), Denial>)
        ensures
            decision == self@.admits(player, self@.tracked_slot_reality(slot)),
    {
        let reality = match self.find_tracked_slot(slot) {
            Some(i) => match self.find_tracked_world(self.tracked_slots[i].world) {
                Some(k) => self.reality_of_pool(self.tracked_worlds[k].reality),
                None => None,
            },
            None => None,
        };
        self.can_claim_in_reality(player, reality)
    }

    /// The preclaims that take part in the lottery of the world `name`.
    pub fn contenders_of(&self, name: &String) -> (contenders: Vec<Preclaim>)
        ensures
            contenders@ == self@.contenders(name@),
    {
        let mut contenders: Vec<Preclaim> = Vec::new();
        let mut i: usize = 0;
        proof {
            lemma_filter_empty(self@.contender(name@));
            assert(self.preclaims@.take(0) =~= Seq::<Preclaim>::empty());
        }
        while i < self.preclaims.len()
            invariant
                i <= self.preclaims@.len(),
                contenders@ == self.preclaims@.take(i as int).filter(self@.contender(name@)),
            decreases self.preclaims@.len() - i,
        {
            let p = self.preclaims[i];
            proof {
                lemma_filter_push(self.preclaims@.take(i as int), p, self@.contender(name@));
                assert(self.preclaims@.take(i as int).push(p) =~= self.preclaims@.take(i + 1));
            }
            if p.status == PreclaimStatus::Pending && self.is_slot_under(p.slot, name)
                && self.can_preclaim_slot(p.player, p.slot).is_ok() {
                contenders.push(p);
            }
            i += 1;
        }
        proof {
            assert(self.preclaims@.take(i as int) =~= self.preclaims@);
        }
        contenders
    }

    /// The winners on record for the world `name`.
    pub fn winners_of(&self, name: &String) -> (winners: Vec<(i64, i64)>)
        ensures
            winners@ == self@.won_rows(name@),
    {
        let mut winners: Vec<(i64, i64)> = Vec::new();
        let mut i: usize = 0;
        let ghost f = |p: Preclaim| pair_of(p);
        proof {
            lemma_filter_empty(self@.won_under(name@));
            assert(self.preclaims@.take(0) =~= Seq::<Preclaim>::empty());
            assert(winners@ =~= self.preclaims@.take(0).filter(self@.won_under(name@)).map_values(
                f,
            ));
        }
        while i < self.preclaims.len()
            invariant
                i <= self.preclaims@.len(),
                f == |p: Preclaim| pair_of(p),
                winners@ == self.preclaims@.take(i as int).filter(
                    self@.won_under(name@),
                ).map_values(f),
            decreases self.preclaims@.len() - i,
        {
            let p = self.preclaims[i];
            let ghost kept = self.preclaims@.take(i as int).filter(self@.won_under(name@));
            proof {
                lemma_filter_push(self.preclaims@.take(i as int), p, self@.won_under(name@));
                assert(self.preclaims@.take(i as int).push(p) =~= self.preclaims@.take(i + 1));
            }
            if p.status == PreclaimStatus::Won && self.is_slot_under(p.slot, name) {
                winners.push((p.slot, p.player));
                proof {
                    assert(winners@ =~= kept.push(p).map_values(f));
                }
            }
            i += 1;
        }
        proof {
            assert(self.preclaims@.take(i as int) =~= self.preclaims@);
        }
        winners
    }

    /// Records the outcome of the lottery of the world `name`: every
    /// pending preclaim on a slot of that world has won if `winners` names
    /// it and is superseded if not, and the world counts as resolved.
    pub fn settle(&mut self, name: &str, winners: &Vec<(i64, i64)>)
        requires
            old(self).wf(),
        ensures
            final(self)@ == old(self)@.after_resolution(name@, winners@),
            final(self).wf(),
            old(self)@.within_claim_caps() ==> final(self)@.within_claim_caps(),
            old(self)@.within_reality_cap() ==> final(self)@.within_reality_cap(),
    {
        let world_name = name.to_owned();
        proof {
            self@.lemma_resolution_keeps_wf(name@, winners@);
            self@.lemma_same_claims_keep_caps(self@.after_resolution(name@, winners@));
        }
        let mut settled: Vec<Preclaim> = Vec::new();
        let mut i: usize = 0;
        let ghost pre = self@;
        let ghost f = |p: Preclaim| pre.settled_row(name@, winners@, p);
        proof {
            assert(settled@ =~= self.preclaims@.take(0).map_values(f));
        }
        while i < self.preclaims.len()
            invariant
                i <= self.preclaims@.len(),
                pre == self@,
                world_name@ == name@,
                f == |p: Preclaim| pre.settled_row(name@, winners@, p),
                settled@ == self.preclaims@.take(i as int).map_values(f),
            decreases self.preclaims@.len() - i,
        {
            let p = self.preclaims[i];
            let row = if p.status == PreclaimStatus::Pending && self.is_slot_under(
                p.slot,
                &world_name,
            ) {
                Preclaim {
                    slot: p.slot,
                    player: p.player,
                    status: if has_pair(winners, p.slot, p.player) {
                        PreclaimStatus::Won
                    } else {
                        PreclaimStatus::Superseded
                    },
                }
            } else {
                p
            };
            settled.push(row);
            proof {
                assert(row == f(p));
                assert(settled@ =~= self.preclaims@.take(i + 1).map_values(f));
            }
            i += 1;
        }
        proof {
            assert(self.preclaims@.take(i as int) =~= self.preclaims@);
        }
        match self.find_pre_world(&world_name) {
            Some(k) => {
                let row = WorldRow {
                    id: self.worlds[k].id,
                    name: self.worlds[k].name.clone(),
                    reality: self.worlds[k].reality,
                    preclaim_end: self.worlds[k].preclaim_end,
                    resolved_preclaims: true,
                };
                self.worlds.set(k, row);
            },
            None => {},
        }
        self.preclaims = settled;
    }
}

/// Resolves the preclaims of the world `name` into one winner per contended
/// slot and returns the winners as pairs of slot and player.
///
/// A world that is resolved already is not drawn again: its winners on
/// record are returned and nothing changes. Otherwise every pending
/// preclaim of the world is taken out of the pool, the winners are drawn
/// among those whose players still pass the admission policy, and the
/// world is marked as resolved.
pub fn resolve_preclaims(store: &mut Store, name: &str) -> (result: Result<
    Vec<(i64, i64)>,
    ResolveError,
>)
    requires
        old(store).wf(),
    ensures
        final(store).wf(),
        old(store)@.within_claim_caps() ==> final(store)@.within_claim_caps(),
        old(store)@.within_reality_cap() ==> final(store)@.within_reality_cap(),
        match old(store)@.pre_world(name@) {
            None => result == Err::<Vec<(i64, i64)>, ResolveError>(ResolveError::WorldNotFound)
                && final(store)@ == old(store)@,
            Some(w) => result matches Ok(winners) && if w.resolved_preclaims {
                winners@ == old(store)@.won_rows(name@) && final(store)@ == old(store)@
            } else {
                is_draw(old(store)@.contenders(name@), winners@) && final(store)@ == old(store)@.after_resolution(name@, winners@)
            },
        },
{
    let world_name = name.to_owned();
    match store.find_pre_world(&world_name) {
        None => Err(ResolveError::WorldNotFound),
        Some(k) => {
            if store.worlds[k].resolved_preclaims {
                Ok(store.winners_of(&world_name))
            } else {
                let contenders = store.contenders_of(&world_name);
                let winners = draw(&contenders);
                store.settle(name, &winners);
                Ok(winners)
            }
        },
    }
}

} // verus!
