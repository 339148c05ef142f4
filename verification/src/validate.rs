//! Checking tables that come from outside.

use vstd::prelude::*;

use crate::store::{PreclaimStatus, Store};

verus! {

/// Whether no number stands twice in `keys`.
pub open spec fn distinct(keys: Seq<i64>) -> bool {
    forall|i: int, j: int| 0 <= i < keys.len() && 0 <= j < keys.len() && i != j ==> keys[i] != keys[j]
}

/// Computes [`distinct`].
pub fn all_distinct(keys: &Vec<i64>) -> (ok: bool)
    ensures
        ok == distinct(keys@),
{
    let mut i: usize = 0;
    while i < keys.len()
        invariant
            i <= keys@.len(),
            forall|a: int, b: int|
                0 <= a < i && 0 <= b < keys@.len() && a != b ==> keys@[a] != keys@[b],
        decreases keys@.len() - i,
    {
        let mut j: usize = 0;
        while j < keys.len()
            invariant
                i < keys@.len(),
                j <= keys@.len(),
                forall|b: int| 0 <= b < j && b != i ==> keys@[i as int] != keys@[b],
            decreases keys@.len() - j,
        {
            if j != i && keys[i] == keys[j] {
                return false;
            }
            j += 1;
        }
        i += 1;
    }
    true
}

impl Store {
    fn claims_are_unique(&self) -> (ok: bool)
        ensures
            ok == self@.claims_unique(),
    {
        let mut keys: Vec<i64> = Vec::new();
        let mut i: usize = 0;
        while i < self.claims.len()
            invariant
                i <= self.claims@.len(),
                keys@.len() == i,
                forall|j: int| 0 <= j < i ==> keys@[j] == self.claims@[j].slot,
            decreases self.claims@.len() - i,
        {
            keys.push(self.claims[i].slot);
            i += 1;
        }
        let ok = all_distinct(&keys);
        proof {
            if self@.claims_unique() {
                assert forall|a: int, b: int|
                    0 <= a < keys@.len() && 0 <= b < keys@.len() && a != b implies keys@[a]
                    != keys@[b] by {
                    assert(self@.claims[a].slot != self@.claims[b].slot);
                }
            }
            if distinct(keys@) {
                assert forall|a: int, b: int|
                    0 <= a < self@.claims.len() && 0 <= b < self@.claims.len() && a
                        != b implies self@.claims[a].slot != self@.claims[b].slot by {
                    assert(keys@[a] != keys@[b]);
                }
            }
        }
        ok
    }

    fn pending_are_unique(&self) -> (ok: bool)
        ensures
            ok == self@.pending_unique(),
    {
        let mut i: usize = 0;
        while i < self.preclaims.len()
            invariant
                i <= self.preclaims@.len(),
                forall|a: int, b: int|
                    0 <= a < i && 0 <= b < self.preclaims@.len() && a != b
                        && self.preclaims@[a].status == PreclaimStatus::Pending
                        && self.preclaims@[b].status == PreclaimStatus::Pending
                        ==> self.preclaims@[a].player != self.preclaims@[b].player,
            decreases self.preclaims@.len() - i,
        {
            if self.preclaims[i].status == PreclaimStatus::Pending {
                let mut j: usize = 0;
                while j < self.preclaims.len()
                    invariant
                        i < self.preclaims@.len(),
                        j <= self.preclaims@.len(),
                        self.preclaims@[i as int].status == PreclaimStatus::Pending,
                        forall|b: int|
                            0 <= b < j && b != i && self.preclaims@[b].status
                                == PreclaimStatus::Pending ==> self.preclaims@[i as int].player
                                != self.preclaims@[b].player,
                    decreases self.preclaims@.len() - j,
                {
                    if j != i && self.preclaims[j].status == PreclaimStatus::Pending
                        && self.preclaims[j].player == self.preclaims[i].player {
                        proof {
                            assert(self@.preclaims[i as int].player == self@.preclaims[j as int].player);
                        }
                        return false;
                    }
                    j += 1;
                }
            }
            i += 1;
        }
        true
    }

    fn won_are_resolved(&self) -> (ok: bool)
        ensures
            ok == self@.won_only_resolved(),
    {
        let mut i: usize = 0;
        while i < self.preclaims.len()
            invariant
                i <= self.preclaims@.len(),
                forall|a: int, b: int, c: int|
                    0 <= a < i && 0 <= b < self.slots@.len() && 0 <= c < self.worlds@.len()
                        && self.preclaims@[a].status == PreclaimStatus::Won && self.slots@[b].id
                        == self.preclaims@[a].slot && self.worlds@[c].id == self.slots@[b].world
                        ==> self.worlds@[c].resolved_preclaims,
            decreases self.preclaims@.len() - i,
        {
            if self.preclaims[i].status == PreclaimStatus::Won {
                let mut j: usize = 0;
                while j < self.slots.len()
                    invariant
                        i < self.preclaims@.len(),
                        j <= self.slots@.len(),
                        self.preclaims@[i as int].status == PreclaimStatus::Won,
                        forall|b: int, c: int|
                            0 <= b < j && 0 <= c < self.worlds@.len() && self.slots@[b].id
                                == self.preclaims@[i as int].slot && self.worlds@[c].id
                                == self.slots@[b].world ==> self.worlds@[c].resolved_preclaims,
                    decreases self.slots@.len() - j,
                {
                    if self.slots[j].id == self.preclaims[i].slot {
                        let mut k: usize = 0;
                        while k < self.worlds.len()
                            invariant
                                i < self.preclaims@.len(),
                                j < self.slots@.len(),
                                k <= self.worlds@.len(),
                                self.preclaims@[i as int].status == PreclaimStatus::Won,
                                self.slots@[j as int].id == self.preclaims@[i as int].slot,
                                forall|c: int|
                                    0 <= c < k && self.worlds@[c].id == self.slots@[j as int].world
                                        ==> self.worlds@[c].resolved_preclaims,
                            decreases self.worlds@.len() - k,
                        {
                            if self.worlds[k].id == self.slots[j].world
                                && !self.worlds[k].resolved_preclaims {
                                proof {
                                    assert(self@.preclaims[i as int].status == PreclaimStatus::Won
                                        && self@.slots[j as int].id == self@.preclaims[i as int].slot
                                        && self@.worlds[k as int].id == self@.slots[j as int].world);
                                }
                                return false;
                            }
                            k += 1;
                        }
                    }
                    j += 1;
                }
            }
            i += 1;
        }
        true
    }

    fn tracked_ids_are_unique(&self) -> (ok: bool)
        ensures
            ok == self@.tracked_ids_unique(),
    {
        let mut worlds: Vec<i64> = Vec::new();
        let mut i: usize = 0;
        while i < self.tracked_worlds.len()
            invariant
                i <= self.tracked_worlds@.len(),
                worlds@.len() == i,
                forall|j: int| 0 <= j < i ==> worlds@[j] == self.tracked_worlds@[j].id,
            decreases self.tracked_worlds@.len() - i,
        {
            worlds.push(self.tracked_worlds[i].id);
            i += 1;
        }
        let mut slots: Vec<i64> = Vec::new();
        let mut n: usize = 0;
        while n < self.tracked_slots.len()
            invariant
                n <= self.tracked_slots@.len(),
                slots@.len() == n,
                forall|j: int| 0 <= j < n ==> slots@[j] == self.tracked_slots@[j].id,
            decreases self.tracked_slots@.len() - n,
        {
            slots.push(self.tracked_slots[n].id);
            n += 1;
        }
        let ok = all_distinct(&worlds) && all_distinct(&slots);
        proof {
            if self@.tracked_ids_unique() {
                assert forall|a: int, b: int|
                    0 <= a < worlds@.len() && 0 <= b < worlds@.len() && a != b implies worlds@[a]
                    != worlds@[b] by {
                    assert(self@.tracked_worlds[a].id != self@.tracked_worlds[b].id);
                }
                assert forall|a: int, b: int|
                    0 <= a < slots@.len() && 0 <= b < slots@.len() && a != b implies slots@[a]
                    != slots@[b] by {
                    assert(self@.tracked_slots[a].id != self@.tracked_slots[b].id);
                }
            }
            if distinct(worlds@) && distinct(slots@) {
                assert forall|a: int, b: int|
                    0 <= a < self@.tracked_worlds.len() && 0 <= b < self@.tracked_worlds.len() && a
                        != b implies self@.tracked_worlds[a].id != self@.tracked_worlds[b].id by {
                    assert(worlds@[a] != worlds@[b]);
                }
                assert forall|a: int, b: int|
                    0 <= a < self@.tracked_slots.len() && 0 <= b < self@.tracked_slots.len() && a
                        != b implies self@.tracked_slots[a].id != self@.tracked_slots[b].id by {
                    assert(slots@[a] != slots@[b]);
                }
            }
        }
        ok
    }

    fn world_names_are_unique(&self) -> (ok: bool)
        ensures
            ok == forall|a: int, b: int|
                0 <= a < self.worlds@.len() && 0 <= b < self.worlds@.len() && a != b
                    ==> self.worlds@[a].name@ != self.worlds@[b].name@,
    {
        let mut i: usize = 0;
        while i < self.worlds.len()
            invariant
                i <= self.worlds@.len(),
                forall|a: int, b: int|
                    0 <= a < i && 0 <= b < self.worlds@.len() && a != b ==> self.worlds@[a].name@
                        != self.worlds@[b].name@,
            decreases self.worlds@.len() - i,
        {
            let mut j: usize = 0;
            while j < self.worlds.len()
                invariant
                    i < self.worlds@.len(),
                    j <= self.worlds@.len(),
                    forall|b: int|
                        0 <= b < j && b != i ==> self.worlds@[i as int].name@
                            != self.worlds@[b].name@,
                decreases self.worlds@.len() - j,
            {
                if j != i && self.worlds[i].name == self.worlds[j].name {
                    return false;
                }
                j += 1;
            }
            i += 1;
        }
        true
    }

    fn worlds_are_unique(&self) -> (ok: bool)
        ensures
            ok == self@.worlds_unique(),
    {
        let mut worlds: Vec<i64> = Vec::new();
        let mut i: usize = 0;
        while i < self.worlds.len()
            invariant
                i <= self.worlds@.len(),
                worlds@.len() == i,
                forall|j: int| 0 <= j < i ==> worlds@[j] == self.worlds@[j].id,
            decreases self.worlds@.len() - i,
        {
            worlds.push(self.worlds[i].id);
            i += 1;
        }
        let mut slots: Vec<i64> = Vec::new();
        let mut n: usize = 0;
        while n < self.slots.len()
            invariant
                n <= self.slots@.len(),
                slots@.len() == n,
                forall|j: int| 0 <= j < n ==> slots@[j] == self.slots@[j].id,
            decreases self.slots@.len() - n,
        {
            slots.push(self.slots[n].id);
            n += 1;
        }
        let ok = all_distinct(&worlds) && self.world_names_are_unique() && all_distinct(&slots);
        proof {
            if self@.worlds_unique() {
                assert forall|a: int, b: int|
                    0 <= a < worlds@.len() && 0 <= b < worlds@.len() && a != b implies worlds@[a]
                    != worlds@[b] by {
                    assert(self@.worlds[a].id != self@.worlds[b].id);
                }
                assert forall|a: int, b: int|
                    0 <= a < slots@.len() && 0 <= b < slots@.len() && a != b implies slots@[a]
                    != slots@[b] by {
                    assert(self@.slots[a].id != self@.slots[b].id);
                }
            }
            if ok {
                assert forall|a: int, b: int|
                    0 <= a < self@.worlds.len() && 0 <= b < self@.worlds.len() && a
                        != b implies self@.worlds[a].id != self@.worlds[b].id
                    && self@.worlds[a].name@ != self@.worlds[b].name@ by {
                    assert(worlds@[a] != worlds@[b]);
                }
                assert forall|a: int, b: int|
                    0 <= a < self@.slots.len() && 0 <= b < self@.slots.len() && a
                        != b implies self@.slots[a].id != self@.slots[b].id by {
                    assert(slots@[a] != slots@[b]);
                }
            }
        }
        ok
    }

    fn ids_are_issued(&self) -> (ok: bool)
        ensures
            ok == self@.ids_issued(),
    {
        if self.next_id < 0 {
            return false;
        }
        let mut i: usize = 0;
        while i < self.players.len()
            invariant
                i <= self.players@.len(),
                forall|j: int| 0 <= j < i ==> (#[trigger] self.players@[j]).id < self.next_id,
            decreases self.players@.len() - i,
        {
            if self.players[i].id >= self.next_id {
                proof {
                    assert(self@.players[i as int] == self.players@[i as int]);
                }
                return false;
            }
            i += 1;
        }
        i = 0;
        while i < self.realities.len()
            invariant
                i <= self.realities@.len(),
                forall|j: int|
                    0 <= j < i ==> (#[trigger] self.realities@[j]).reality.id < self.next_id,
            decreases self.realities@.len() - i,
        {
            if self.realities[i].reality.id >= self.next_id {
                proof {
                    assert(self@.realities[i as int] == self.realities@[i as int]);
                }
                return false;
            }
            i += 1;
        }
        i = 0;
        while i < self.worlds.len()
            invariant
                i <= self.worlds@.len(),
                forall|j: int| 0 <= j < i ==> (#[trigger] self.worlds@[j]).id < self.next_id,
            decreases self.worlds@.len() - i,
        {
            if self.worlds[i].id >= self.next_id {
                proof {
                    assert(self@.worlds[i as int] == self.worlds@[i as int]);
                }
                return false;
            }
            i += 1;
        }
        i = 0;
        while i < self.slots.len()
            invariant
                i <= self.slots@.len(),
                forall|j: int|
                    0 <= j < i ==> (#[trigger] self.slots@[j]).id < self.next_id
                        && self.slots@[j].world < self.next_id,
            decreases self.slots@.len() - i,
        {
            if self.slots[i].id >= self.next_id || self.slots[i].world >= self.next_id {
                proof {
                    assert(self@.slots[i as int] == self.slots@[i as int]);
                }
                return false;
            }
            i += 1;
        }
        i = 0;
        while i < self.preclaims.len()
            invariant
                i <= self.preclaims@.len(),
                forall|j: int| 0 <= j < i ==> (#[trigger] self.preclaims@[j]).slot < self.next_id,
            decreases self.preclaims@.len() - i,
        {
            if self.preclaims[i].slot >= self.next_id {
                proof {
                    assert(self@.preclaims[i as int] == self.preclaims@[i as int]);
                }
                return false;
            }
            i += 1;
        }
        i = 0;
        while i < self.tracked_worlds.len()
            invariant
                i <= self.tracked_worlds@.len(),
                forall|j: int|
                    0 <= j < i ==> (#[trigger] self.tracked_worlds@[j]).id < self.next_id && (
                    self.tracked_worlds@[j].reality matches Some(r) ==> r < self.next_id),
            decreases self.tracked_worlds@.len() - i,
        {
            if self.tracked_worlds[i].id >= self.next_id {
                proof {
                    assert(self@.tracked_worlds[i as int] == self.tracked_worlds@[i as int]);
                }
                return false;
            }
            match self.tracked_worlds[i].reality {
                Some(r) => {
                    if r >= self.next_id {
                        proof {
                            assert(self@.tracked_worlds[i as int] == self.tracked_worlds@[i as int]);
                        }
                        return false;
                    }
                },
                None => {},
            }
            i += 1;
        }
        i = 0;
        while i < self.tracked_slots.len()
            invariant
                i <= self.tracked_slots@.len(),
                forall|j: int|
                    0 <= j < i ==> (#[trigger] self.tracked_slots@[j]).id < self.next_id
                        && self.tracked_slots@[j].world < self.next_id,
            decreases self.tracked_slots@.len() - i,
        {
            if self.tracked_slots[i].id >= self.next_id || self.tracked_slots[i].world
                >= self.next_id {
                proof {
                    assert(self@.tracked_slots[i as int] == self.tracked_slots@[i as int]);
                }
                return false;
            }
            i += 1;
        }
        i = 0;
        while i < self.claims.len()
            invariant
                i <= self.claims@.len(),
                forall|j: int| 0 <= j < i ==> (#[trigger] self.claims@[j]).slot < self.next_id,
            decreases self.claims@.len() - i,
        {
            if self.claims[i].slot >= self.next_id {
                proof {
                    assert(self@.claims[i as int] == self.claims@[i as int]);
                }
                return false;
            }
            i += 1;
        }
        true
    }

    fn points_are_valid(&self) -> (ok: bool)
        ensures
            ok == self@.points_valid(),
    {
        let mut i: usize = 0;
        while i < self.realities.len()
            invariant
                i <= self.realities@.len(),
                forall|j: int|
                    0 <= j < i ==> (#[trigger] self.realities@[j]).reality.max_claims > 0,
            decreases self.realities@.len() - i,
        {
            if self.realities[i].reality.max_claims <= 0 {
                proof {
                    assert(self@.realities[i as int] == self.realities@[i as int]);
                }
                return false;
            }
            i += 1;
        }
        i = 0;
        while i < self.players.len()
            invariant
                i <= self.players@.len(),
                forall|j: int| 0 <= j < i ==> (#[trigger] self.players@[j]).points >= 0,
            decreases self.players@.len() - i,
        {
            if self.players[i].points < 0 {
                proof {
                    assert(self@.players[i as int] == self.players@[i as int]);
                }
                return false;
            }
            i += 1;
        }
        i = 0;
        while i < self.tracked_slots.len()
            invariant
                i <= self.tracked_slots@.len(),
                forall|j: int| 0 <= j < i ==> (#[trigger] self.tracked_slots@[j]).points >= 0,
            decreases self.tracked_slots@.len() - i,
        {
            if self.tracked_slots[i].points < 0 {
                proof {
                    assert(self@.tracked_slots[i as int] == self.tracked_slots@[i as int]);
                }
                return false;
            }
            i += 1;
        }
        true
    }

    /// Whether the tables are consistent: what every operation asks of
    /// tables that were not made by the operations themselves.
    pub fn is_wf(&self) -> (ok: bool)
        ensures
            ok == self.wf(),
    {
        self.claims_are_unique() && self.pending_are_unique() && self.won_are_resolved()
            && self.tracked_ids_are_unique() && self.worlds_are_unique() && self.ids_are_issued()
            && self.points_are_valid()
    }
}

} // verus!
