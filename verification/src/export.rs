//! What goes to the summary that is kept outside, and when.

use vstd::prelude::*;

use crate::claim::claim_on;
use crate::finish::player_with_id;
use crate::store::{first_index, lemma_first_index};
use crate::store::{Store, StoreView, TrackedSlot};

verus! {

/// How many seconds lie between two pushes at least.
pub const PUSH_INTERVAL: u64 = 60;

/// Keeps pushes of the summary apart.
#[derive(Debug, PartialEq, Eq, Clone, Copy, Structural)]
pub struct PushGuard {
    /// When the summary was last pushed, in seconds.
    pub latest_push: u64,
    /// Whether the summary is stale.
    pub pending: bool,
}

impl PushGuard {
    /// A guard of a summary that is up to date and was never pushed.
    pub fn new() -> (guard: PushGuard)
        ensures
            guard == (PushGuard { latest_push: 0, pending: false }),
    {
        PushGuard { latest_push: 0, pending: false }
    }

    /// Whether a push is due at the time `now`: the summary is stale and
    /// the last push lies a full interval back.
    pub open spec fn due(self, now: u64) -> bool {
        self.pending && now >= self.latest_push + PUSH_INTERVAL
    }

    /// Notes that the summary is stale.
    pub fn push_needed(&mut self)
        ensures
            *final(self) == (PushGuard { pending: true, ..*old(self) }),
    {
        self.pending = true;
    }

    /// Says whether to push at the time `now`, and notes the push where
    /// it is due.
    pub fn begin_push(&mut self, now: u64) -> (due: bool)
        ensures
            due == old(self).due(now),
            *final(self) == if due {
                PushGuard { latest_push: now, pending: false }
            } else {
                *old(self)
            },
    {
        if !self.pending {
            return false;
        }
        if now < self.latest_push || now - self.latest_push < PUSH_INTERVAL {
            return false;
        }
        self.latest_push = now;
        self.pending = false;
        true
    }
}

/// A line of the summary: a tracked slot, what has become of it, and who
/// holds it.
#[derive(Debug, Clone)]
pub struct SheetRow {
    pub world: String,
    pub slot: String,
    pub status: String,
    pub player: Option<String>,
}

impl StoreView {
    /// The name of the player who holds the slot `slot`, if the slot is
    /// claimed by a known player.
    pub open spec fn holder(self, slot: i64) -> Option<String> {
        let c = first_index(self.claims, claim_on(slot));
        if c < self.claims.len() {
            let i = first_index(self.players, player_with_id(self.claims[c].player));
            if i < self.players.len() {
                Some(self.players[i].name)
            } else {
                None
            }
        } else {
            None
        }
    }

    /// What the summary says has become of the slot `s`: its status if it
    /// is held, and that it is unclaimed if not.
    pub open spec fn summary_status(self, s: TrackedSlot) -> Seq<char> {
        if self.holder(s.id) is Some {
            s.status.label()
        } else if s.free {
            "Unclaimed [Free claim]"@
        } else {
            "Unclaimed"@
        }
    }

    /// Whether `row` is the line of the summary for the slot `s`.
    pub open spec fn is_sheet_row(self, s: TrackedSlot, row: SheetRow) -> bool {
        &&& self.tracked_world(s.world) matches Some(w) && row.world@ == w.name@
        &&& row.slot@ == s.name@
        &&& row.status@ == self.summary_status(s)
        &&& match (row.player, self.holder(s.id)) {
            (Some(shown), Some(name)) => shown@ == name@,
            (None, None) => true,
            _ => false,
        }
    }

    /// Tracked slots whose world is known.
    pub open spec fn placed(self) -> spec_fn(TrackedSlot) -> bool {
        |s: TrackedSlot| self.tracked_world(s.world) is Some
    }
}

impl Store {
    /// Computes [`StoreView::holder`].
    pub fn holder_of(&self, slot: i64) -> (holder: Option<String>)
        ensures
            match (holder, self@.holder(slot)) {
                (Some(shown), Some(name)) => shown@ == name@,
                (None, None) => true,
                _ => false,
            },
    {
        let mut c: usize = 0;
        while c < self.claims.len()
            invariant
                c <= self.claims@.len(),
                forall|j: int| 0 <= j < c ==> !claim_on(slot)(#[trigger] self.claims@[j]),
            decreases self.claims@.len() - c,
        {
            if self.claims[c].slot == slot {
                proof {
                    lemma_first_index(self.claims@, claim_on(slot), c as int);
                }
                let player = self.claims[c].player;
                let mut i: usize = 0;
                while i < self.players.len()
                    invariant
                        i <= self.players@.len(),
                        c < self.claims@.len(),
                        first_index(self.claims@, claim_on(slot)) == c,
                        player == self.claims@[c as int].player,
                        forall|j: int|
                            0 <= j < i ==> !player_with_id(player)(#[trigger] self.players@[j]),
                    decreases self.players@.len() - i,
                {
                    if self.players[i].id == player {
                        proof {
                            lemma_first_index(self.players@, player_with_id(player), i as int);
                        }
                        return Some(self.players[i].name.clone());
                    }
                    i += 1;
                }
                proof {
                    lemma_first_index(self.players@, player_with_id(player), i as int);
                }
                return None;
            }
            c += 1;
        }
        proof {
            lemma_first_index(self.claims@, claim_on(slot), c as int);
        }
        None
    }

    /// The lines of the summary: one for every tracked slot of a known
    /// world, in the order of the slots.
    pub fn sheet_rows(&self) -> (rows: Vec<SheetRow>)
        ensures
            rows@.len() == self@.tracked_slots.filter(self@.placed()).len(),
            forall|n: int|
                0 <= n < rows@.len() ==> self@.is_sheet_row(
                    self@.tracked_slots.filter(self@.placed())[n],
                    #[trigger] rows@[n],
                ),
    {
        let mut rows: Vec<SheetRow> = Vec::new();
        let mut i: usize = 0;
        proof {
            crate::seqs::lemma_filter_empty(self@.placed());
            assert(self.tracked_slots@.take(0) =~= Seq::<TrackedSlot>::empty());
        }
        while i < self.tracked_slots.len()
            invariant
                i <= self.tracked_slots@.len(),
                rows@.len() == self.tracked_slots@.take(i as int).filter(self@.placed()).len(),
                forall|n: int|
                    0 <= n < rows@.len() ==> self@.is_sheet_row(
                        self.tracked_slots@.take(i as int).filter(self@.placed())[n],
                        #[trigger] rows@[n],
                    ),
            decreases self.tracked_slots@.len() - i,
        {
            let ghost before = rows@;
            let ghost kept = self.tracked_slots@.take(i as int).filter(self@.placed());
            proof {
                crate::seqs::lemma_filter_push(
                    self.tracked_slots@.take(i as int),
                    self.tracked_slots@[i as int],
                    self@.placed(),
                );
                assert(self.tracked_slots@.take(i as int).push(self.tracked_slots@[i as int])
                    =~= self.tracked_slots@.take(i + 1));
            }
            match self.find_tracked_world(self.tracked_slots[i].world) {
                Some(k) => {
                    let player = self.holder_of(self.tracked_slots[i].id);
                    let status = if player.is_some() {
                        self.tracked_slots[i].status.as_str()
                    } else if self.tracked_slots[i].free {
                        "Unclaimed [Free claim]"
                    } else {
                        "Unclaimed"
                    };
                    rows.push(
                        SheetRow {
                            world: self.tracked_worlds[k].name.clone(),
                            slot: self.tracked_slots[i].name.clone(),
                            status: status.to_owned(),
                            player,
                        },
                    );
                    proof {
                        let after = self.tracked_slots@.take(i + 1).filter(self@.placed());
                        assert forall|n: int| 0 <= n < rows@.len() implies self@.is_sheet_row(
                            after[n],
                            #[trigger] rows@[n],
                        ) by {
                            if n < before.len() {
                                assert(rows@[n] == before[n]);
                                assert(after[n] == kept[n]);
                            }
                        }
                    }
                },
                None => {},
            }
            i += 1;
        }
        proof {
            assert(self.tracked_slots@.take(i as int) =~= self.tracked_slots@);
        }
        rows
    }
}

} // verus!
