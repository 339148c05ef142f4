//! The tables of the event and what makes them consistent.

use vstd::prelude::*;

use crate::status::Status;

verus! {

/// A named pool of claim capacity.
#[derive(Debug, PartialEq, Eq, Clone, Copy, Structural)]
pub struct Reality {
    pub id: i64,
    pub max_claims: i64,
}

/// A reality as it was registered, under its name.
#[derive(Debug, Clone)]
pub struct NamedReality {
    pub name: String,
    pub reality: Reality,
}

#[derive(Debug, Clone)]
pub struct Player {
    pub id: i64,
    /// Identity of the player on the chat platform.
    pub snowflake: i64,
    pub name: String,
    pub points: i64,
    pub unspent_points: i64,
    /// Id of the player to whom this player passes earned points on, if
    /// to anybody.
    pub transfer_to: Option<i64>,
}

/// A world that is not tracked yet and may still accept preclaims.
#[derive(Debug, Clone)]
pub struct WorldRow {
    pub id: i64,
    pub name: String,
    /// Id of the reality that the world belongs to, if any.
    pub reality: Option<i64>,
    pub preclaim_end: i64,
    pub resolved_preclaims: bool,
}

/// A slot of a world that is not tracked yet.
#[derive(Debug, Clone)]
pub struct SlotRow {
    pub id: i64,
    pub world: i64,
    pub name: String,
    pub games: String,
    pub notes: String,
    pub points: String,
}

#[derive(Debug, PartialEq, Eq, Clone, Copy, Structural)]
pub enum PreclaimStatus {
    Pending,
    Superseded,
    Won,
}

/// A player's request for a slot of a world that is not tracked yet.
#[derive(Debug, PartialEq, Eq, Clone, Copy, Structural)]
pub struct Preclaim {
    pub slot: i64,
    pub player: i64,
    pub status: PreclaimStatus,
}

/// A world that is being played.
#[derive(Debug, Clone)]
pub struct TrackedWorld {
    pub id: i64,
    pub name: String,
    pub tracker_id: String,
    /// Id of the reality that the world belongs to, if any.
    pub reality: Option<i64>,
    pub done: bool,
    /// When the tracker of the world was last read, in seconds.
    pub last_scrape: i64,
}

/// A slot of a world that is being played.
#[derive(Debug, Clone)]
pub struct TrackedSlot {
    pub id: i64,
    pub world: i64,
    pub name: String,
    pub games: String,
    pub status: Status,
    pub checks: u32,
    pub checks_total: u32,
    pub last_activity: Option<u32>,
    pub points: i64,
    /// A free slot takes no claim capacity.
    pub free: bool,
}

/// The binding assignment of a tracked slot to a player.
#[derive(Debug, Clone)]
pub struct Claim {
    pub slot: i64,
    pub player: i64,
    pub public: Option<String>,
}

/// A status note that a player left on a tracked slot.
#[derive(Debug, Clone)]
pub struct Update {
    pub slot: i64,
    pub player: i64,
    pub timestamp: i64,
    pub description: String,
}

/// All tables of the event.
#[derive(Debug, Clone)]
pub struct Store {
    pub players: Vec<Player>,
    pub realities: Vec<NamedReality>,
    pub worlds: Vec<WorldRow>,
    pub slots: Vec<SlotRow>,
    pub preclaims: Vec<Preclaim>,
    pub tracked_worlds: Vec<TrackedWorld>,
    pub tracked_slots: Vec<TrackedSlot>,
    pub claims: Vec<Claim>,
    pub updates: Vec<Update>,
    /// Every id handed out so far is below this one.
    pub next_id: i64,
}

impl Player {
    /// A copy of this row.
    pub fn duplicate(&self) -> (row: Player)
        ensures
            row == *self,
    {
        Player {
            id: self.id,
            snowflake: self.snowflake,
            name: self.name.clone(),
            points: self.points,
            unspent_points: self.unspent_points,
            transfer_to: self.transfer_to,
        }
    }
}

impl NamedReality {
    /// A copy of this row.
    pub fn duplicate(&self) -> (row: NamedReality)
        ensures
            row == *self,
    {
        NamedReality { name: self.name.clone(), reality: self.reality }
    }
}

impl WorldRow {
    /// A copy of this row.
    pub fn duplicate(&self) -> (row: WorldRow)
        ensures
            row == *self,
    {
        WorldRow {
            id: self.id,
            name: self.name.clone(),
            reality: self.reality,
            preclaim_end: self.preclaim_end,
            resolved_preclaims: self.resolved_preclaims,
        }
    }
}

impl SlotRow {
    /// A copy of this row.
    pub fn duplicate(&self) -> (row: SlotRow)
        ensures
            row == *self,
    {
        SlotRow {
            id: self.id,
            world: self.world,
            name: self.name.clone(),
            games: self.games.clone(),
            notes: self.notes.clone(),
            points: self.points.clone(),
        }
    }
}

impl TrackedWorld {
    /// A copy of this row.
    pub fn duplicate(&self) -> (row: TrackedWorld)
        ensures
            row == *self,
    {
        TrackedWorld {
            id: self.id,
            name: self.name.clone(),
            tracker_id: self.tracker_id.clone(),
            reality: self.reality,
            done: self.done,
            last_scrape: self.last_scrape,
        }
    }
}

impl TrackedSlot {
    /// A copy of this row.
    pub fn duplicate(&self) -> (row: TrackedSlot)
        ensures
            row == *self,
    {
        TrackedSlot {
            id: self.id,
            world: self.world,
            name: self.name.clone(),
            games: self.games.clone(),
            status: self.status,
            checks: self.checks,
            checks_total: self.checks_total,
            last_activity: self.last_activity,
            points: self.points,
            free: self.free,
        }
    }
}

impl Claim {
    /// A copy of this row.
    pub fn duplicate(&self) -> (row: Claim)
        ensures
            row == *self,
    {
        Claim {
            slot: self.slot,
            player: self.player,
            public: match &self.public {
                Some(text) => Some(text.clone()),
                None => None,
            },
        }
    }
}

impl Update {
    /// A copy of this row.
    pub fn duplicate(&self) -> (row: Update)
        ensures
            row == *self,
    {
        Update {
            slot: self.slot,
            player: self.player,
            timestamp: self.timestamp,
            description: self.description.clone(),
        }
    }
}

impl PreclaimStatus {
    /// The integer under which a preclaim status is persisted.
    pub open spec fn code(self) -> int {
        match self {
            PreclaimStatus::Pending => 0,
            PreclaimStatus::Superseded => 1,
            PreclaimStatus::Won => 2,
        }
    }

    pub open spec fn decode(i: int) -> Option<PreclaimStatus> {
        if i == 0 {
            Some(PreclaimStatus::Pending)
        } else if i == 1 {
            Some(PreclaimStatus::Superseded)
        } else if i == 2 {
            Some(PreclaimStatus::Won)
        } else {
            None
        }
    }

    pub fn as_i64(&self) -> (i: i64)
        ensures
            i == self.code(),
    {
        match self {
            PreclaimStatus::Pending => 0,
            PreclaimStatus::Superseded => 1,
            PreclaimStatus::Won => 2,
        }
    }

    pub fn from_i64(i: i64) -> (status: Option<PreclaimStatus>)
        ensures
            status == PreclaimStatus::decode(i as int),
    {
        match i {
            0 => Some(PreclaimStatus::Pending),
            1 => Some(PreclaimStatus::Superseded),
            2 => Some(PreclaimStatus::Won),
            _ => None,
        }
    }
}

/// The pool of claim capacity that a reality stands for: its id, or `None`
/// for the pool of the worlds without a reality.
pub open spec fn pool_of(reality: Option<Reality>) -> Option<i64> {
    match reality {
        Some(r) => Some(r.id),
        None => None,
    }
}

/// Index of the first item of `s` that satisfies `p`; the length of `s` if
/// there is none.
pub open spec fn first_index<T>(s: Seq<T>, p: spec_fn(T) -> bool) -> int
    decreases s.len(),
{
    if s.len() == 0 {
        0
    } else if p(s.first()) {
        0
    } else {
        1 + first_index(s.drop_first(), p)
    }
}

/// `first_index` is the one index below which nothing satisfies `p` and at
/// which, if it is inside `s`, `p` holds.
pub proof fn lemma_first_index<T>(s: Seq<T>, p: spec_fn(T) -> bool, i: int)
    requires
        0 <= i <= s.len(),
        forall|j: int| 0 <= j < i ==> !p(#[trigger] s[j]),
        i < s.len() ==> p(s[i]),
    ensures
        first_index(s, p) == i,
    decreases s.len(),
{
    if s.len() == 0 {
    } else if i == 0 {
    } else {
        assert(!p(s[0]));
        let rest = s.drop_first();
        assert forall|j: int| 0 <= j < i - 1 implies !p(#[trigger] rest[j]) by {
            assert(rest[j] == s[j + 1]);
        }
        if i - 1 < rest.len() {
            assert(rest[i - 1] == s[i]);
        }
        lemma_first_index(rest, p, i - 1);
    }
}

/// What `first_index` returns, read the other way.
pub proof fn lemma_first_index_found<T>(s: Seq<T>, p: spec_fn(T) -> bool)
    ensures
        0 <= first_index(s, p) <= s.len(),
        forall|j: int| 0 <= j < first_index(s, p) ==> !p(#[trigger] s[j]),
        first_index(s, p) < s.len() ==> p(s[first_index(s, p)]),
    decreases s.len(),
{
    if s.len() == 0 {
    } else if p(s.first()) {
    } else {
        let rest = s.drop_first();
        lemma_first_index_found(rest, p);
        assert forall|j: int| 0 <= j < first_index(s, p) implies !p(#[trigger] s[j]) by {
            if j > 0 {
                assert(rest[j - 1] == s[j]);
            }
        }
        if first_index(s, p) < s.len() {
            assert(rest[first_index(rest, p)] == s[first_index(s, p)]);
        }
    }
}

/// The tables of a [`Store`] as sequences of rows.
pub struct StoreView {
    pub players: Seq<Player>,
    pub realities: Seq<NamedReality>,
    pub worlds: Seq<WorldRow>,
    pub slots: Seq<SlotRow>,
    pub preclaims: Seq<Preclaim>,
    pub tracked_worlds: Seq<TrackedWorld>,
    pub tracked_slots: Seq<TrackedSlot>,
    pub claims: Seq<Claim>,
    pub updates: Seq<Update>,
    pub next_id: int,
}

impl View for Store {
    type V = StoreView;

    open spec fn view(&self) -> StoreView {
        StoreView {
            players: self.players@,
            realities: self.realities@,
            worlds: self.worlds@,
            slots: self.slots@,
            preclaims: self.preclaims@,
            tracked_worlds: self.tracked_worlds@,
            tracked_slots: self.tracked_slots@,
            claims: self.claims@,
            updates: self.updates@,
            next_id: self.next_id as int,
        }
    }
}

impl StoreView {
    /// No slot is claimed twice.
    pub open spec fn claims_unique(self) -> bool {
        forall|i: int, j: int|
            0 <= i < self.claims.len() && 0 <= j < self.claims.len() && i != j
                ==> self.claims[i].slot != self.claims[j].slot
    }

    /// No player has two pending preclaims.
    pub open spec fn pending_unique(self) -> bool {
        forall|i: int, j: int|
            0 <= i < self.preclaims.len() && 0 <= j < self.preclaims.len() && i != j
                && self.preclaims[i].status == PreclaimStatus::Pending
                && self.preclaims[j].status == PreclaimStatus::Pending
                ==> self.preclaims[i].player != self.preclaims[j].player
    }

    /// A preclaim is marked as won only under a world whose preclaims are
    /// resolved.
    pub open spec fn won_only_resolved(self) -> bool {
        forall|i: int, j: int, k: int|
            0 <= i < self.preclaims.len() && 0 <= j < self.slots.len() && 0 <= k
                < self.worlds.len() && self.preclaims[i].status == PreclaimStatus::Won
                && self.slots[j].id == self.preclaims[i].slot && self.worlds[k].id
                == self.slots[j].world ==> self.worlds[k].resolved_preclaims
    }

    /// Tracked worlds and tracked slots are told apart by their ids.
    pub open spec fn tracked_ids_unique(self) -> bool {
        &&& forall|i: int, j: int|
            0 <= i < self.tracked_worlds.len() && 0 <= j < self.tracked_worlds.len() && i != j
                ==> self.tracked_worlds[i].id != self.tracked_worlds[j].id
        &&& forall|i: int, j: int|
            0 <= i < self.tracked_slots.len() && 0 <= j < self.tracked_slots.len() && i != j
                ==> self.tracked_slots[i].id != self.tracked_slots[j].id
    }

    /// Worlds that are not tracked yet are told apart by their ids and by
    /// their names, their slots by their ids.
    pub open spec fn worlds_unique(self) -> bool {
        &&& forall|i: int, j: int|
            0 <= i < self.worlds.len() && 0 <= j < self.worlds.len() && i != j
                ==> self.worlds[i].id != self.worlds[j].id && self.worlds[i].name@
                != self.worlds[j].name@
        &&& forall|i: int, j: int|
            0 <= i < self.slots.len() && 0 <= j < self.slots.len() && i != j ==> self.slots[i].id
                != self.slots[j].id
    }

    /// Every id in use was handed out by this store.
    pub open spec fn ids_issued(self) -> bool {
        &&& 0 <= self.next_id
        &&& forall|i: int|
            0 <= i < self.players.len() ==> (#[trigger] self.players[i]).id < self.next_id
        &&& forall|i: int|
            0 <= i < self.realities.len() ==> (#[trigger] self.realities[i]).reality.id
                < self.next_id
        &&& forall|i: int|
            0 <= i < self.worlds.len() ==> (#[trigger] self.worlds[i]).id < self.next_id
        &&& forall|i: int|
            0 <= i < self.slots.len() ==> (#[trigger] self.slots[i]).id < self.next_id
                && self.slots[i].world < self.next_id
        &&& forall|i: int|
            0 <= i < self.preclaims.len() ==> (#[trigger] self.preclaims[i]).slot
                < self.next_id
        &&& forall|i: int|
            0 <= i < self.tracked_worlds.len() ==> (#[trigger] self.tracked_worlds[i]).id
                < self.next_id && (self.tracked_worlds[i].reality matches Some(r) ==> r
                < self.next_id)
        &&& forall|i: int|
            0 <= i < self.tracked_slots.len() ==> (#[trigger] self.tracked_slots[i]).id
                < self.next_id && self.tracked_slots[i].world < self.next_id
        &&& forall|i: int|
            0 <= i < self.claims.len() ==> (#[trigger] self.claims[i]).slot < self.next_id
    }

    /// Points are never negative, and every reality allows a claim.
    pub open spec fn points_valid(self) -> bool {
        &&& forall|i: int|
            0 <= i < self.realities.len() ==> (#[trigger] self.realities[i]).reality.max_claims
                > 0
        &&& forall|i: int|
            0 <= i < self.players.len() ==> (#[trigger] self.players[i]).points >= 0
        &&& forall|i: int|
            0 <= i < self.tracked_slots.len() ==> (#[trigger] self.tracked_slots[i]).points
                >= 0
    }

    /// The tables are consistent.
    pub open spec fn wf(self) -> bool {
        &&& self.claims_unique()
        &&& self.pending_unique()
        &&& self.won_only_resolved()
        &&& self.tracked_ids_unique()
        &&& self.worlds_unique()
        &&& self.ids_issued()
        &&& self.points_valid()
    }
}

impl Store {
    /// The tables are consistent.
    pub open spec fn wf(self) -> bool {
        self@.wf()
    }

    /// A store without any rows.
    pub fn new() -> (store: Store)
        ensures
            store.wf(),
            store.players@.len() == 0,
            store.realities@.len() == 0,
            store.worlds@.len() == 0,
            store.slots@.len() == 0,
            store.preclaims@.len() == 0,
            store.tracked_worlds@.len() == 0,
            store.tracked_slots@.len() == 0,
            store.claims@.len() == 0,
            store.updates@.len() == 0,
            store.next_id == 1,
            store@.within_claim_caps(),
            store@.within_reality_cap(),
    {
        let store = Store {
            players: Vec::new(),
            realities: Vec::new(),
            worlds: Vec::new(),
            slots: Vec::new(),
            preclaims: Vec::new(),
            tracked_worlds: Vec::new(),
            tracked_slots: Vec::new(),
            claims: Vec::new(),
            updates: Vec::new(),
            next_id: 1,
        };
        proof {
            store@.lemma_no_claims_within_caps();
        }
        store
    }
}

} // verus!
