//! The worlds that accept preclaims, page by page.

use vstd::multiset::Multiset;
use vstd::prelude::*;

use crate::store::{Store, StoreView};
use crate::text::{join3, join5};

verus! {

/// The id of a slot on a page.
#[derive(Debug, PartialEq, Eq, Clone, Copy, Structural)]
pub struct SlotId(pub i64);

/// A world that accepts preclaims, with its slots.
#[derive(Debug, Clone)]
pub struct World {
    pub name: String,
    pub preclaim_end: i64,
    pub slots: Vec<SlotId>,
}

/// A slot as a page shows it.
#[derive(Debug, Clone)]
pub struct Slot {
    pub id: i64,
    pub name: String,
    pub games: String,
    pub notes: String,
    pub points: String,
    /// Whether the player who looks at the page has preclaimed the slot.
    pub current_preclaim: bool,
}

/// What pages are made of: a container with its items.
pub trait PageContainer {
    /// The items of the container.
    spec fn shown_items(&self) -> Seq<SlotId>;

    fn items(&self) -> (items: &[SlotId])
        ensures
            items@ == self.shown_items(),
    ;
}

impl PageContainer for World {
    open spec fn shown_items(&self) -> Seq<SlotId> {
        self.slots@
    }

    fn items(&self) -> (items: &[SlotId]) {
        self.slots.as_slice()
    }
}

/// What a page shows of one item: a title, a text, and whether the item
/// stands in line with others.
pub trait PageDetails {
    /// The title and the text of the item.
    spec fn shown(&self) -> (Seq<char>, Seq<char>, bool);

    fn field(&self) -> (field: (String, String, bool))
        ensures
            (field.0@, field.1@, field.2) == self.shown(),
    ;
}

impl PageDetails for Slot {
    open spec fn shown(&self) -> (Seq<char>, Seq<char>, bool) {
        (
            "`"@ + self.name@ + "`"@ + if self.current_preclaim {
                " [Current Preclaim]"@
            } else {
                ""@
            },
            if self.notes@.len() == 0 {
                self.games@ + "\nPoints: "@ + self.points@
            } else {
                self.games@ + "\n*"@ + self.notes@ + "*\nPoints: "@ + self.points@
            },
            false,
        )
    }

    fn field(&self) -> (field: (String, String, bool)) {
        let mut title = join3("`", self.name.as_str(), "`");
        if self.current_preclaim {
            title.append(" [Current Preclaim]");
        }
        let text = if self.notes.as_str().is_empty() {
            join3(self.games.as_str(), "\nPoints: ", self.points.as_str())
        } else {
            join5(
                self.games.as_str(),
                "\n*",
                self.notes.as_str(),
                "*\nPoints: ",
                self.points.as_str(),
            )
        };
        proof {
            reveal_strlit("");
            assert(title@ =~= self.shown().0);
        }
        (title, text, false)
    }
}

/// How many pages a world with `items` slots takes when a page holds
/// `page_size` of them.
pub open spec fn pages_of(items: int, page_size: int) -> int {
    (items + page_size - 1) / page_size
}

/// How many pages the first `n` of `worlds` take together.
pub open spec fn pages_upto<C: PageContainer>(worlds: Seq<C>, n: int, page_size: int) -> int
    decreases n,
{
    if n <= 0 {
        0
    } else {
        pages_upto(worlds, n - 1, page_size) + pages_of(
            worlds[n - 1].shown_items().len() as int,
            page_size,
        )
    }
}

/// The pages of the first `n` worlds are no more than their slots.
pub proof fn lemma_pages_upto<C: PageContainer>(worlds: Seq<C>, n: int, page_size: int)
    requires
        0 <= n <= worlds.len(),
        page_size > 0,
    ensures
        0 <= pages_upto(worlds, n, page_size),
        n < worlds.len() ==> pages_upto(worlds, n, page_size) <= pages_upto(
            worlds,
            n + 1,
            page_size,
        ),
    decreases n,
{
    if n > 0 {
        lemma_pages_upto(worlds, n - 1, page_size);
    }
}

/// Where the page `page` begins when the walk through `worlds` stands at
/// the slot `start` of the world `k`: the world and the first slot of the
/// page. A world takes one page at least; nothing where the worlds end
/// before the page is reached.
pub open spec fn page_from<C: PageContainer>(
    worlds: Seq<C>,
    k: int,
    start: int,
    page: int,
    page_size: int,
) -> Option<
    (int, int),
>
    decreases page,
{
    if k < 0 || k >= worlds.len() {
        None
    } else if page <= 0 {
        Some((k, start))
    } else if worlds[k].shown_items().len() - start <= page_size {
        page_from(worlds, k + 1, 0, page - 1, page_size)
    } else {
        page_from(worlds, k, start + page_size, page - 1, page_size)
    }
}

/// Where a page ends that begins at `start` in a world with `items` slots.
pub open spec fn page_end(items: int, start: int, page_size: int) -> int {
    if start + page_size < items {
        start + page_size
    } else {
        items
    }
}

/// How many pages `worlds` take together when a page holds `page_size`
/// slots; nothing where they are more than can be counted.
pub fn page_count<C: PageContainer>(worlds: &Vec<C>, page_size: usize) -> (count: Option<usize>)
    requires
        page_size > 0,
    ensures
        match count {
            Some(count) => count == pages_upto(worlds@, worlds@.len() as int, page_size as int),
            None => pages_upto(worlds@, worlds@.len() as int, page_size as int) > usize::MAX,
        },
{
    let mut count: usize = 0;
    let mut n: usize = 0;
    while n < worlds.len()
        invariant
            n <= worlds@.len(),
            page_size > 0,
            count == pages_upto(worlds@, n as int, page_size as int),
        decreases worlds@.len() - n,
    {
        let items = worlds[n].items().len();
        let pages = if items == 0 {
            0
        } else {
            (items - 1) / page_size + 1
        };
        proof {
            if items > 0 {
                vstd::arithmetic::div_mod::lemma_div_plus_one(items - 1, page_size as int);
                assert(page_size + (items - 1) == items + page_size - 1);
            } else {
                vstd::arithmetic::div_mod::lemma_basic_div(page_size - 1, page_size as int);
            }
            assert(pages == pages_of(items as int, page_size as int));
            lemma_pages_grow(worlds@, n as int + 1, worlds@.len() as int, page_size as int);
        }
        count = match count.checked_add(pages) {
            Some(count) => count,
            None => {
                return None;
            },
        };
        n += 1;
    }
    Some(count)
}

/// The pages of the first `n` worlds are no more than those of the first
/// `m`, for `n` up to `m`.
pub proof fn lemma_pages_grow<C: PageContainer>(worlds: Seq<C>, n: int, m: int, page_size: int)
    requires
        0 <= n <= m <= worlds.len(),
        page_size > 0,
    ensures
        pages_upto(worlds, n, page_size) <= pages_upto(worlds, m, page_size),
    decreases m - n,
{
    if n < m {
        lemma_pages_upto(worlds, m - 1, page_size);
        lemma_pages_grow(worlds, n, m - 1, page_size);
    }
}

/// Finds the page `page`: the world that it shows and the slots of that
/// world that stand on it.
pub fn get_page<'a, C: PageContainer>(worlds: &'a Vec<C>, page: usize, page_size: usize) -> (found:
    Option<(&'a C, &'a [SlotId])>)
    requires
        page_size > 0,
    ensures
        match page_from(worlds@, 0, 0, page as int, page_size as int) {
            None => found is None,
            Some((k, start)) => {
                &&& found matches Some((world, slots))
                &&& 0 <= k < worlds@.len()
                &&& *world == worlds@[k]
                &&& 0 <= start <= worlds@[k].shown_items().len()
                &&& slots@ == worlds@[k].shown_items().subrange(
                    start,
                    page_end(worlds@[k].shown_items().len() as int, start, page_size as int),
                )
            },
        },
{
    let mut k: usize = 0;
    let mut start: usize = 0;
    let mut left: usize = page;
    if worlds.len() == 0 {
        return None;
    }
    while left != 0
        invariant
            page_size > 0,
            k < worlds@.len(),
            worlds@.len() <= usize::MAX,
            start <= worlds@[k as int].shown_items().len(),
            page_from(worlds@, 0, 0, page as int, page_size as int) == page_from(
                worlds@,
                k as int,
                start as int,
                left as int,
                page_size as int,
            ),
        decreases left,
    {
        if worlds[k].items().len() - start <= page_size {
            proof {
                assert(page_from(worlds@, k as int, start as int, left as int, page_size as int)
                    == page_from(worlds@, k + 1, 0, left - 1, page_size as int));
            }
            k += 1;
            start = 0;
            if k >= worlds.len() {
                proof {
                    assert(page_from(worlds@, k as int, 0, left - 1, page_size as int) is None);
                }
                return None;
            }
        } else {
            start += page_size;
        }
        left -= 1;
    }
    let all = worlds[k].items();
    let items = all.len();
    let end = if items - start > page_size {
        start + page_size
    } else {
        items
    };
    let slots = vstd::slice::slice_subrange(all, start, end);
    Some((&worlds[k], slots))
}

/// The ids of `slots` as the items of a page.
pub open spec fn slot_ids(slots: Seq<crate::store::SlotRow>) -> Seq<SlotId> {
    slots.map_values(|s: crate::store::SlotRow| SlotId(s.id))
}

/// The ids of `slots` as the items of a page.
pub open spec fn tracked_slot_ids(slots: Seq<crate::store::TrackedSlot>) -> Seq<SlotId> {
    slots.map_values(|s: crate::store::TrackedSlot| SlotId(s.id))
}

/// Whether the worlds stand in the order in which their preclaims end.
pub open spec fn ordered_by_end(worlds: Seq<World>) -> bool {
    forall|i: int, j: int|
        0 <= i <= j < worlds.len() ==> worlds[i].preclaim_end <= worlds[j].preclaim_end
}

/// A tracked world with the slots in it that nobody holds.
#[derive(Debug, Clone)]
pub struct UnclaimedWorld {
    pub id: i64,
    pub name: String,
    pub slots: Vec<SlotId>,
}

impl PageContainer for UnclaimedWorld {
    open spec fn shown_items(&self) -> Seq<SlotId> {
        self.slots@
    }

    fn items(&self) -> (items: &[SlotId]) {
        self.slots.as_slice()
    }
}

/// An unclaimed slot as a page shows it.
#[derive(Debug, Clone)]
pub struct UnclaimedSlot {
    pub name: String,
    pub games: String,
    pub free: bool,
}

impl PageDetails for UnclaimedSlot {
    open spec fn shown(&self) -> (Seq<char>, Seq<char>, bool) {
        (
            self.name@,
            self.games@ + if self.free {
                "\n*Free claim*"@
            } else {
                ""@
            },
            false,
        )
    }

    fn field(&self) -> (field: (String, String, bool)) {
        let mut text = self.games.clone();
        if self.free {
            text.append("\n*Free claim*");
        }
        proof {
            reveal_strlit("");
            assert(text@ =~= self.shown().1);
        }
        (self.name.clone(), text, false)
    }
}

/// Puts `world` into `worlds` behind the last world whose preclaims end no
/// later than its own.
fn insert_by_end(worlds: &mut Vec<World>, world: World)
    requires
        ordered_by_end(old(worlds)@),
    ensures
        ordered_by_end(final(worlds)@),
        final(worlds)@.to_multiset() == old(worlds)@.to_multiset().insert(world),
{
    let mut at: usize = 0;
    while at < worlds.len() && worlds[at].preclaim_end <= world.preclaim_end
        invariant
            at <= worlds@.len(),
            worlds@ == old(worlds)@,
            forall|i: int| 0 <= i < at ==> worlds@[i].preclaim_end <= world.preclaim_end,
        decreases worlds@.len() - at,
    {
        at += 1;
    }
    let ghost before = worlds@;
    worlds.insert(at, world);
    proof {
        let after = worlds@;
        assert(after.len() == before.len() + 1);
        assert(after[at as int] == world);
        assert forall|i: int, j: int| 0 <= i <= j < after.len() implies after[i].preclaim_end
            <= after[j].preclaim_end by {
            if i < at {
                assert(after[i] == before[i]);
            } else if i > at {
                assert(after[i] == before[i - 1]);
            }
            if j < at {
                assert(after[j] == before[j]);
            } else if j > at {
                assert(after[j] == before[j - 1]);
            }
        }
        assert(after.remove(at as int) =~= before);
        vstd::seq_lib::to_multiset_remove(after, at as int);
        after.to_multiset_ensures();
        assert(after.to_multiset() =~= before.to_multiset().insert(world));
    }
}

/// Puts worlds into the order in which their preclaims end.
pub fn sort_by_end(worlds: Vec<World>) -> (sorted: Vec<World>)
    ensures
        ordered_by_end(sorted@),
        sorted@.to_multiset() == worlds@.to_multiset(),
{
    let mut rest = worlds;
    let mut reversed: Vec<World> = Vec::new();
    let ghost all = rest@.to_multiset();
    proof {
        reversed@.to_multiset_ensures();
        assert(reversed@.to_multiset() =~= Multiset::<World>::empty());
        assert(rest@.to_multiset().add(reversed@.to_multiset()) =~= all);
    }
    while rest.len() > 0
        invariant
            rest@.to_multiset().add(reversed@.to_multiset()) == all,
        decreases rest@.len(),
    {
        let ghost before = rest@;
        let ghost taken = reversed@;
        let world = rest.pop().unwrap();
        reversed.push(world);
        proof {
            assert(before.remove(before.len() - 1) =~= rest@);
            vstd::seq_lib::to_multiset_remove(before, before.len() - 1);
            vstd::seq_lib::to_multiset_build(taken, world);
            before.to_multiset_ensures();
            assert(rest@.to_multiset().add(reversed@.to_multiset()) =~= before.to_multiset().add(
                taken.to_multiset(),
            ));
        }
    }
    proof {
        rest@.to_multiset_ensures();
        assert(rest@.to_multiset() =~= Multiset::<World>::empty());
        assert(reversed@.to_multiset() =~= all);
    }
    let mut sorted: Vec<World> = Vec::new();
    proof {
        sorted@.to_multiset_ensures();
        assert(sorted@.to_multiset() =~= Multiset::<World>::empty());
    }
    while reversed.len() > 0
        invariant
            ordered_by_end(sorted@),
            reversed@.to_multiset().add(sorted@.to_multiset()) == all,
        decreases reversed@.len(),
    {
        let ghost before = reversed@;
        let ghost placed = sorted@;
        let world = reversed.pop().unwrap();
        insert_by_end(&mut sorted, world);
        proof {
            assert(before.remove(before.len() - 1) =~= reversed@);
            vstd::seq_lib::to_multiset_remove(before, before.len() - 1);
            before.to_multiset_ensures();
            assert(reversed@.to_multiset().add(sorted@.to_multiset()) =~= before.to_multiset().add(
                placed.to_multiset(),
            ));
        }
    }
    proof {
        reversed@.to_multiset_ensures();
        assert(reversed@.to_multiset() =~= Multiset::<World>::empty());
        assert(sorted@.to_multiset() =~= all);
    }
    sorted
}

impl StoreView {
    /// Worlds whose preclaims end after `now` and that have a slot.
    pub open spec fn open_world(self, now: i64) -> spec_fn(crate::store::WorldRow) -> bool {
        |w: crate::store::WorldRow|
            w.preclaim_end > now && self.slots.filter(self.slot_in(w.id)).len() > 0
    }

    /// Whether `listed` holds, in the order of the table, every world whose
    /// preclaims end after `now` and that has a slot, with its slots in
    /// the order of their table.
    pub open spec fn lists_open_worlds(self, now: i64, listed: Seq<World>) -> bool {
        let open = self.worlds.filter(self.open_world(now));
        &&& listed.len() == open.len()
        &&& forall|i: int|
            0 <= i < open.len() ==> {
                &&& (#[trigger] listed[i]).name@ == open[i].name@
                &&& listed[i].preclaim_end == open[i].preclaim_end
                &&& listed[i].slots@ == slot_ids(self.slots.filter(self.slot_in(open[i].id)))
            }
    }

    /// Tracked worlds with a slot that nobody holds.
    pub open spec fn world_with_room(self) -> spec_fn(crate::store::TrackedWorld) -> bool {
        |w: crate::store::TrackedWorld| self.tracked_slots.filter(self.unclaimed_in(w.id)).len() > 0
    }

    /// Whether `listed` holds, in the order of the table, every tracked
    /// world with a slot that nobody holds, with those slots in the order
    /// of their table.
    pub open spec fn lists_unclaimed(self, listed: Seq<UnclaimedWorld>) -> bool {
        let open = self.tracked_worlds.filter(self.world_with_room());
        &&& listed.len() == open.len()
        &&& forall|i: int|
            0 <= i < open.len() ==> {
                &&& (#[trigger] listed[i]).id == open[i].id
                &&& listed[i].name@ == open[i].name@
                &&& listed[i].slots@ == tracked_slot_ids(
                    self.tracked_slots.filter(self.unclaimed_in(open[i].id)),
                )
            }
    }

    /// Whether `player` has a preclaim on the slot `slot`.
    pub open spec fn has_preclaim(self, slot: i64, player: i64) -> bool {
        exists|i: int|
            0 <= i < self.preclaims.len() && (#[trigger] self.preclaims[i]).slot == slot
                && self.preclaims[i].player == player
    }
}

impl Store {
    /// The ids of the slots of the world `world` that waits to be tracked.
    pub fn slot_ids_of(&self, world: i64) -> (ids: Vec<SlotId>)
        ensures
            ids@ == slot_ids(self@.slots.filter(self@.slot_in(world))),
    {
        let ghost p = self@.slot_in(world);
        let mut ids: Vec<SlotId> = Vec::new();
        let mut i: usize = 0;
        proof {
            crate::seqs::lemma_filter_empty(p);
            assert(self.slots@.take(0) =~= Seq::<crate::store::SlotRow>::empty());
            assert(ids@ =~= slot_ids(self.slots@.take(0).filter(p)));
        }
        while i < self.slots.len()
            invariant
                i <= self.slots@.len(),
                p == self@.slot_in(world),
                ids@ == slot_ids(self.slots@.take(i as int).filter(p)),
            decreases self.slots@.len() - i,
        {
            let ghost kept = self.slots@.take(i as int).filter(p);
            proof {
                crate::seqs::lemma_filter_push(self.slots@.take(i as int), self.slots@[i as int], p);
                assert(self.slots@.take(i as int).push(self.slots@[i as int])
                    =~= self.slots@.take(i + 1));
            }
            if self.slots[i].world == world {
                ids.push(SlotId(self.slots[i].id));
                proof {
                    assert(ids@ =~= slot_ids(kept.push(self.slots@[i as int])));
                }
            }
            i += 1;
        }
        proof {
            assert(self.slots@.take(i as int) =~= self.slots@);
        }
        ids
    }

    /// The ids of the slots of the tracked world `world` that nobody
    /// holds.
    pub fn unclaimed_ids_of(&self, world: i64) -> (ids: Vec<SlotId>)
        ensures
            ids@ == tracked_slot_ids(self@.tracked_slots.filter(self@.unclaimed_in(world))),
    {
        let ghost p = self@.unclaimed_in(world);
        let mut ids: Vec<SlotId> = Vec::new();
        let mut i: usize = 0;
        proof {
            crate::seqs::lemma_filter_empty(p);
            assert(self.tracked_slots@.take(0) =~= Seq::<crate::store::TrackedSlot>::empty());
            assert(ids@ =~= tracked_slot_ids(self.tracked_slots@.take(0).filter(p)));
        }
        while i < self.tracked_slots.len()
            invariant
                i <= self.tracked_slots@.len(),
                p == self@.unclaimed_in(world),
                ids@ == tracked_slot_ids(self.tracked_slots@.take(i as int).filter(p)),
            decreases self.tracked_slots@.len() - i,
        {
            let ghost kept = self.tracked_slots@.take(i as int).filter(p);
            proof {
                crate::seqs::lemma_filter_push(
                    self.tracked_slots@.take(i as int),
                    self.tracked_slots@[i as int],
                    p,
                );
                assert(self.tracked_slots@.take(i as int).push(self.tracked_slots@[i as int])
                    =~= self.tracked_slots@.take(i + 1));
            }
            if self.tracked_slots[i].world == world && !self.is_claimed(self.tracked_slots[i].id) {
                ids.push(SlotId(self.tracked_slots[i].id));
                proof {
                    assert(ids@ =~= tracked_slot_ids(kept.push(self.tracked_slots@[i as int])));
                }
            }
            i += 1;
        }
        proof {
            assert(self.tracked_slots@.take(i as int) =~= self.tracked_slots@);
        }
        ids
    }

    /// The worlds whose preclaims end after `now` and that have a slot, in
    /// the order of the table.
    pub fn open_worlds(&self, now: i64) -> (listed: Vec<World>)
        ensures
            self@.lists_open_worlds(now, listed@),
    {
        let ghost p = self@.open_world(now);
        let mut listed: Vec<World> = Vec::new();
        let mut k: usize = 0;
        proof {
            crate::seqs::lemma_filter_empty(p);
            assert(self.worlds@.take(0) =~= Seq::<crate::store::WorldRow>::empty());
        }
        while k < self.worlds.len()
            invariant
                k <= self.worlds@.len(),
                p == self@.open_world(now),
                listed@.len() == self.worlds@.take(k as int).filter(p).len(),
                forall|i: int|
                    0 <= i < listed@.len() ==> {
                        let w = self.worlds@.take(k as int).filter(p)[i];
                        &&& (#[trigger] listed@[i]).name@ == w.name@
                        &&& listed@[i].preclaim_end == w.preclaim_end
                        &&& listed@[i].slots@ == slot_ids(self@.slots.filter(self@.slot_in(w.id)))
                    },
            decreases self.worlds@.len() - k,
        {
            let ghost before = listed@;
            let ghost kept = self.worlds@.take(k as int).filter(p);
            proof {
                crate::seqs::lemma_filter_push(self.worlds@.take(k as int), self.worlds@[k as int], p);
                assert(self.worlds@.take(k as int).push(self.worlds@[k as int])
                    =~= self.worlds@.take(k + 1));
            }
            if self.worlds[k].preclaim_end > now {
                let slots = self.slot_ids_of(self.worlds[k].id);
                if slots.len() > 0 {
                    listed.push(
                        World {
                            name: self.worlds[k].name.clone(),
                            preclaim_end: self.worlds[k].preclaim_end,
                            slots,
                        },
                    );
                    proof {
                        let after = self.worlds@.take(k + 1).filter(p);
                        assert forall|i: int| 0 <= i < listed@.len() implies {
                            let w = after[i];
                            &&& (#[trigger] listed@[i]).name@ == w.name@
                            &&& listed@[i].preclaim_end == w.preclaim_end
                            &&& listed@[i].slots@ == slot_ids(
                                self@.slots.filter(self@.slot_in(w.id)),
                            )
                        } by {
                            if i < before.len() {
                                assert(listed@[i] == before[i]);
                                assert(after[i] == kept[i]);
                            }
                        }
                    }
                }
            }
            k += 1;
        }
        proof {
            assert(self.worlds@.take(k as int) =~= self.worlds@);
        }
        listed
    }

    /// The worlds that a player may preclaim in at the time `now`, in the
    /// order in which their preclaims end.
    pub fn preclaim_worlds(&self, now: i64) -> (worlds: Vec<World>)
        ensures
            ordered_by_end(worlds@),
            exists|listed: Seq<World>|
                self@.lists_open_worlds(now, listed) && worlds@.to_multiset()
                    == listed.to_multiset(),
    {
        let listed = self.open_worlds(now);
        let ghost shown = listed@;
        let worlds = sort_by_end(listed);
        proof {
            assert(self@.lists_open_worlds(now, shown) && worlds@.to_multiset()
                == shown.to_multiset());
        }
        worlds
    }

    /// The tracked worlds with a slot that nobody holds, in the order of
    /// the table.
    pub fn unclaimed_worlds(&self) -> (listed: Vec<UnclaimedWorld>)
        ensures
            self@.lists_unclaimed(listed@),
    {
        let ghost p = self@.world_with_room();
        let mut listed: Vec<UnclaimedWorld> = Vec::new();
        let mut k: usize = 0;
        proof {
            crate::seqs::lemma_filter_empty(p);
            assert(self.tracked_worlds@.take(0) =~= Seq::<crate::store::TrackedWorld>::empty());
        }
        while k < self.tracked_worlds.len()
            invariant
                k <= self.tracked_worlds@.len(),
                p == self@.world_with_room(),
                listed@.len() == self.tracked_worlds@.take(k as int).filter(p).len(),
                forall|i: int|
                    0 <= i < listed@.len() ==> {
                        let w = self.tracked_worlds@.take(k as int).filter(p)[i];
                        &&& (#[trigger] listed@[i]).id == w.id
                        &&& listed@[i].name@ == w.name@
                        &&& listed@[i].slots@ == tracked_slot_ids(
                            self@.tracked_slots.filter(self@.unclaimed_in(w.id)),
                        )
                    },
            decreases self.tracked_worlds@.len() - k,
        {
            let ghost before = listed@;
            let ghost kept = self.tracked_worlds@.take(k as int).filter(p);
            proof {
                crate::seqs::lemma_filter_push(
                    self.tracked_worlds@.take(k as int),
                    self.tracked_worlds@[k as int],
                    p,
                );
                assert(self.tracked_worlds@.take(k as int).push(self.tracked_worlds@[k as int])
                    =~= self.tracked_worlds@.take(k + 1));
            }
            let slots = self.unclaimed_ids_of(self.tracked_worlds[k].id);
            if slots.len() > 0 {
                listed.push(
                    UnclaimedWorld {
                        id: self.tracked_worlds[k].id,
                        name: self.tracked_worlds[k].name.clone(),
                        slots,
                    },
                );
                proof {
                    let after = self.tracked_worlds@.take(k + 1).filter(p);
                    assert forall|i: int| 0 <= i < listed@.len() implies {
                        let w = after[i];
                        &&& (#[trigger] listed@[i]).id == w.id
                        &&& listed@[i].name@ == w.name@
                        &&& listed@[i].slots@ == tracked_slot_ids(
                            self@.tracked_slots.filter(self@.unclaimed_in(w.id)),
                        )
                    } by {
                        if i < before.len() {
                            assert(listed@[i] == before[i]);
                            assert(after[i] == kept[i]);
                        }
                    }
                }
            }
            k += 1;
        }
        proof {
            assert(self.tracked_worlds@.take(k as int) =~= self.tracked_worlds@);
        }
        listed
    }

    /// The unclaimed slot with the id `slot` as a page shows it.
    pub fn unclaimed_details(&self, slot: &SlotId) -> (shown: Option<UnclaimedSlot>)
        ensures
            match (shown, self@.tracked_slot(slot.0)) {
                (Some(shown), Some(row)) => shown.name@ == row.name@ && shown.games@ == row.games@
                    && shown.free == row.free,
                (None, None) => true,
                _ => false,
            },
    {
        match self.find_tracked_slot(slot.0) {
            Some(i) => Some(
                UnclaimedSlot {
                    name: self.tracked_slots[i].name.clone(),
                    games: self.tracked_slots[i].games.clone(),
                    free: self.tracked_slots[i].free,
                },
            ),
            None => None,
        }
    }
}

/// The page on which the world `name` begins: the pages of the worlds
/// before it, each taking one page at least.
pub open spec fn pages_before(worlds: Seq<UnclaimedWorld>, name: Seq<char>, n: int, page_size: int) -> int
    decreases n,
{
    if n <= 0 {
        0
    } else if exists|k: int| 0 <= k < n - 1 && (#[trigger] worlds[k]).name@ == name {
        pages_before(worlds, name, n - 1, page_size)
    } else if worlds[n - 1].name@ == name {
        pages_before(worlds, name, n - 1, page_size)
    } else {
        pages_before(worlds, name, n - 1, page_size) + if worlds[n - 1].slots@.len() <= page_size {
            1
        } else {
            pages_of(worlds[n - 1].slots@.len() as int, page_size)
        }
    }
}

/// Finds the page on which the world `name` begins; nothing where the
/// pages before it are more than can be counted.
pub fn start_page(worlds: &Vec<UnclaimedWorld>, name: &str, page_size: usize) -> (page: Option<
    usize,
>)
    requires
        page_size > 0,
    ensures
        match page {
            Some(page) => page == pages_before(
                worlds@,
                name@,
                worlds@.len() as int,
                page_size as int,
            ),
            None => pages_before(worlds@, name@, worlds@.len() as int, page_size as int)
                > usize::MAX,
        },
{
    let wanted = name.to_owned();
    let mut page: usize = 0;
    let mut n: usize = 0;
    let mut found = false;
    while n < worlds.len()
        invariant
            n <= worlds@.len(),
            page_size > 0,
            wanted@ == name@,
            found == exists|k: int| 0 <= k < n && (#[trigger] worlds@[k]).name@ == name@,
            page == pages_before(worlds@, name@, n as int, page_size as int),
        decreases worlds@.len() - n,
    {
        proof {
            lemma_pages_before_grow(worlds@, name@, n as int + 1, worlds@.len() as int, page_size as int);
        }
        if !found {
            if worlds[n].name == wanted {
                found = true;
            } else {
                let items = worlds[n].slots.len();
                let pages = if items <= page_size {
                    1
                } else {
                    (items - 1) / page_size + 1
                };
                proof {
                    if items > page_size {
                        vstd::arithmetic::div_mod::lemma_div_plus_one(items - 1, page_size as int);
                        assert(page_size + (items - 1) == items + page_size - 1);
                    }
                }
                page = match page.checked_add(pages) {
                    Some(page) => page,
                    None => {
                        return None;
                    },
                };
            }
        }
        n += 1;
    }
    Some(page)
}

/// The pages before a world are no fewer when more worlds are counted.
pub proof fn lemma_pages_before_grow(
    worlds: Seq<UnclaimedWorld>,
    name: Seq<char>,
    n: int,
    m: int,
    page_size: int,
)
    requires
        0 <= n <= m <= worlds.len(),
        page_size > 0,
    ensures
        0 <= pages_before(worlds, name, n, page_size) <= pages_before(worlds, name, m, page_size),
    decreases m,
{
    if m > 0 {
        if n < m {
            lemma_pages_before_grow(worlds, name, n, m - 1, page_size);
        } else {
            lemma_pages_before_grow(worlds, name, n - 1, m - 1, page_size);
        }
        let items = worlds[m - 1].slots@.len() as int;
        if items > page_size {
            vstd::arithmetic::div_mod::lemma_div_plus_one(items - 1, page_size);
            assert(page_size + (items - 1) == items + page_size - 1);
            vstd::arithmetic::div_mod::lemma_div_pos_is_pos(items - 1, page_size);
        }
    }
}

impl SlotId {
    /// Whether `shown` is the slot with this id as the page of `player`
    /// shows it in the tables `store`.
    pub open spec fn shows(self, store: StoreView, player: i64, shown: Slot) -> bool {
        store.pre_slot(self.0) matches Some(row) && {
            &&& shown.id == self.0
            &&& shown.name@ == row.name@
            &&& shown.games@ == row.games@
            &&& shown.notes@ == row.notes@
            &&& shown.points@ == row.points@
            &&& shown.current_preclaim == store.has_preclaim(self.0, player)
        }
    }

    /// The slot with this id as a page shows it to `player`; nothing where
    /// no such slot waits to be tracked.
    pub fn details(&self, store: &Store, player: i64) -> (shown: Option<Slot>)
        ensures
            match shown {
                Some(shown) => self.shows(store@, player, shown),
                None => store@.pre_slot(self.0) is None,
            },
    {
        let j = match store.find_pre_slot(self.0) {
            Some(j) => j,
            None => {
                return None;
            },
        };
        let mut current_preclaim = false;
        let mut i: usize = 0;
        while i < store.preclaims.len()
            invariant
                i <= store.preclaims@.len(),
                current_preclaim == exists|n: int|
                    0 <= n < i && (#[trigger] store@.preclaims[n]).slot == self.0
                        && store@.preclaims[n].player == player,
            decreases store.preclaims@.len() - i,
        {
            if store.preclaims[i].slot == self.0 && store.preclaims[i].player == player {
                current_preclaim = true;
                proof {
                    assert(store@.preclaims[i as int].slot == self.0);
                }
            }
            i += 1;
        }
        Some(
            Slot {
                id: self.0,
                name: store.slots[j].name.clone(),
                games: store.slots[j].games.clone(),
                notes: store.slots[j].notes.clone(),
                points: store.slots[j].points.clone(),
                current_preclaim,
            },
        )
    }
}

} // verus!
