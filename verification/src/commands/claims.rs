//! Commands on tracked slots and the claims on them.

use vstd::prelude::*;

use crate::commands::{no_permission, slot_required, world_required, Bot, Reply};
use crate::store::StoreView;
use crate::store::{Claim, Store, TrackedWorld};
use crate::text::{join2, join4, join5, join_lines, lines_text, texts};

verus! {

/// Claims a slot in a world.
pub struct ClaimCommand {}

/// Takes the claim from a slot.
pub struct UnclaimCommand {}

/// Marks a slot as a free claim.
pub struct MarkFreeCommand {}

/// Marks a slot as done.
pub struct DoneCommand {}

/// Opens a claim to the public.
pub struct PublicCommand {}

/// Leaves a status note on a slot.
pub struct StatusCommand {}

/// Leaves status notes on several slots at once.
pub struct BulkStatusCommand {}

/// One status note of several: the world if it is not that of the note
/// before, the slot and the text.
#[derive(Debug, Clone)]
pub struct BulkEntry {
    pub world: Option<String>,
    pub slot: Option<String>,
    pub description: Option<String>,
}

/// A status note that is to be taken: the id of its slot, and the names
/// and the text that announce it.
pub struct PlannedNote {
    pub slot_id: i64,
    pub world: Seq<char>,
    pub slot: Seq<char>,
    pub description: Seq<char>,
}

/// What becomes of the first entries of several status notes: the notes to
/// take, the world that the next entry falls back on, and the world and
/// the slot of the entry at which the notes fail, if they do.
pub struct BulkPlan {
    pub notes: Seq<PlannedNote>,
    pub active: Option<Seq<char>>,
    pub failed: Option<(Seq<char>, Seq<char>)>,
}

impl StoreView {
    /// The line that lists the claim `c` among the public claims of the
    /// world with the id `world`, if it is one of them.
    pub open spec fn public_line(self, c: Claim, world: i64) -> Option<Seq<char>> {
        match (c.public, self.tracked_slot(c.slot)) {
            (Some(description), Some(s)) => if s.world == world {
                Some("**"@ + s.name@ + "**: "@ + description@)
            } else {
                None
            },
            _ => None,
        }
    }

    /// The lines that list the public claims of the world with the id
    /// `world` among the first `n` claims.
    pub open spec fn public_lines(self, world: i64, n: int) -> Seq<Seq<char>>
        decreases n,
    {
        if n <= 0 {
            Seq::empty()
        } else {
            match self.public_line(self.claims[n - 1], world) {
                Some(line) => self.public_lines(world, n - 1).push(line),
                None => self.public_lines(world, n - 1),
            }
        }
    }

    /// The text that lists the public claims of the world with the id
    /// `world`, one per line.
    pub open spec fn public_text(self, world: i64) -> Seq<char> {
        let lines = self.public_lines(world, self.claims.len() as int);
        lines_text(lines, 0, lines.len() as int)
    }

    /// Tracked worlds with a public claim.
    pub open spec fn has_public(self) -> spec_fn(TrackedWorld) -> bool {
        |w: TrackedWorld| self.public_lines(w.id, self.claims.len() as int).len() > 0
    }

    /// Whether `fields` lists the public claims of all worlds: one field
    /// for every tracked world that has one, in the order of the table.
    pub open spec fn lists_public(self, fields: Seq<(String, String, bool)>) -> bool {
        let worlds = self.tracked_worlds.filter(self.has_public());
        &&& fields.len() == worlds.len()
        &&& forall|i: int|
            0 <= i < worlds.len() ==> {
                &&& (#[trigger] fields[i]).0@ == worlds[i].name@
                &&& fields[i].1@ == self.public_text(worlds[i].id)
                &&& !fields[i].2
            }
    }

    /// What becomes of the first `n` of `entries`: an entry that names a
    /// world changes the world for the entries after it too, and an entry
    /// with a world, a slot and a text is a note on that slot. The notes
    /// fail at the first slot that is not found.
    pub open spec fn bulk_plan(self, entries: Seq<BulkEntry>, n: int) -> BulkPlan
        decreases n,
    {
        if n <= 0 {
            BulkPlan { notes: Seq::empty(), active: None, failed: None }
        } else {
            let before = self.bulk_plan(entries, n - 1);
            let entry = entries[n - 1];
            let active = match entry.world {
                Some(world) => Some(world@),
                None => before.active,
            };
            if before.failed is Some {
                before
            } else {
                match (active, entry.slot, entry.description) {
                    (Some(world), Some(slot), Some(description)) => match self.named_slot(
                        world,
                        slot@,
                    ) {
                        Some(s) => BulkPlan {
                            notes: before.notes.push(
                                PlannedNote {
                                    slot_id: s.id,
                                    world,
                                    slot: slot@,
                                    description: description@,
                                },
                            ),
                            active,
                            failed: None,
                        },
                        None => BulkPlan { notes: before.notes, active, failed: Some((world, slot@)) },
                    },
                    _ => BulkPlan { notes: before.notes, active, failed: None },
                }
            }
        }
    }
}

impl Store {
    /// The lines that list the public claims of the world with the id
    /// `world`.
    pub fn public_lines_of(&self, world: i64) -> (lines: Vec<String>)
        ensures
            texts(lines@) == self@.public_lines(world, self@.claims.len() as int),
    {
        let mut lines: Vec<String> = Vec::new();
        let mut n: usize = 0;
        proof {
            assert(texts(lines@) =~= self@.public_lines(world, 0));
        }
        while n < self.claims.len()
            invariant
                n <= self.claims@.len(),
                texts(lines@) == self@.public_lines(world, n as int),
            decreases self.claims@.len() - n,
        {
            let ghost before = texts(lines@);
            match &self.claims[n].public {
                Some(description) => {
                    match self.find_tracked_slot(self.claims[n].slot) {
                        Some(i) => {
                            if self.tracked_slots[i].world == world {
                                let line = join4(
                                    "**",
                                    self.tracked_slots[i].name.as_str(),
                                    "**: ",
                                    description.as_str(),
                                );
                                lines.push(line);
                                proof {
                                    assert(texts(lines@) =~= before.push(line@));
                                }
                            }
                        },
                        None => {},
                    }
                },
                None => {},
            }
            n += 1;
        }
        lines
    }
}

impl ClaimCommand {
    pub open spec fn command_name() -> Seq<char> {
        "claim"@
    }

    pub fn name() -> (name: &'static str)
        ensures
            name@ == Self::command_name(),
    {
        "claim"
    }

    /// The answer to a claim of the player `player` in the tables
    /// `store`.
    pub open spec fn answer(store: StoreView, player: i64, world: Seq<char>, slot: Seq<char>) -> Seq<
        char,
    > {
        match store.claim_outcome(player, world, slot) {
            Ok(()) => "Successfully claimed "@ + slot + " in "@ + world,
            Err(e) => e.text(),
        }
    }

    /// Claims the slot `slot` of the world `world` for `user`, who is
    /// registered as a player where that is still to be done.
    pub fn execute(bot: &mut Bot, user: i64, user_name: &str, world: &str, slot: &str) -> (reply:
        Reply)
        requires
            old(bot).wf(),
        ensures
            final(bot).wf(),
            final(bot).admins == old(bot).admins,
            final(bot).privileged == old(bot).privileged,
            old(bot).store@.within_claim_caps() ==> final(bot).store@.within_claim_caps(),
            old(bot).store@.within_reality_cap() ==> final(bot).store@.within_reality_cap(),
            if world@.len() == 0 {
                reply.text@ == world_required() && !reply.push_needed && final(bot).store@ == old(bot).store@
            } else if slot@.len() == 0 {
                reply.text@ == slot_required() && !reply.push_needed && final(bot).store@ == old(bot).store@
            } else {
                exists|mid: StoreView, player: Option<crate::store::Player>|
                    {
                        &&& old(bot).store@.gets_player(user, user_name@, mid, player)
                        &&& match player {
                            None => reply.text@ == "Failed to get user"@ && !reply.push_needed
                                && final(bot).store@ == mid,
                            Some(p) => {
                                &&& reply.text@ == Self::answer(mid, p.id, world@, slot@)
                                &&& reply.push_needed == mid.claim_outcome(p.id, world@, slot@) is Ok
                                &&& final(bot).store@ == mid.after_claim(p.id, world@, slot@)
                            },
                        }
                    }
            },
    {
        if world.is_empty() {
            return Reply::plain("A world is required");
        }
        if slot.is_empty() {
            return Reply::plain("A slot is required");
        }
        let ghost pre = bot.store@;
        let player = bot.store.get_player(user, user_name);
        let ghost mid = bot.store@;
        proof {
            assert(pre.gets_player(user, user_name@, mid, player));
        }
        let player = match player {
            Some(player) => player,
            None => {
                return Reply::plain("Failed to get user");
            },
        };
        match bot.store.claim(player.id, world, slot) {
            Ok(()) => Reply::pushing(join4("Successfully claimed ", slot, " in ", world)),
            Err(e) => Reply::plain(e.message()),
        }
    }
}

impl UnclaimCommand {
    pub open spec fn command_name() -> Seq<char> {
        "unclaim"@
    }

    pub fn name() -> (name: &'static str)
        ensures
            name@ == Self::command_name(),
    {
        "unclaim"
    }

    /// Takes the claims from the slots with the name `slot` in the world
    /// `world`, for an organizer.
    pub fn execute(bot: &mut Bot, user: i64, world: &str, slot: &str) -> (reply: Reply)
        requires
            old(bot).wf(),
        ensures
            final(bot).wf(),
            final(bot).admins == old(bot).admins,
            final(bot).privileged == old(bot).privileged,
            old(bot).store@.within_claim_caps() ==> final(bot).store@.within_claim_caps(),
            old(bot).store@.within_reality_cap() ==> final(bot).store@.within_reality_cap(),
            !reply.push_needed,
            if !old(bot).admins@.contains(user) {
                reply.text@ == no_permission() && final(bot).store@ == old(bot).store@
            } else if world@.len() == 0 {
                reply.text@ == world_required() && final(bot).store@ == old(bot).store@
            } else if slot@.len() == 0 {
                reply.text@ == slot_required() && final(bot).store@ == old(bot).store@
            } else {
                reply.text@ == "Successfully unclaimed slot"@ && final(bot).store@ == old(bot).store@.after_unclaim(world@, slot@)
            },
    {
        if !bot.is_admin(user) {
            return Reply::plain("You do not have permission to use this command");
        }
        if world.is_empty() {
            return Reply::plain("A world is required");
        }
        if slot.is_empty() {
            return Reply::plain("A slot is required");
        }
        bot.store.unclaim(world, slot);
        Reply::plain("Successfully unclaimed slot")
    }
}

impl MarkFreeCommand {
    pub open spec fn command_name() -> Seq<char> {
        "mark-free"@
    }

    pub fn name() -> (name: &'static str)
        ensures
            name@ == Self::command_name(),
    {
        "mark-free"
    }

    /// Marks the slots with the name `slot` in the world `world` as free
    /// claims, for an organizer.
    pub fn execute(bot: &mut Bot, user: i64, world: &str, slot: &str) -> (reply: Reply)
        requires
            old(bot).wf(),
        ensures
            final(bot).wf(),
            final(bot).admins == old(bot).admins,
            final(bot).privileged == old(bot).privileged,
            old(bot).store@.within_claim_caps() ==> final(bot).store@.within_claim_caps(),
            old(bot).store@.within_reality_cap() ==> final(bot).store@.within_reality_cap(),
            if !old(bot).admins@.contains(user) {
                reply.text@ == no_permission() && !reply.push_needed && final(bot).store@ == old(bot).store@
            } else if world@.len() == 0 {
                reply.text@ == world_required() && !reply.push_needed && final(bot).store@ == old(bot).store@
            } else if slot@.len() == 0 {
                reply.text@ == slot_required() && !reply.push_needed && final(bot).store@ == old(bot).store@
            } else {
                reply.text@ == "Successfully marked "@ + slot@ + " in "@ + world@
                    + " as a free claim"@ && reply.push_needed && final(bot).store@ == old(bot).store@.after_mark_free(world@, slot@)
            },
    {
        if !bot.is_admin(user) {
            return Reply::plain("You do not have permission to use this command");
        }
        if world.is_empty() {
            return Reply::plain("A world is required");
        }
        if slot.is_empty() {
            return Reply::plain("A slot is required");
        }
        bot.store.mark_free(world, slot);
        Reply::pushing(join5("Successfully marked ", slot, " in ", world, " as a free claim"))
    }
}

impl DoneCommand {
    pub open spec fn command_name() -> Seq<char> {
        "done"@
    }

    pub fn name() -> (name: &'static str)
        ensures
            name@ == Self::command_name(),
    {
        "done"
    }

    /// The line that records who marked a slot as done.
    pub open spec fn log_line(world: Seq<char>, slot: Seq<char>, user_name: Seq<char>) -> Seq<char> {
        "Slot "@ + slot + " in "@ + world + " was marked done by "@ + user_name
    }

    /// Marks the slots with the name `slot` in the world `world` as done,
    /// for a player who may do so. Returns the answer and, where a slot
    /// was marked, the line to record.
    pub fn execute(bot: &mut Bot, user: i64, user_name: &str, world: &str, slot: &str) -> (reply: (
        Reply,
        Option<String>,
    ))
        requires
            old(bot).wf(),
        ensures
            final(bot).wf(),
            final(bot).admins == old(bot).admins,
            final(bot).privileged == old(bot).privileged,
            old(bot).store@.within_claim_caps() ==> final(bot).store@.within_claim_caps(),
            old(bot).store@.within_reality_cap() ==> final(bot).store@.within_reality_cap(),
            !reply.0.push_needed,
            if !old(bot).privileged@.contains(user) {
                reply.0.text@ == no_permission() && reply.1 is None && final(bot).store@ == old(bot).store@
            } else if world@.len() == 0 {
                reply.0.text@ == world_required() && reply.1 is None && final(bot).store@ == old(bot).store@
            } else if slot@.len() == 0 {
                reply.0.text@ == slot_required() && reply.1 is None && final(bot).store@ == old(bot).store@
            } else if old(bot).store@.can_mark_done(None, world@, slot@) {
                &&& reply.0.text@ == "Successfully marked slot as done"@
                &&& reply.1 matches Some(line) && line@ == Self::log_line(
                    world@,
                    slot@,
                    user_name@,
                )
                &&& final(bot).store@ == old(bot).store@.after_mark_done(None, world@, slot@)
            } else {
                reply.0.text@ == "Failed to mark slot as done"@ && reply.1 is None && final(bot).store@ == old(bot).store@
            },
    {
        if !bot.is_privileged(user) {
            return (Reply::plain("You do not have permission to use this command"), None);
        }
        if world.is_empty() {
            return (Reply::plain("A world is required"), None);
        }
        if slot.is_empty() {
            return (Reply::plain("A slot is required"), None);
        }
        match bot.store.mark_done(None, world, slot) {
            Ok(()) => {
                let mut line = join4("Slot ", slot, " in ", world);
                line.append(" was marked done by ");
                line.append(user_name);
                (Reply::plain("Successfully marked slot as done"), Some(line))
            },
            Err(_) => (Reply::plain("Failed to mark slot as done"), None),
        }
    }
}

impl PublicCommand {
    pub open spec fn command_name() -> Seq<char> {
        "public"@
    }

    pub fn name() -> (name: &'static str)
        ensures
            name@ == Self::command_name(),
    {
        "public"
    }

    /// The description of a claim that is opened to the public without
    /// one.
    pub open spec fn described(description: Seq<char>) -> Seq<char> {
        if description.len() == 0 {
            "*No description provided*"@
        } else {
            description
        }
    }

    /// Lists the public claims: those of the world `world`, or those of
    /// all worlds where no world is named. Where there is none, the answer
    /// says so.
    pub fn list(bot: &Bot, world: &str) -> (listed: Result<Vec<(String, String, bool)>, Reply>)
        ensures
            if world@.len() == 0 {
                match listed {
                    Ok(fields) => fields@.len() > 0 && bot.store@.lists_public(fields@),
                    Err(reply) => reply.text@ == "No worlds have public claims"@
                        && !reply.push_needed && bot.store@.lists_public(Seq::empty()),
                }
            } else {
                match bot.store@.tracked_world_named(world@) {
                    Some(w) if bot.store@.has_public()(w) => {
                        &&& listed matches Ok(fields)
                        &&& fields@.len() == 1
                        &&& fields@[0].0@ == world@
                        &&& fields@[0].1@ == bot.store@.public_text(w.id)
                        &&& !fields@[0].2
                    },
                    _ => listed matches Err(reply) && reply.text@ == world@
                        + " does not have public claims"@ && !reply.push_needed,
                }
            },
    {
        if world.is_empty() {
            let ghost p = bot.store@.has_public();
            let mut fields: Vec<(String, String, bool)> = Vec::new();
            let mut k: usize = 0;
            proof {
                crate::seqs::lemma_filter_empty(p);
                assert(bot.store.tracked_worlds@.take(0) =~= Seq::<TrackedWorld>::empty());
            }
            while k < bot.store.tracked_worlds.len()
                invariant
                    k <= bot.store.tracked_worlds@.len(),
                    p == bot.store@.has_public(),
                    fields@.len() == bot.store.tracked_worlds@.take(k as int).filter(p).len(),
                    forall|i: int|
                        0 <= i < fields@.len() ==> {
                            let w = bot.store.tracked_worlds@.take(k as int).filter(p)[i];
                            &&& (#[trigger] fields@[i]).0@ == w.name@
                            &&& fields@[i].1@ == bot.store@.public_text(w.id)
                            &&& !fields@[i].2
                        },
                decreases bot.store.tracked_worlds@.len() - k,
            {
                let ghost before = fields@;
                let ghost kept = bot.store.tracked_worlds@.take(k as int).filter(p);
                proof {
                    crate::seqs::lemma_filter_push(
                        bot.store.tracked_worlds@.take(k as int),
                        bot.store.tracked_worlds@[k as int],
                        p,
                    );
                    assert(bot.store.tracked_worlds@.take(k as int).push(
                        bot.store.tracked_worlds@[k as int],
                    ) =~= bot.store.tracked_worlds@.take(k + 1));
                }
                let lines = bot.store.public_lines_of(bot.store.tracked_worlds[k].id);
                if lines.len() > 0 {
                    fields.push(
                        (
                            bot.store.tracked_worlds[k].name.clone(),
                            join_lines(&lines, 0, lines.len()),
                            false,
                        ),
                    );
                    proof {
                        let after = bot.store.tracked_worlds@.take(k + 1).filter(p);
                        assert forall|i: int| 0 <= i < fields@.len() implies {
                            let w = after[i];
                            &&& (#[trigger] fields@[i]).0@ == w.name@
                            &&& fields@[i].1@ == bot.store@.public_text(w.id)
                            &&& !fields@[i].2
                        } by {
                            if i < before.len() {
                                assert(fields@[i] == before[i]);
                                assert(after[i] == kept[i]);
                            }
                        }
                    }
                }
                k += 1;
            }
            proof {
                assert(bot.store.tracked_worlds@.take(k as int) =~= bot.store.tracked_worlds@);
            }
            if fields.len() == 0 {
                proof {
                    assert(fields@ =~= Seq::empty());
                }
                return Err(Reply::plain("No worlds have public claims"));
            }
            return Ok(fields);
        }
        let world_name = world.to_owned();
        match bot.store.find_tracked_world_named(&world_name) {
            Some(k) => {
                let lines = bot.store.public_lines_of(bot.store.tracked_worlds[k].id);
                if lines.len() > 0 {
                    let mut fields: Vec<(String, String, bool)> = Vec::new();
                    fields.push((world_name, join_lines(&lines, 0, lines.len()), false));
                    return Ok(fields);
                }
            },
            None => {},
        }
        Err(Reply::plain(join2(world, " does not have public claims").as_str()))
    }

    /// Opens the claims of `user` on the slots with the name `slot` in the
    /// world `world` to the public.
    pub fn execute(bot: &mut Bot, user: i64, world: &str, slot: &str, description: &str) -> (reply:
        Reply)
        requires
            old(bot).wf(),
        ensures
            final(bot).wf(),
            final(bot).admins == old(bot).admins,
            final(bot).privileged == old(bot).privileged,
            old(bot).store@.within_claim_caps() ==> final(bot).store@.within_claim_caps(),
            old(bot).store@.within_reality_cap() ==> final(bot).store@.within_reality_cap(),
            !reply.push_needed,
            reply.text@ == if old(bot).store@.holds_claim(user, world@, slot@) {
                "Successfully marked claim as public"@
            } else {
                "Failed to mark claim as public"@
            },
            exists|text: String|
                text@ == Self::described(description@) && final(bot).store@ == old(bot).store@.after_publish(user, world@, slot@, text),
    {
        let text = if description.is_empty() {
            "*No description provided*"
        } else {
            description
        };
        if bot.store.set_public(user, world, slot, text) {
            Reply::plain("Successfully marked claim as public")
        } else {
            Reply::plain("Failed to mark claim as public")
        }
    }
}

impl StatusCommand {
    pub open spec fn command_name() -> Seq<char> {
        "status"@
    }

    pub fn name() -> (name: &'static str)
        ensures
            name@ == Self::command_name(),
    {
        "status"
    }

    /// The line that announces a status note.
    pub open spec fn announcement(
        display_name: Seq<char>,
        world: Seq<char>,
        slot: Seq<char>,
        description: Seq<char>,
    ) -> Seq<char> {
        "["@ + display_name + "] ["@ + world + "] ["@ + slot + "] "@ + description
    }

    /// Writes the line that announces a status note.
    pub fn announce(display_name: &str, world: &str, slot: &str, description: &str) -> (line: String)
        ensures
            line@ == Self::announcement(display_name@, world@, slot@, description@),
    {
        let mut line = join5("[", display_name, "] [", world, "] [");
        line.append(slot);
        line.append("] ");
        line.append(description);
        line
    }

    /// Leaves the status note `description` of `user` on the slot `slot`
    /// of the world `world`, at the time `now`. Returns the answer and,
    /// where the note was taken, the line that announces it.
    pub fn execute(
        bot: &mut Bot,
        user: i64,
        user_name: &str,
        display_name: &str,
        world: &str,
        slot: &str,
        description: &str,
        now: i64,
    ) -> (reply: (Reply, Option<String>))
        requires
            old(bot).wf(),
        ensures
            final(bot).wf(),
            final(bot).admins == old(bot).admins,
            final(bot).privileged == old(bot).privileged,
            old(bot).store@.within_claim_caps() ==> final(bot).store@.within_claim_caps(),
            old(bot).store@.within_reality_cap() ==> final(bot).store@.within_reality_cap(),
            !reply.0.push_needed,
            match old(bot).store@.named_slot(world@, slot@) {
                None => reply.0.text@ == "Failed to get slot"@ && reply.1 is None && final(bot).store@ == old(bot).store@,
                Some(s) => exists|mid: StoreView, player: Option<crate::store::Player>|
                    {
                        &&& old(bot).store@.gets_player(user, user_name@, mid, player)
                        &&& match player {
                            None => reply.0.text@ == "Failed to get user"@ && reply.1 is None
                                && final(bot).store@ == mid,
                            Some(p) => {
                                &&& reply.0.text@ == "Successfully updated status of "@ + slot@
                                    + " in "@ + world@
                                &&& reply.1 matches Some(line) && line@ == Self::announcement(
                                    display_name@,
                                    world@,
                                    slot@,
                                    description@,
                                )
                                &&& final(bot).store@.updates.len() == mid.updates.len() + 1
                                &&& crate::slots::is_note(
                                    final(bot).store@.updates.last(),
                                    s.id,
                                    p.id,
                                    now,
                                    description@,
                                )
                                &&& final(bot).store@ == mid.with_note(
                                    final(bot).store@.updates.last(),
                                )
                            },
                        }
                    },
            },
    {
        let world_name = world.to_owned();
        let slot_name = slot.to_owned();
        if bot.store.find_named_slot(&world_name, &slot_name).is_none() {
            return (Reply::plain("Failed to get slot"), None);
        }
        let ghost pre = bot.store@;
        let player = bot.store.get_player(user, user_name);
        let ghost mid = bot.store@;
        proof {
            assert(pre.gets_player(user, user_name@, mid, player));
            assert(mid.tracked_slots == pre.tracked_slots);
            assert(mid.tracked_worlds == pre.tracked_worlds);
            assert(mid.named_slot(world@, slot@) == pre.named_slot(world@, slot@)) by {
                assert(mid.slot_named(world@, slot@) =~= pre.slot_named(world@, slot@)) by {
                    assert forall|s: crate::store::TrackedSlot|
                        #[trigger] mid.slot_named(world@, slot@)(s) == pre.slot_named(
                            world@,
                            slot@,
                        )(s) by {
                        assert(mid.in_world_named(s.world, world@) == pre.in_world_named(
                            s.world,
                            world@,
                        ));
                    }
                }
            }
        }
        let player = match player {
            Some(player) => player,
            None => {
                return (Reply::plain("Failed to get user"), None);
            },
        };
        match bot.store.add_update(player.id, world, slot, description, now) {
            Ok(()) => (
                Reply::plain(join4("Successfully updated status of ", slot, " in ", world).as_str()),
                Some(Self::announce(display_name, world, slot, description)),
            ),
            Err(_) => (Reply::plain("Failed to update status"), None),
        }
    }
}

impl BulkStatusCommand {
    pub open spec fn command_name() -> Seq<char> {
        "bulk-status"@
    }

    pub fn name() -> (name: &'static str)
        ensures
            name@ == Self::command_name(),
    {
        "bulk-status"
    }

    /// The lines that announce the notes `notes`.
    pub open spec fn announcements(display_name: Seq<char>, notes: Seq<PlannedNote>) -> Seq<Seq<char>> {
        notes.map_values(
            |note: PlannedNote|
                StatusCommand::announcement(display_name, note.world, note.slot, note.description),
        )
    }

    /// Leaves the status notes `entries` of `user` at the time `now`.
    /// Returns the answer and, where all notes were taken, the text that
    /// announces them.
    ///
    /// The notes are taken one after the other. Where a slot is not found,
    /// the notes before it stay and those after it are not taken.
    pub fn execute(
        bot: &mut Bot,
        user: i64,
        user_name: &str,
        display_name: &str,
        entries: &Vec<BulkEntry>,
        now: i64,
    ) -> (reply: (Reply, Option<String>))
        requires
            old(bot).wf(),
        ensures
            final(bot).wf(),
            final(bot).admins == old(bot).admins,
            final(bot).privileged == old(bot).privileged,
            old(bot).store@.within_claim_caps() ==> final(bot).store@.within_claim_caps(),
            old(bot).store@.within_reality_cap() ==> final(bot).store@.within_reality_cap(),
            !reply.0.push_needed,
            exists|mid: StoreView, player: Option<crate::store::Player>|
                {
                    &&& old(bot).store@.gets_player(user, user_name@, mid, player)
                    &&& match player {
                        None => reply.0.text@ == "Failed to get user"@ && reply.1 is None && final(bot).store@ == mid,
                        Some(p) => {
                            let plan = mid.bulk_plan(entries@, entries@.len() as int);
                            &&& final(bot).store@ == (StoreView {
                                updates: final(bot).store@.updates,
                                ..mid
                            })
                            &&& final(bot).store@.updates.len() == mid.updates.len()
                                + plan.notes.len()
                            &&& final(bot).store@.updates.take(mid.updates.len() as int)
                                == mid.updates
                            &&& forall|i: int|
                                0 <= i < plan.notes.len() ==> crate::slots::is_note(
                                    #[trigger] final(bot).store@.updates[mid.updates.len() + i],
                                    plan.notes[i].slot_id,
                                    p.id,
                                    now,
                                    plan.notes[i].description,
                                )
                            &&& match plan.failed {
                                Some((world, slot)) => reply.0.text@ == "Failed to get slot "@
                                    + slot + " in "@ + world && reply.1 is None,
                                None => {
                                    let lines = Self::announcements(display_name@, plan.notes);
                                    &&& reply.0.text@ == "Successfully updated status of slots"@
                                    &&& reply.1 matches Some(text) && text@ == lines_text(
                                        lines,
                                        0,
                                        lines.len() as int,
                                    )
                                },
                            }
                        },
                    }
                },
    {
        let ghost pre = bot.store@;
        let player = bot.store.get_player(user, user_name);
        let ghost mid = bot.store@;
        proof {
            assert(pre.gets_player(user, user_name@, mid, player));
        }
        let player = match player {
            Some(player) => player,
            None => {
                return (Reply::plain("Failed to get user"), None);
            },
        };
        let mut lines: Vec<String> = Vec::new();
        let mut active: Option<String> = None;
        let mut n: usize = 0;
        proof {
            assert(texts(lines@) =~= Self::announcements(display_name@, Seq::empty()));
            assert(bot.store@.updates.take(mid.updates.len() as int) =~= mid.updates);
        }
        while n < entries.len()
            invariant
                n <= entries@.len(),
                bot.wf(),
                bot.admins == old(bot).admins,
                bot.privileged == old(bot).privileged,
                pre == old(bot).store@,
                pre.gets_player(user, user_name@, mid, Some(player)),
                pre.within_claim_caps() ==> bot.store@.within_claim_caps(),
                pre.within_reality_cap() ==> bot.store@.within_reality_cap(),
                mid.bulk_plan(entries@, n as int).failed is None,
                match (active, mid.bulk_plan(entries@, n as int).active) {
                    (Some(name), Some(world)) => name@ == world,
                    (None, None) => true,
                    _ => false,
                },
                bot.store@ == (StoreView { updates: bot.store@.updates, ..mid }),
                bot.store@.updates.len() == mid.updates.len() + mid.bulk_plan(
                    entries@,
                    n as int,
                ).notes.len(),
                bot.store@.updates.take(mid.updates.len() as int) == mid.updates,
                forall|i: int|
                    0 <= i < mid.bulk_plan(entries@, n as int).notes.len() ==> crate::slots::is_note(
                        #[trigger] bot.store@.updates[mid.updates.len() + i],
                        mid.bulk_plan(entries@, n as int).notes[i].slot_id,
                        player.id,
                        now,
                        mid.bulk_plan(entries@, n as int).notes[i].description,
                    ),
                texts(lines@) == Self::announcements(
                    display_name@,
                    mid.bulk_plan(entries@, n as int).notes,
                ),
            decreases entries@.len() - n,
        {
            let ghost before = mid.bulk_plan(entries@, n as int);
            let ghost after = mid.bulk_plan(entries@, n + 1);
            let ghost shown = texts(lines@);
            let ghost held = bot.store@;
            let entry = &entries[n];
            match &entry.world {
                Some(world) => {
                    active = Some(world.clone());
                },
                None => {},
            }
            match (&active, &entry.slot, &entry.description) {
                (Some(world), Some(slot), Some(description)) => {
                    proof {
                        assert(held.tracked_slots == mid.tracked_slots);
                        assert(held.tracked_worlds == mid.tracked_worlds);
                        assert(held.slot_named(world@, slot@) =~= mid.slot_named(world@, slot@)) by {
                            assert forall|s: crate::store::TrackedSlot|
                                #[trigger] held.slot_named(world@, slot@)(s) == mid.slot_named(
                                    world@,
                                    slot@,
                                )(s) by {
                                assert(held.in_world_named(s.world, world@) == mid.in_world_named(
                                    s.world,
                                    world@,
                                ));
                            }
                        }
                    }
                    match bot.store.add_update(
                        player.id,
                        world.as_str(),
                        slot.as_str(),
                        description.as_str(),
                        now,
                    ) {
                        Ok(()) => {
                            let line = StatusCommand::announce(
                                display_name,
                                world.as_str(),
                                slot.as_str(),
                                description.as_str(),
                            );
                            lines.push(line);
                            proof {
                                let count = before.notes.len() as int;
                                assert(texts(lines@) =~= shown.push(line@));
                                assert(texts(lines@) =~= Self::announcements(
                                    display_name@,
                                    after.notes,
                                ));
                                assert(bot.store@.updates.take(mid.updates.len() as int)
                                    =~= mid.updates);
                                assert forall|i: int| 0 <= i < after.notes.len() implies crate::slots::is_note(
                                    #[trigger] bot.store@.updates[mid.updates.len() + i],
                                    after.notes[i].slot_id,
                                    player.id,
                                    now,
                                    after.notes[i].description,
                                ) by {
                                    if i < count {
                                        assert(bot.store@.updates[mid.updates.len() + i]
                                            == held.updates[mid.updates.len() + i]);
                                        assert(after.notes[i] == before.notes[i]);
                                    }
                                }
                            }
                        },
                        Err(_) => {
                            let text = join4(
                                "Failed to get slot ",
                                slot.as_str(),
                                " in ",
                                world.as_str(),
                            );
                            proof {
                                lemma_bulk_plan_fails(mid, entries@, n as int + 1, entries@.len() as int);
                            }
                            return (Reply::plain(text.as_str()), None);
                        },
                    }
                },
                _ => {},
            }
            n += 1;
        }
        let text = join_lines(&lines, 0, lines.len());
        (Reply::plain("Successfully updated status of slots"), Some(text))
    }
}

/// Once a slot was not found, the entries after it change nothing.
pub proof fn lemma_bulk_plan_fails(store: StoreView, entries: Seq<BulkEntry>, n: int, m: int)
    requires
        0 <= n <= m,
        store.bulk_plan(entries, n).failed is Some,
    ensures
        store.bulk_plan(entries, m) == store.bulk_plan(entries, n),
    decreases m,
{
    if n < m {
        lemma_bulk_plan_fails(store, entries, n, m - 1);
    }
}

} // verus!
