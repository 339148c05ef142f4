//! Commands on preclaims.

use vstd::prelude::*;

use crate::commands::{no_permission, world_name_required, world_required, Bot, Reply};
use crate::finish::player_with_id;
use crate::resolver::{is_draw, resolve_preclaims};
use crate::store::{first_index, lemma_first_index};
use crate::store::{Store, StoreView};
use crate::text::{join2, join3, join5, join_lines, lines_text, signed_decimal, signed_text};
use crate::worlds::PreclaimError;

verus! {

/// Resolves the preclaims of a world and names the winners.
pub struct GetPreclaimsCommand {}

/// Removes a world that waits to be tracked.
pub struct CancelPreclaimsCommand {}

/// Moves the end of the preclaims of a world.
pub struct ReschedulePreclaimsCommand {}

/// Takes back the preclaims of a player.
pub struct UnpreclaimCommand {}

/// Shows the worlds that accept preclaims, and takes preclaims.
pub struct ViewPreclaimsCommand {}

/// The text that tells a time to a reader in the reader's own time zone.
pub open spec fn time_tag(seconds: i64) -> Seq<char> {
    "<t:"@ + signed_decimal(seconds as int) + ":f>"@
}

/// Writes [`time_tag`].
pub fn time_text(seconds: i64) -> (text: String)
    ensures
        text@ == time_tag(seconds),
{
    let digits = signed_text(seconds);
    join3("<t:", digits.as_str(), ":f>")
}

impl StoreView {
    /// How the player with the id `player` is known outside.
    pub open spec fn snowflake_of(self, player: i64) -> Option<i64> {
        let i = first_index(self.players, player_with_id(player));
        if i < self.players.len() {
            Some(self.players[i].snowflake)
        } else {
            None
        }
    }

    /// The line that tells a winner of the slot won, if the slot and the
    /// player are known.
    pub open spec fn winner_line(self, winner: (i64, i64)) -> Option<Seq<char>> {
        match (self.pre_slot(winner.0), self.snowflake_of(winner.1)) {
            (Some(slot), Some(snowflake)) => Some(
                "<@"@ + signed_decimal(snowflake as int) + "> "@ + slot.name@ + " is yours"@,
            ),
            _ => None,
        }
    }

    /// The lines that tell the first `n` of `winners` of the slots won.
    pub open spec fn winner_lines(self, winners: Seq<(i64, i64)>, n: int) -> Seq<Seq<char>>
        decreases n,
    {
        if n <= 0 {
            Seq::empty()
        } else {
            match self.winner_line(winners[n - 1]) {
                Some(line) => self.winner_lines(winners, n - 1).push(line),
                None => self.winner_lines(winners, n - 1),
            }
        }
    }

    /// The answer that names `winners`.
    pub open spec fn winners_text(self, winners: Seq<(i64, i64)>) -> Seq<char> {
        if winners.len() == 0 {
            "World had no preclaims"@
        } else {
            let lines = self.winner_lines(winners, winners.len() as int);
            "```\n"@ + lines_text(lines, 0, lines.len() as int) + "\n```"@
        }
    }
}

impl Store {
    /// Computes [`StoreView::snowflake_of`].
    pub fn snowflake_of_player(&self, player: i64) -> (snowflake: Option<i64>)
        ensures
            snowflake == self@.snowflake_of(player),
    {
        let mut i: usize = 0;
        while i < self.players.len()
            invariant
                i <= self.players@.len(),
                forall|j: int| 0 <= j < i ==> !player_with_id(player)(#[trigger] self.players@[j]),
            decreases self.players@.len() - i,
        {
            if self.players[i].id == player {
                proof {
                    lemma_first_index(self.players@, player_with_id(player), i as int);
                }
                return Some(self.players[i].snowflake);
            }
            i += 1;
        }
        proof {
            lemma_first_index(self.players@, player_with_id(player), i as int);
        }
        None
    }

    /// Finds the slot with the id `slot` of a world that waits to be
    /// tracked.
    pub fn find_pre_slot(&self, slot: i64) -> (found: Option<usize>)
        ensures
            match found {
                Some(j) => j < self.slots@.len() && self@.pre_slot(slot) == Some(
                    self.slots@[j as int],
                ),
                None => self@.pre_slot(slot) is None,
            },
    {
        let mut j: usize = 0;
        while j < self.slots.len()
            invariant
                j <= self.slots@.len(),
                forall|i: int|
                    0 <= i < j ==> !crate::resolver::pre_slot_with_id(slot)(
                        #[trigger] self.slots@[i],
                    ),
            decreases self.slots@.len() - j,
        {
            if self.slots[j].id == slot {
                proof {
                    lemma_first_index(
                        self.slots@,
                        crate::resolver::pre_slot_with_id(slot),
                        j as int,
                    );
                }
                return Some(j);
            }
            j += 1;
        }
        proof {
            lemma_first_index(self.slots@, crate::resolver::pre_slot_with_id(slot), j as int);
        }
        None
    }

    /// Writes the answer that names `winners`: one line for every winner
    /// whose slot and player are known.
    pub fn announce_winners(&self, winners: &Vec<(i64, i64)>) -> (text: String)
        ensures
            text@ == self@.winners_text(winners@),
    {
        if winners.len() == 0 {
            return "World had no preclaims".to_owned();
        }
        let mut lines: Vec<String> = Vec::new();
        let mut n: usize = 0;
        proof {
            assert(crate::text::texts(lines@) =~= self@.winner_lines(winners@, 0));
        }
        while n < winners.len()
            invariant
                n <= winners@.len(),
                crate::text::texts(lines@) == self@.winner_lines(winners@, n as int),
            decreases winners@.len() - n,
        {
            let ghost before = crate::text::texts(lines@);
            match (self.find_pre_slot(winners[n].0), self.snowflake_of_player(winners[n].1)) {
                (Some(j), Some(snowflake)) => {
                    let digits = signed_text(snowflake);
                    let line = join5(
                        "<@",
                        digits.as_str(),
                        "> ",
                        self.slots[j].name.as_str(),
                        " is yours",
                    );
                    lines.push(line);
                    proof {
                        assert(crate::text::texts(lines@) =~= before.push(line@));
                    }
                },
                _ => {},
            }
            n += 1;
        }
        let body = join_lines(&lines, 0, lines.len());
        join3("```\n", body.as_str(), "\n```")
    }
}

impl GetPreclaimsCommand {
    pub open spec fn command_name() -> Seq<char> {
        "get-preclaims"@
    }

    pub fn name() -> (name: &'static str)
        ensures
            name@ == Self::command_name(),
    {
        "get-preclaims"
    }

    /// Resolves the preclaims of the world `name` at the time `now`, for
    /// an organizer, and names the winners. Preclaims are not resolved
    /// before they end.
    pub fn execute(bot: &mut Bot, user: i64, name: &str, now: i64) -> (reply: Reply)
        requires
            old(bot).wf(),
        ensures
            final(bot).wf(),
            final(bot).admins == old(bot).admins,
            final(bot).privileged == old(bot).privileged,
            old(bot).store@.within_claim_caps() ==> final(bot).store@.within_claim_caps(),
            old(bot).store@.within_reality_cap() ==> final(bot).store@.within_reality_cap(),
            !reply.push_needed,
            if !old(bot).admins@.contains(user) {
                reply.text@ == no_permission() && final(bot).store@ == old(bot).store@
            } else if name@.len() == 0 {
                reply.text@ == world_name_required() && final(bot).store@ == old(bot).store@
            } else {
                match old(bot).store@.pre_world(name@) {
                    None => reply.text@ == "Failed to get world"@ && final(bot).store@ == old(bot).store@,
                    Some(w) => if now < w.preclaim_end {
                        reply.text@ == "Preclaims end at "@ + time_tag(w.preclaim_end) && final(bot).store@ == old(bot).store@
                    } else if w.resolved_preclaims {
                        reply.text@ == old(bot).store@.winners_text(
                            old(bot).store@.won_rows(name@),
                        ) && final(bot).store@ == old(bot).store@
                    } else {
                        exists|winners: Seq<(i64, i64)>|
                            {
                                &&& is_draw(old(bot).store@.contenders(name@), winners)
                                &&& final(bot).store@ == old(bot).store@.after_resolution(
                                    name@,
                                    winners,
                                )
                                &&& reply.text@ == final(bot).store@.winners_text(winners)
                            }
                    },
                }
            },
    {
        if !bot.is_admin(user) {
            return Reply::plain("You do not have permission to use this command");
        }
        if name.is_empty() {
            return Reply::plain("A world name is required");
        }
        let world_name = name.to_owned();
        match bot.store.find_pre_world(&world_name) {
            Some(k) => {
                if now < bot.store.worlds[k].preclaim_end {
                    let end = time_text(bot.store.worlds[k].preclaim_end);
                    return Reply::plain(join2("Preclaims end at ", end.as_str()).as_str());
                }
            },
            None => {
                return Reply::plain("Failed to get world");
            },
        }
        match resolve_preclaims(&mut bot.store, name) {
            Ok(winners) => {
                let text = bot.store.announce_winners(&winners);
                Reply::plain(text.as_str())
            },
            Err(_) => Reply::plain("Failed to resolve preclaims"),
        }
    }
}

impl CancelPreclaimsCommand {
    pub open spec fn command_name() -> Seq<char> {
        "cancel-preclaims"@
    }

    pub fn name() -> (name: &'static str)
        ensures
            name@ == Self::command_name(),
    {
        "cancel-preclaims"
    }

    /// Removes the world `world` that waits to be tracked, for an
    /// organizer.
    pub fn execute(bot: &mut Bot, user: i64, world: &str) -> (reply: Reply)
        requires
            old(bot).wf(),
        ensures
            final(bot).wf(),
            final(bot).admins == old(bot).admins,
            final(bot).privileged == old(bot).privileged,
            old(bot).store@.within_claim_caps() ==> final(bot).store@.within_claim_caps(),
            old(bot).store@.within_reality_cap() ==> final(bot).store@.within_reality_cap(),
            !reply.push_needed,
            if !old(bot).admins@.contains(user) {
                reply.text@ == no_permission() && final(bot).store@ == old(bot).store@
            } else if world@.len() == 0 {
                reply.text@ == world_required() && final(bot).store@ == old(bot).store@
            } else {
                reply.text@ == "Cancelled preclaims for "@ + world@ && final(bot).store@ == old(bot).store@.after_cancel(world@)
            },
    {
        if !bot.is_admin(user) {
            return Reply::plain("You do not have permission to use this command");
        }
        if world.is_empty() {
            return Reply::plain("A world is required");
        }
        bot.store.cancel_preclaims(world);
        Reply::plain(join2("Cancelled preclaims for ", world).as_str())
    }
}

impl ReschedulePreclaimsCommand {
    pub open spec fn command_name() -> Seq<char> {
        "reschedule-preclaims"@
    }

    pub fn name() -> (name: &'static str)
        ensures
            name@ == Self::command_name(),
    {
        "reschedule-preclaims"
    }

    /// Moves the end of the preclaims of the world `world` to
    /// `preclaim_end`, for an organizer. The new end may not lie before
    /// `now`.
    pub fn execute(bot: &mut Bot, user: i64, world: &str, preclaim_end: i64, now: i64) -> (reply:
        Reply)
        requires
            old(bot).wf(),
        ensures
            final(bot).wf(),
            final(bot).admins == old(bot).admins,
            final(bot).privileged == old(bot).privileged,
            old(bot).store@.within_claim_caps() ==> final(bot).store@.within_claim_caps(),
            old(bot).store@.within_reality_cap() ==> final(bot).store@.within_reality_cap(),
            !reply.push_needed,
            if !old(bot).admins@.contains(user) {
                reply.text@ == no_permission() && final(bot).store@ == old(bot).store@
            } else if world@.len() == 0 {
                reply.text@ == world_required() && final(bot).store@ == old(bot).store@
            } else if now > preclaim_end {
                reply.text@ == "The specified preclaim end is in the past"@ && final(bot).store@
                    == old(bot).store@
            } else {
                reply.text@ == "Successfully set preclaims to end at "@ + time_tag(preclaim_end)
                    && final(bot).store@ == (StoreView {
                    worlds: old(bot).store@.worlds_rescheduled(world@, preclaim_end),
                    ..old(bot).store@
                })
            },
    {
        if !bot.is_admin(user) {
            return Reply::plain("You do not have permission to use this command");
        }
        if world.is_empty() {
            return Reply::plain("A world is required");
        }
        if now > preclaim_end {
            return Reply::plain("The specified preclaim end is in the past");
        }
        let _ = bot.store.reschedule_preclaims(world, preclaim_end);
        let end = time_text(preclaim_end);
        Reply::plain(join2("Successfully set preclaims to end at ", end.as_str()).as_str())
    }
}

impl UnpreclaimCommand {
    pub open spec fn command_name() -> Seq<char> {
        "unpreclaim"@
    }

    pub fn name() -> (name: &'static str)
        ensures
            name@ == Self::command_name(),
    {
        "unpreclaim"
    }

    /// Takes back the preclaims of `user` on worlds whose preclaims have
    /// not ended at the time `now`.
    pub fn execute(bot: &mut Bot, user: i64, now: i64) -> (reply: Reply)
        requires
            old(bot).wf(),
        ensures
            final(bot).wf(),
            final(bot).admins == old(bot).admins,
            final(bot).privileged == old(bot).privileged,
            old(bot).store@.within_claim_caps() ==> final(bot).store@.within_claim_caps(),
            old(bot).store@.within_reality_cap() ==> final(bot).store@.within_reality_cap(),
            !reply.push_needed,
            final(bot).store@ == old(bot).store@.after_unpreclaim(user, now),
            reply.text@ == if old(bot).store@.has_open_preclaim(user, now) {
                "Successfully removed preclaim"@
            } else {
                "Failed to remove preclaim"@
            },
    {
        if bot.store.unpreclaim(user, now) {
            Reply::plain("Successfully removed preclaim")
        } else {
            Reply::plain("Failed to remove preclaim")
        }
    }
}

impl ViewPreclaimsCommand {
    pub open spec fn command_name() -> Seq<char> {
        "view-preclaims"@
    }

    pub fn name() -> (name: &'static str)
        ensures
            name@ == Self::command_name(),
    {
        "view-preclaims"
    }

    /// The answer to a preclaim.
    pub open spec fn answer(outcome: Result<(), PreclaimError>) -> Seq<char> {
        match outcome {
            Ok(()) => "Successfully preclaimed slot"@,
            Err(PreclaimError::SlotNotFound) => "Failed to create preclaim"@,
            Err(PreclaimError::AdmissionDenied(denial)) => denial.text(),
        }
    }

    /// Preclaims the slot `slot` for `user`, who is registered as a
    /// player where that is still to be done.
    pub fn select(bot: &mut Bot, user: i64, user_name: &str, slot: i64) -> (reply: Reply)
        requires
            old(bot).wf(),
        ensures
            final(bot).wf(),
            final(bot).admins == old(bot).admins,
            final(bot).privileged == old(bot).privileged,
            old(bot).store@.within_claim_caps() ==> final(bot).store@.within_claim_caps(),
            old(bot).store@.within_reality_cap() ==> final(bot).store@.within_reality_cap(),
            !reply.push_needed,
            exists|mid: StoreView, player: Option<crate::store::Player>|
                {
                    &&& old(bot).store@.gets_player(user, user_name@, mid, player)
                    &&& match player {
                        None => reply.text@ == "Failed to get player"@ && final(bot).store@ == mid,
                        Some(p) => {
                            &&& reply.text@ == Self::answer(mid.preclaim_outcome(p.id, slot))
                            &&& final(bot).store@ == mid.after_preclaim(p.id, slot)
                        },
                    }
                },
    {
        let ghost pre = bot.store@;
        let player = bot.store.get_player(user, user_name);
        proof {
            assert(pre.gets_player(user, user_name@, bot.store@, player));
        }
        let player = match player {
            Some(player) => player,
            None => {
                return Reply::plain("Failed to get player");
            },
        };
        match bot.store.preclaim(player.id, slot) {
            Ok(()) => Reply::plain("Successfully preclaimed slot"),
            Err(PreclaimError::SlotNotFound) => Reply::plain("Failed to create preclaim"),
            Err(PreclaimError::AdmissionDenied(denial)) => Reply::plain(denial.message()),
        }
    }
}

} // verus!
