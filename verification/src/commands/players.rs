//! Commands on players, and commands that only look.

use vstd::prelude::*;

use crate::commands::{no_permission, slot_required, world_required, Bot, Reply};
use crate::overview::Overview;
use crate::store::{Player, Store, StoreView};
use crate::text::{join3, join4, signed_decimal, signed_text};

verus! {

/// Says who holds a slot.
pub struct FindCommand {}

/// Shows all worlds at a glance.
pub struct WorldsCommand {}

/// Passes the points that a player earns on to another player.
pub struct TransferPointsCommand {}

/// Makes the commands known to the chat platform.
pub struct RegisterCommandsCommand {}

/// Shows the slots that nobody holds.
pub struct UnclaimedCommand {}

impl StoreView {
    /// A player who passes earned points on to `target` if known outside
    /// as `snowflake`, and is as before if not.
    pub open spec fn passing_on(self, snowflake: i64, target: Option<i64>) -> spec_fn(Player) -> Player {
        |p: Player|
            if p.snowflake == snowflake {
                Player { transfer_to: target, ..p }
            } else {
                p
            }
    }

    /// The tables after the player known outside as `snowflake` began to
    /// pass earned points on to `target`, or stopped to.
    pub open spec fn after_transfer(self, snowflake: i64, target: Option<i64>) -> StoreView {
        StoreView { players: self.players.map_values(self.passing_on(snowflake, target)), ..self }
    }

    /// A player with `unspent` unspent points if the name is `name`, and
    /// as before if not.
    pub open spec fn with_unspent(self, name: Seq<char>, unspent: i64) -> spec_fn(Player) -> Player {
        |p: Player|
            if p.name@ == name {
                Player { unspent_points: unspent, ..p }
            } else {
                p
            }
    }

    /// The tables after the players with the name `name` were found to
    /// have `unspent` unspent points.
    pub open spec fn after_unspent(self, name: Seq<char>, unspent: i64) -> StoreView {
        StoreView { players: self.players.map_values(self.with_unspent(name, unspent)), ..self }
    }

    /// Noting unspent points leaves the tables consistent.
    pub proof fn lemma_unspent_keeps_wf(self, name: Seq<char>, unspent: i64)
        requires
            self.wf(),
        ensures
            self.after_unspent(name, unspent).wf(),
            self.within_claim_caps() ==> self.after_unspent(name, unspent).within_claim_caps(),
            self.within_reality_cap() ==> self.after_unspent(name, unspent).within_reality_cap(),
    {
        let post = self.after_unspent(name, unspent);
        assert(post.ids_issued()) by {
            assert forall|i: int| 0 <= i < post.players.len() implies (#[trigger] post.players[i]).id
                < post.next_id by {
                assert(self.players[i].id < self.next_id);
            }
        }
        assert(post.points_valid()) by {
            assert forall|i: int| 0 <= i < post.players.len() implies (
            #[trigger] post.players[i]).points >= 0 by {
                assert(self.players[i].points >= 0);
            }
        }
        self.lemma_same_claims_keep_caps(post);
    }

    /// Passing points on leaves the tables consistent.
    pub proof fn lemma_transfer_keeps_wf(self, snowflake: i64, target: Option<i64>)
        requires
            self.wf(),
        ensures
            self.after_transfer(snowflake, target).wf(),
            self.within_claim_caps() ==> self.after_transfer(snowflake, target).within_claim_caps(),
            self.within_reality_cap() ==> self.after_transfer(
                snowflake,
                target,
            ).within_reality_cap(),
    {
        let post = self.after_transfer(snowflake, target);
        assert(post.ids_issued()) by {
            assert forall|i: int| 0 <= i < post.players.len() implies (#[trigger] post.players[i]).id
                < post.next_id by {
                assert(self.players[i].id < self.next_id);
            }
        }
        assert(post.points_valid()) by {
            assert forall|i: int| 0 <= i < post.players.len() implies (
            #[trigger] post.players[i]).points >= 0 by {
                assert(self.players[i].points >= 0);
            }
        }
        self.lemma_same_claims_keep_caps(post);
    }
}

impl Store {
    /// Lets the player known outside as `snowflake` pass earned points on
    /// to the player `target`, or keep them with `None`.
    pub fn set_transfer(&mut self, snowflake: i64, target: Option<i64>)
        requires
            old(self).wf(),
        ensures
            final(self)@ == old(self)@.after_transfer(snowflake, target),
            final(self).wf(),
            old(self)@.within_claim_caps() ==> final(self)@.within_claim_caps(),
            old(self)@.within_reality_cap() ==> final(self)@.within_reality_cap(),
    {
        proof {
            self@.lemma_transfer_keeps_wf(snowflake, target);
        }
        let ghost f = self@.passing_on(snowflake, target);
        let mut rows: Vec<Player> = Vec::new();
        let mut i: usize = 0;
        proof {
            assert(rows@ =~= self.players@.take(0).map_values(f));
        }
        while i < self.players.len()
            invariant
                i <= self.players@.len(),
                f == self@.passing_on(snowflake, target),
                rows@ == self.players@.take(i as int).map_values(f),
            decreases self.players@.len() - i,
        {
            let mut row = self.players[i].duplicate();
            if row.snowflake == snowflake {
                row.transfer_to = target;
            }
            proof {
                assert(row == f(self.players@[i as int]));
            }
            rows.push(row);
            proof {
                assert(rows@ =~= self.players@.take(i + 1).map_values(f));
            }
            i += 1;
        }
        proof {
            assert(self.players@.take(i as int) =~= self.players@);
        }
        self.players = rows;
    }
}

impl Store {
    /// Notes that the players with the name `name` have `unspent` unspent
    /// points.
    pub fn set_unspent_points(&mut self, name: &str, unspent: i64)
        requires
            old(self).wf(),
        ensures
            final(self)@ == old(self)@.after_unspent(name@, unspent),
            final(self).wf(),
            old(self)@.within_claim_caps() ==> final(self)@.within_claim_caps(),
            old(self)@.within_reality_cap() ==> final(self)@.within_reality_cap(),
    {
        let wanted = name.to_owned();
        proof {
            self@.lemma_unspent_keeps_wf(name@, unspent);
        }
        let ghost f = self@.with_unspent(name@, unspent);
        let mut rows: Vec<Player> = Vec::new();
        let mut i: usize = 0;
        proof {
            assert(rows@ =~= self.players@.take(0).map_values(f));
        }
        while i < self.players.len()
            invariant
                i <= self.players@.len(),
                wanted@ == name@,
                f == self@.with_unspent(name@, unspent),
                rows@ == self.players@.take(i as int).map_values(f),
            decreases self.players@.len() - i,
        {
            let mut row = self.players[i].duplicate();
            if row.name == wanted {
                row.unspent_points = unspent;
            }
            proof {
                assert(row == f(self.players@[i as int]));
            }
            rows.push(row);
            proof {
                assert(rows@ =~= self.players@.take(i + 1).map_values(f));
            }
            i += 1;
        }
        proof {
            assert(self.players@.take(i as int) =~= self.players@);
        }
        self.players = rows;
    }
}

impl FindCommand {
    pub open spec fn command_name() -> Seq<char> {
        "find"@
    }

    pub fn name() -> (name: &'static str)
        ensures
            name@ == Self::command_name(),
    {
        "find"
    }

    /// The answer to who holds the slot `slot` of the world `world`.
    pub open spec fn answer(store: StoreView, world: Seq<char>, slot: Seq<char>) -> Seq<char> {
        if world.len() == 0 {
            world_required()
        } else if slot.len() == 0 {
            slot_required()
        } else {
            match store.named_slot(world, slot) {
                None => "Failed to find slot"@,
                Some(s) => match store.claimant(s.id) {
                    None => "Failed to find player"@,
                    Some(snowflake) => slot + " in "@ + world + " is claimed by <@"@
                        + signed_decimal(snowflake as int) + ">"@,
                },
            }
        }
    }

    /// Says who holds the slot `slot` of the world `world`.
    pub fn execute(bot: &Bot, world: &str, slot: &str) -> (reply: Reply)
        ensures
            reply.text@ == Self::answer(bot.store@, world@, slot@),
            !reply.push_needed,
    {
        if world.is_empty() {
            return Reply::plain("A world is required");
        }
        if slot.is_empty() {
            return Reply::plain("A slot is required");
        }
        let world_name = world.to_owned();
        let slot_name = slot.to_owned();
        let at = match bot.store.find_named_slot(&world_name, &slot_name) {
            Some(at) => at,
            None => {
                return Reply::plain("Failed to find slot");
            },
        };
        match bot.store.claimant_of(bot.store.tracked_slots[at].id) {
            Some(snowflake) => {
                let digits = signed_text(snowflake);
                let mut text = join4(slot, " in ", world, " is claimed by <@");
                text.append(digits.as_str());
                text.append(">");
                Reply::plain(text.as_str())
            },
            None => Reply::plain("Failed to find player"),
        }
    }
}

impl WorldsCommand {
    pub open spec fn command_name() -> Seq<char> {
        "worlds"@
    }

    pub fn name() -> (name: &'static str)
        ensures
            name@ == Self::command_name(),
    {
        "worlds"
    }

    /// All worlds at a glance, as the overview shows them one after the
    /// other: first the worlds that wait to be tracked and then the
    /// tracked ones.
    pub fn execute(bot: &Bot) -> (worlds: Vec<Overview>)
        ensures
            worlds@.len() == bot.store@.worlds.len() + bot.store@.tracked_worlds.len(),
            forall|k: int|
                0 <= k < bot.store@.worlds.len() ==> bot.store@.is_preclaim_overview(
                    k,
                    #[trigger] worlds@[k],
                ),
            forall|k: int|
                0 <= k < bot.store@.tracked_worlds.len() ==> bot.store@.is_tracked_overview(
                    k,
                    #[trigger] worlds@[bot.store@.worlds.len() + k],
                ),
    {
        bot.store.overview()
    }
}

impl TransferPointsCommand {
    pub open spec fn command_name() -> Seq<char> {
        "transfer-points"@
    }

    pub fn name() -> (name: &'static str)
        ensures
            name@ == Self::command_name(),
    {
        "transfer-points"
    }

    /// Lets `user` pass earned points on to the player known outside as
    /// `target`, or keep them where no target is given.
    pub fn execute(bot: &mut Bot, user: i64, target: Option<i64>) -> (reply: Reply)
        requires
            old(bot).wf(),
        ensures
            final(bot).wf(),
            final(bot).admins == old(bot).admins,
            final(bot).privileged == old(bot).privileged,
            old(bot).store@.within_claim_caps() ==> final(bot).store@.within_claim_caps(),
            old(bot).store@.within_reality_cap() ==> final(bot).store@.within_reality_cap(),
            !reply.push_needed,
            match target {
                None => reply.text@ == "You are no longer transferring your earned points"@
                    && final(bot).store@ == old(bot).store@.after_transfer(user, None),
                Some(snowflake) => match old(bot).store@.player_known(snowflake) {
                    None => reply.text@ == "Failed to get recipient"@ && final(bot).store@ == old(bot).store@,
                    Some(p) => reply.text@ == "Began transferring points to <@"@ + signed_decimal(
                        snowflake as int,
                    ) + ">"@ && final(bot).store@ == old(bot).store@.after_transfer(
                        user,
                        Some(p.id),
                    ),
                },
            },
    {
        match target {
            Some(snowflake) => {
                match bot.store.find_player(snowflake) {
                    Some(i) => {
                        let id = bot.store.players[i].id;
                        bot.store.set_transfer(user, Some(id));
                        let digits = signed_text(snowflake);
                        Reply::plain(
                            join3("Began transferring points to <@", digits.as_str(), ">").as_str(),
                        )
                    },
                    None => Reply::plain("Failed to get recipient"),
                }
            },
            None => {
                bot.store.set_transfer(user, None);
                Reply::plain("You are no longer transferring your earned points")
            },
        }
    }
}

impl UnclaimedCommand {
    pub open spec fn command_name() -> Seq<char> {
        "unclaimed"@
    }

    pub fn name() -> (name: &'static str)
        ensures
            name@ == Self::command_name(),
    {
        "unclaimed"
    }

    /// The tracked worlds with slots that nobody holds, and the page on
    /// which the world `world` begins when a page holds `page_size` slots:
    /// the first page where no world is named.
    pub fn execute(bot: &Bot, world: &str, page_size: usize) -> (shown: Result<
        (Vec<crate::paginate::UnclaimedWorld>, usize),
        Reply,
    >)
        requires
            page_size > 0,
        ensures
            match shown {
                Ok((worlds, page)) => {
                    &&& worlds@.len() > 0
                    &&& bot.store@.lists_unclaimed(worlds@)
                    &&& page == if world@.len() == 0 {
                        0
                    } else {
                        crate::paginate::pages_before(
                            worlds@,
                            world@,
                            worlds@.len() as int,
                            page_size as int,
                        )
                    }
                },
                Err(reply) => reply.text@ == "There are no worlds with unclaimed slots"@
                    && !reply.push_needed,
            },
    {
        let worlds = bot.store.unclaimed_worlds();
        if worlds.len() == 0 {
            return Err(Reply::plain("There are no worlds with unclaimed slots"));
        }
        let page = if world.is_empty() {
            0
        } else {
            match crate::paginate::start_page(&worlds, world, page_size) {
                Some(page) => page,
                None => {
                    return Err(Reply::plain("There are no worlds with unclaimed slots"));
                },
            }
        };
        Ok((worlds, page))
    }
}

impl RegisterCommandsCommand {
    pub open spec fn command_name() -> Seq<char> {
        "register-commands"@
    }

    pub fn name() -> (name: &'static str)
        ensures
            name@ == Self::command_name(),
    {
        "register-commands"
    }

    /// Whether `user` may make the commands known: only organizers may.
    pub fn check(bot: &Bot, user: i64) -> (refused: Option<Reply>)
        ensures
            if bot.admins@.contains(user) {
                refused is None
            } else {
                refused matches Some(reply) && reply.text@ == no_permission() && !reply.push_needed
            },
    {
        if bot.is_admin(user) {
            None
        } else {
            Some(Reply::plain("You do not have permission to use this command"))
        }
    }

    /// The answer once the commands were made known, or could not be.
    pub fn answer(registered: bool) -> (reply: Reply)
        ensures
            !reply.push_needed,
            reply.text@ == if registered {
                "Successfully registered commands"@
            } else {
                "Failed to register commands"@
            },
    {
        if registered {
            Reply::plain("Successfully registered commands")
        } else {
            Reply::plain("Failed to register commands")
        }
    }
}

} // verus!
