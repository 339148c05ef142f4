//! The commands of the event, as players and organizers give them.
//!
//! Every command checks what it was given, changes the tables through the
//! operations of the store, and answers with a text.

pub mod claims;
pub mod players;
pub mod preclaims;
pub mod worlds;

use vstd::prelude::*;

use crate::store::Store;

verus! {

/// The tables of the event and who may organize it.
#[derive(Debug, Clone)]
pub struct Bot {
    pub store: Store,
    /// The organizers, as they are known outside.
    pub admins: Vec<i64>,
    /// The players who may mark slots as done, as they are known outside.
    pub privileged: Vec<i64>,
}

/// The answer to a command.
#[derive(Debug, Clone)]
pub struct Reply {
    pub text: String,
    /// Whether the summary that is kept outside is stale now.
    pub push_needed: bool,
}

/// The answer to whoever may not give a command.
pub open spec fn no_permission() -> Seq<char> {
    "You do not have permission to use this command"@
}

/// The answer to a command that lacks its world.
pub open spec fn world_required() -> Seq<char> {
    "A world is required"@
}

/// The answer to a command that lacks the name of its world.
pub open spec fn world_name_required() -> Seq<char> {
    "A world name is required"@
}

/// The answer to a command that lacks its slot.
pub open spec fn slot_required() -> Seq<char> {
    "A slot is required"@
}

impl Reply {
    /// An answer that leaves the summary outside as it is.
    pub fn plain(text: &str) -> (reply: Reply)
        ensures
            reply.text@ == text@,
            !reply.push_needed,
    {
        Reply { text: text.to_owned(), push_needed: false }
    }

    /// An answer to a command that made the summary outside stale.
    pub fn pushing(text: String) -> (reply: Reply)
        ensures
            reply.text == text,
            reply.push_needed,
    {
        Reply { text, push_needed: true }
    }
}

impl Bot {
    /// The tables are consistent.
    pub open spec fn wf(self) -> bool {
        self.store.wf()
    }

    /// A bot with empty tables.
    pub fn new(admins: Vec<i64>, privileged: Vec<i64>) -> (bot: Bot)
        ensures
            bot.wf(),
            bot.admins == admins,
            bot.privileged == privileged,
            bot.store@.claims.len() == 0,
    {
        Bot { store: Store::new(), admins, privileged }
    }

    /// Whether `user` is an organizer.
    pub fn is_admin(&self, user: i64) -> (admin: bool)
        ensures
            admin == self.admins@.contains(user),
    {
        crate::admission::contains_id(&self.admins, user)
    }

    /// Whether `user` may mark slots as done.
    pub fn is_privileged(&self, user: i64) -> (privileged: bool)
        ensures
            privileged == self.privileged@.contains(user),
    {
        crate::admission::contains_id(&self.privileged, user)
    }
}

} // verus!
