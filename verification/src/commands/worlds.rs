//! Commands on worlds and realities.

use vstd::prelude::*;

use crate::cells::index_of;
use crate::commands::preclaims::{time_tag, time_text};
use crate::commands::{no_permission, world_name_required, world_required, Bot, Reply};
use crate::points::{decimal, decimal_text};
use crate::store::Store;
use crate::text::{join2, join3, join4, join5, join_lines, lines_text, signed_decimal};
use crate::text::{signed_text, texts};
use crate::tracking::{games_countable, SlotData, TrackError, TrackOptions};
use crate::worlds::{NewWorldError, RealityError};

verus! {

/// Registers a reality.
pub struct NewRealityCommand {}

/// Creates a world that accepts preclaims.
pub struct NewWorldCommand {}

/// Starts to track a world.
pub struct TrackWorldCommand {}

/// Finishes a world.
pub struct FinishWorldCommand {}

/// How many bytes a slot file may have.
pub const MAX_SLOT_FILE: u64 = 1_000_000;

/// How many slots one message on a finished world lists.
pub const COMPLETION_PAGE: usize = 50;

/// The lines of a text: what stands before each line feed, without a
/// carriage return right before the line feed, and what is left behind the
/// last line feed if anything is.
pub open spec fn text_lines(content: Seq<char>) -> Seq<Seq<char>>
    decreases content.len(),
{
    let at = index_of(content, '\n', 0);
    if content.len() == 0 {
        Seq::empty()
    } else if at < 0 || at >= content.len() {
        seq![content]
    } else {
        let line = content.subrange(0, at);
        seq![
            if line.len() > 0 && line.last() == '\r' {
                line.drop_last()
            } else {
                line
            },
        ] + text_lines(content.subrange(at + 1, content.len() as int))
    }
}

/// Calls `lines` of `str` and collects the lines. Nothing is proved of it;
/// it is taken to split the text at its line feeds as the standard library
/// documents: a carriage return right before a line feed goes with the line
/// feed, and a line feed at the very end opens no further line.
#[verifier::external_body]
fn split_lines(content: &str) -> (lines: Vec<String>)
    ensures
        texts(lines@) == text_lines(content@),
{
    content.lines().map(|line| line.to_owned()).collect()
}

/// The entries of a slot file, each as the texts of its four lines.
pub open spec fn entries_texts(entries: Seq<(String, String, String, String)>) -> Seq<
    (Seq<char>, Seq<char>, Seq<char>, Seq<char>),
> {
    entries.map_values(|e: (String, String, String, String)| (e.0@, e.1@, e.2@, e.3@))
}

/// The entries that `lines` make: four lines each, in order, for the name,
/// the games, the notes and the points of a slot. Lines that do not fill
/// an entry are left out.
pub open spec fn grouped(lines: Seq<Seq<char>>) -> Seq<
    (Seq<char>, Seq<char>, Seq<char>, Seq<char>),
> {
    Seq::new(
        (lines.len() / 4) as nat,
        |i: int| (lines[4 * i], lines[4 * i + 1], lines[4 * i + 2], lines[4 * i + 3]),
    )
}

/// Groups the lines of a slot file into its entries.
pub fn group_slots(lines: &Vec<String>) -> (entries: Vec<(String, String, String, String)>)
    ensures
        entries_texts(entries@) == grouped(texts(lines@)),
{
    let mut entries: Vec<(String, String, String, String)> = Vec::new();
    let count = lines.len() / 4;
    let mut i: usize = 0;
    while i < count
        invariant
            i <= count,
            count == lines@.len() / 4,
            lines@.len() <= usize::MAX,
            entries@.len() == i,
            forall|j: int|
                0 <= j < i ==> #[trigger] entries_texts(entries@)[j] == grouped(texts(lines@))[j],
        decreases count - i,
    {
        let ghost before = entries@;
        assert(4 * i + 3 < lines@.len());
        entries.push(
            (
                lines[4 * i].clone(),
                lines[4 * i + 1].clone(),
                lines[4 * i + 2].clone(),
                lines[4 * i + 3].clone(),
            ),
        );
        proof {
            assert forall|j: int| 0 <= j < i + 1 implies #[trigger] entries_texts(entries@)[j]
                == grouped(texts(lines@))[j] by {
                if j < i {
                    assert(entries@[j] == before[j]);
                    assert(entries_texts(before)[j] == grouped(texts(lines@))[j]);
                }
            }
        }
        i += 1;
    }
    proof {
        assert(entries_texts(entries@) =~= grouped(texts(lines@)));
    }
    entries
}

/// Reads a slot file: four lines for every slot.
pub fn parse_slot_file(content: &str) -> (entries: Option<Vec<(String, String, String, String)>>)
    ensures
        entries matches Some(list) && entries_texts(list@) == grouped(text_lines(content@)),
{
    let lines = split_lines(content);
    Some(group_slots(&lines))
}

/// Where the last `/` stands among the first `n` characters of `text`;
/// `-1` if there is none.
pub open spec fn last_slash(text: Seq<char>, n: int) -> int
    decreases n,
{
    if n <= 0 {
        -1
    } else if text[n - 1] == '/' {
        n - 1
    } else {
        last_slash(text, n - 1)
    }
}

/// The id of a tracker that is given by its id or by a link to it: what
/// follows the last `/`.
pub open spec fn tracker_id_of(tracker: Seq<char>) -> Seq<char> {
    tracker.subrange(last_slash(tracker, tracker.len() as int) + 1, tracker.len() as int)
}

/// The last `/` among the first `n` characters stands before `n`.
pub proof fn lemma_last_slash(text: Seq<char>, n: int)
    requires
        0 <= n <= text.len(),
    ensures
        -1 <= last_slash(text, n) < n,
    decreases n,
{
    if n > 0 && text[n - 1] != '/' {
        lemma_last_slash(text, n - 1);
    }
}

/// Computes [`tracker_id_of`].
pub fn tracker_id(tracker: &str) -> (id: String)
    ensures
        id@ == tracker_id_of(tracker@),
{
    let len = tracker.unicode_len();
    let mut n: usize = len;
    while n > 0
        invariant
            n <= len,
            len == tracker@.len(),
            last_slash(tracker@, len as int) == last_slash(tracker@, n as int),
        decreases n,
    {
        if tracker.get_char(n - 1) == '/' {
            return tracker.substring_char(n, len).to_owned();
        }
        n -= 1;
    }
    tracker.substring_char(0, len).to_owned()
}

/// The line of a finished slot: its name and who held it.
pub open spec fn completion_line(entry: (String, Option<i64>)) -> Seq<char> {
    match entry.1 {
        Some(player) => "**"@ + entry.0@ + "** [<@"@ + signed_decimal(player as int) + ">]"@,
        None => "**"@ + entry.0@ + "** [*Unclaimed*]"@,
    }
}

/// The lines of the slots of a finished world.
pub open spec fn completion_lines(report: Seq<(String, Option<i64>)>) -> Seq<Seq<char>> {
    report.map_values(|entry: (String, Option<i64>)| completion_line(entry))
}

/// The messages on a finished world: its slots, fifty to a message.
pub open spec fn completion_pages(report: Seq<(String, Option<i64>)>) -> Seq<Seq<char>> {
    Seq::new(
        ((report.len() + COMPLETION_PAGE - 1) / COMPLETION_PAGE as int) as nat,
        |k: int|
            lines_text(
                completion_lines(report),
                k * COMPLETION_PAGE,
                if (k + 1) * COMPLETION_PAGE < report.len() {
                    (k + 1) * COMPLETION_PAGE
                } else {
                    report.len() as int
                },
            ),
    )
}

/// Writes the messages on a finished world.
pub fn completion_messages(report: &Vec<(String, Option<i64>)>) -> (pages: Vec<String>)
    ensures
        texts(pages@) == completion_pages(report@),
{
    let mut lines: Vec<String> = Vec::new();
    let mut i: usize = 0;
    while i < report.len()
        invariant
            i <= report@.len(),
            lines@.len() == i,
            forall|j: int| 0 <= j < i ==> (#[trigger] lines@[j])@ == completion_line(report@[j]),
        decreases report@.len() - i,
    {
        let line = match report[i].1 {
            Some(player) => {
                let digits = signed_text(player);
                join5("**", report[i].0.as_str(), "** [<@", digits.as_str(), ">]")
            },
            None => join3("**", report[i].0.as_str(), "** [*Unclaimed*]"),
        };
        lines.push(line);
        i += 1;
    }
    proof {
        assert(texts(lines@) =~= completion_lines(report@));
    }
    let mut pages: Vec<String> = Vec::new();
    let total = lines.len();
    let count = if total == 0 {
        0
    } else {
        (total - 1) / COMPLETION_PAGE + 1
    };
    let mut k: usize = 0;
    while k < count
        invariant
            k <= count,
            total == report@.len(),
            total == lines@.len(),
            count == (total + COMPLETION_PAGE - 1) / COMPLETION_PAGE as int,
            texts(lines@) == completion_lines(report@),
            pages@.len() == k,
            forall|j: int|
                0 <= j < k ==> (#[trigger] pages@[j])@ == completion_pages(report@)[j],
        decreases count - k,
    {
        assert(k * COMPLETION_PAGE < total);
        let from = k * COMPLETION_PAGE;
        let to = if total - from > COMPLETION_PAGE {
            from + COMPLETION_PAGE
        } else {
            total
        };
        let page = join_lines(&lines, from, to);
        pages.push(page);
        k += 1;
    }
    proof {
        assert(texts(pages@) =~= completion_pages(report@));
    }
    pages
}

impl NewRealityCommand {
    pub open spec fn command_name() -> Seq<char> {
        "new-reality"@
    }

    pub fn name() -> (name: &'static str)
        ensures
            name@ == Self::command_name(),
    {
        "new-reality"
    }

    /// Registers the reality `name` with room for `max_claims` claims per
    /// player, for an organizer.
    pub fn execute(bot: &mut Bot, user: i64, name: &str, max_claims: i64) -> (reply: Reply)
        requires
            old(bot).wf(),
        ensures
            final(bot).wf(),
            final(bot).admins == old(bot).admins,
            final(bot).privileged == old(bot).privileged,
            old(bot).store@.within_claim_caps() ==> final(bot).store@.within_claim_caps(),
            old(bot).store@.within_reality_cap() ==> final(bot).store@.within_reality_cap(),
            !reply.push_needed,
            if !old(bot).admins@.contains(user) {
                reply.text@ == no_permission() && final(bot).store@ == old(bot).store@
            } else if name@.len() == 0 {
                reply.text@ == world_name_required() && final(bot).store@ == old(bot).store@
            } else if max_claims < 1 {
                reply.text@ == "Max claims must be a positive integer"@ && final(bot).store@ == old(bot).store@
            } else if old(bot).store@.next_id >= i64::MAX {
                reply.text@ == "Failed to create new world"@ && final(bot).store@ == old(bot).store@
            } else {
                &&& reply.text@ == "Created new reality "@ + name@ + " with a claim limit of "@
                    + signed_decimal(max_claims as int)
                &&& final(bot).store@.realities.len() == old(bot).store@.realities.len() + 1
                &&& final(bot).store@.realities.last().name@ == name@
                &&& final(bot).store@.realities.last().reality == (crate::store::Reality {
                    id: old(bot).store.next_id,
                    max_claims,
                })
                &&& final(bot).store@ == old(bot).store@.with_reality(
                    final(bot).store@.realities.last(),
                )
            },
    {
        if !bot.is_admin(user) {
            return Reply::plain("You do not have permission to use this command");
        }
        if name.is_empty() {
            return Reply::plain("A world name is required");
        }
        match bot.store.new_reality(name, max_claims) {
            Ok(_) => {
                let limit = signed_text(max_claims);
                Reply::plain(
                    join4(
                        "Created new reality ",
                        name,
                        " with a claim limit of ",
                        limit.as_str(),
                    ).as_str(),
                )
            },
            Err(RealityError::InvalidMaxClaims) => Reply::plain(
                "Max claims must be a positive integer",
            ),
            Err(RealityError::Exhausted) => Reply::plain("Failed to create new world"),
        }
    }
}

/// What came of fetching a slot file.
pub enum SlotFile {
    FetchFailed,
    Content(String),
}

/// What came of reading a tracker.
pub enum Reading {
    FetchFailed,
    ParseFailed,
    Parsed(Vec<(String, SlotData)>),
}

impl NewWorldCommand {
    pub open spec fn command_name() -> Seq<char> {
        "new-world"@
    }

    pub fn name() -> (name: &'static str)
        ensures
            name@ == Self::command_name(),
    {
        "new-world"
    }

    /// Why a new world is refused before its slot file is fetched, if
    /// it is.
    pub open spec fn refusal(
        bot: Bot,
        user: i64,
        name: Seq<char>,
        reality: Option<Seq<char>>,
        preclaim_end: i64,
        now: i64,
        file_size: Option<u64>,
    ) -> Option<Seq<char>> {
        if !bot.admins@.contains(user) {
            Some(no_permission())
        } else if name.len() == 0 {
            Some(world_name_required())
        } else if reality matches Some(r) && bot.store@.reality_by_name(r) is None {
            Some("Failed to get reality"@)
        } else if now > preclaim_end {
            Some("The specified preclaim end is in the past"@)
        } else if file_size is None {
            Some("Slot file does not exist"@)
        } else if file_size->0 > MAX_SLOT_FILE {
            Some("Slot file is too large"@)
        } else {
            None
        }
    }

    /// Checks a new world before its slot file is fetched: whoever asks
    /// must be an organizer, the world needs a name, the reality must be
    /// known, the preclaims may not end before `now`, and the slot file
    /// must be there and not too large.
    pub fn check(
        bot: &Bot,
        user: i64,
        name: &str,
        reality: Option<&str>,
        preclaim_end: i64,
        now: i64,
        file_size: Option<u64>,
    ) -> (refused: Option<Reply>)
        ensures
            match Self::refusal(
                *bot,
                user,
                name@,
                match reality {
                    Some(r) => Some(r@),
                    None => None,
                },
                preclaim_end,
                now,
                file_size,
            ) {
                Some(text) => refused matches Some(reply) && reply.text@ == text
                    && !reply.push_needed,
                None => refused is None,
            },
    {
        if !bot.is_admin(user) {
            return Some(Reply::plain("You do not have permission to use this command"));
        }
        if name.is_empty() {
            return Some(Reply::plain("A world name is required"));
        }
        match reality {
            Some(r) => {
                let reality_name = r.to_owned();
                if bot.store.find_reality(&reality_name).is_none() {
                    return Some(Reply::plain("Failed to get reality"));
                }
            },
            None => {},
        }
        if now > preclaim_end {
            return Some(Reply::plain("The specified preclaim end is in the past"));
        }
        match file_size {
            None => Some(Reply::plain("Slot file does not exist")),
            Some(size) => if size > MAX_SLOT_FILE {
                Some(Reply::plain("Slot file is too large"))
            } else {
                None
            },
        }
    }

    /// The text that announces a new world with `slots` slots.
    pub open spec fn announcement(
        name: Seq<char>,
        slots: nat,
        reality: Option<Seq<char>>,
        preclaim_end: i64,
        ping: bool,
        message: Option<Seq<char>>,
    ) -> Seq<char> {
        (if ping {
            "[<@&1342190668231213176>] "@
        } else {
            ""@
        }) + decimal(slots) + " slots available for preclaim in "@ + name + (match reality {
            Some(r) => " in "@ + r,
            None => ""@,
        }) + " until "@ + time_tag(preclaim_end)
            + ". Use `/view-preclaims` to view them and make preclaims."@ + (match message {
            Some(m) => " "@ + m,
            None => ""@,
        })
    }

    /// Writes [`NewWorldCommand::announcement`].
    pub fn announce(
        name: &str,
        slots: usize,
        reality: Option<&str>,
        preclaim_end: i64,
        ping: bool,
        message: Option<&str>,
    ) -> (text: String)
        ensures
            text@ == Self::announcement(
                name@,
                slots as nat,
                match reality {
                    Some(r) => Some(r@),
                    None => None,
                },
                preclaim_end,
                ping,
                match message {
                    Some(m) => Some(m@),
                    None => None,
                },
            ),
    {
        let mut text = if ping {
            "[<@&1342190668231213176>] ".to_owned()
        } else {
            "".to_owned()
        };
        let count = decimal_text(slots as u64);
        text.append(count.as_str());
        text.append(" slots available for preclaim in ");
        text.append(name);
        match reality {
            Some(r) => {
                text.append(" in ");
                text.append(r);
                proof {
                    assert(" in "@ + r@ == (" in "@ + r@));
                }
            },
            None => {
                text.append("");
            },
        }
        text.append(" until ");
        let end = time_text(preclaim_end);
        text.append(end.as_str());
        text.append(". Use `/view-preclaims` to view them and make preclaims.");
        match message {
            Some(m) => {
                text.append(" ");
                text.append(m);
            },
            None => {
                text.append("");
            },
        }
        proof {
            reveal_strlit("");
            let r = match reality {
                Some(r) => Some(r@),
                None => None,
            };
            let m = match message {
                Some(m) => Some(m@),
                None => None,
            };
            assert(text@ =~= Self::announcement(name@, slots as nat, r, preclaim_end, ping, m));
        }
        text
    }

    /// Creates the world `name` from its slot file. Returns the answer
    /// and, where the world was created, the text that announces it.
    pub fn execute(
        bot: &mut Bot,
        name: &str,
        preclaim_end: i64,
        reality: Option<&str>,
        file: &SlotFile,
        ping: bool,
        message: Option<&str>,
    ) -> (reply: (Reply, Option<String>))
        requires
            old(bot).wf(),
        ensures
            final(bot).wf(),
            final(bot).admins == old(bot).admins,
            final(bot).privileged == old(bot).privileged,
            old(bot).store@.within_claim_caps() ==> final(bot).store@.within_claim_caps(),
            old(bot).store@.within_reality_cap() ==> final(bot).store@.within_reality_cap(),
            !reply.0.push_needed,
            match *file {
                SlotFile::FetchFailed => reply.0.text@ == "Failed to fetch slot file"@ && reply.1
                    is None && final(bot).store@ == old(bot).store@,
                SlotFile::Content(content) => exists|
                    slots: Seq<(String, String, String, String)>,
                    result: Result<usize, NewWorldError>,
                |
                    {
                        &&& entries_texts(slots) == grouped(text_lines(content@))
                        &&& old(bot).store@.creates_world(
                            final(bot).store@,
                            name@,
                            preclaim_end,
                            match reality {
                                Some(r) => Some(r@),
                                None => None,
                            },
                            slots,
                            result,
                        )
                        &&& match result {
                            Ok(count) => {
                                &&& reply.0.text@ == "Successfully created world "@ + name@
                                    + " with "@ + decimal(count as nat) + " yamls"@
                                &&& reply.1 matches Some(text) && text@ == Self::announcement(
                                    name@,
                                    count as nat,
                                    match reality {
                                        Some(r) => Some(r@),
                                        None => None,
                                    },
                                    preclaim_end,
                                    ping,
                                    match message {
                                        Some(m) => Some(m@),
                                        None => None,
                                    },
                                )
                            },
                            Err(NewWorldError::RealityNotFound) => reply.0.text@
                                == "Failed to get reality"@ && reply.1 is None,
                            Err(NewWorldError::CreateWorld) => reply.0.text@
                                == "Failed to create new world"@ && reply.1 is None,
                        }
                    },
            },
    {
        let content = match file {
            SlotFile::FetchFailed => {
                return (Reply::plain("Failed to fetch slot file"), None);
            },
            SlotFile::Content(content) => content,
        };
        let slots = match parse_slot_file(content.as_str()) {
            Some(slots) => slots,
            None => {
                return (Reply::plain("Failed to parse slot file"), None);
            },
        };
        let ghost pre = bot.store@;
        let result = bot.store.new_world(name, preclaim_end, reality, &slots);
        proof {
            let r = match reality {
                Some(r) => Some(r@),
                None => None,
            };
            assert(pre.creates_world(bot.store@, name@, preclaim_end, r, slots@, result));
        }
        match result {
            Ok(count) => {
                let digits = decimal_text(count as u64);
                let text = join5(
                    "Successfully created world ",
                    name,
                    " with ",
                    digits.as_str(),
                    " yamls",
                );
                (
                    Reply::plain(text.as_str()),
                    Some(Self::announce(name, count, reality, preclaim_end, ping, message)),
                )
            },
            Err(NewWorldError::RealityNotFound) => (Reply::plain("Failed to get reality"), None),
            Err(NewWorldError::CreateWorld) => (Reply::plain("Failed to create new world"), None),
        }
    }
}

impl TrackWorldCommand {
    pub open spec fn command_name() -> Seq<char> {
        "track-world"@
    }

    pub fn name() -> (name: &'static str)
        ensures
            name@ == Self::command_name(),
    {
        "track-world"
    }

    /// Why a world is refused before its tracker is read, if it is.
    pub open spec fn refusal(
        bot: Bot,
        user: i64,
        tracker: Seq<char>,
        name: Seq<char>,
        reality: Option<Seq<char>>,
    ) -> Option<Seq<char>> {
        if !bot.admins@.contains(user) {
            Some(no_permission())
        } else if tracker.len() == 0 {
            Some("A tracker link or id is required"@)
        } else if name.len() == 0 {
            Some(world_name_required())
        } else if reality matches Some(r) && bot.store@.reality_by_name(r) is None {
            Some("Failed to get reality"@)
        } else {
            None
        }
    }

    /// Checks a world before its tracker is read, and says which tracker
    /// to read: whoever asks must be an organizer, the tracker and the
    /// name of the world must be given, and the reality must be known.
    pub fn check(bot: &Bot, user: i64, tracker: &str, name: &str, reality: Option<&str>) -> (checked:
        Result<String, Reply>)
        ensures
            match Self::refusal(
                *bot,
                user,
                tracker@,
                name@,
                match reality {
                    Some(r) => Some(r@),
                    None => None,
                },
            ) {
                Some(text) => checked matches Err(reply) && reply.text@ == text
                    && !reply.push_needed,
                None => checked matches Ok(id) && id@ == tracker_id_of(tracker@),
            },
    {
        if !bot.is_admin(user) {
            return Err(Reply::plain("You do not have permission to use this command"));
        }
        if tracker.is_empty() {
            return Err(Reply::plain("A tracker link or id is required"));
        }
        if name.is_empty() {
            return Err(Reply::plain("A world name is required"));
        }
        match reality {
            Some(r) => {
                let reality_name = r.to_owned();
                if bot.store.find_reality(&reality_name).is_none() {
                    return Err(Reply::plain("Failed to get reality"));
                }
            },
            None => {},
        }
        Ok(tracker_id(tracker))
    }

    /// The text that announces a tracked world with `unclaimed` slots
    /// that nobody holds.
    pub open spec fn announcement(
        name: Seq<char>,
        unclaimed: nat,
        reality: Option<Seq<char>>,
        message: Option<Seq<char>>,
    ) -> Seq<char> {
        "[<@&1342191138056175707>] New world `"@ + name + "` available with "@ + decimal(unclaimed)
            + " unclaimed slots"@ + (match reality {
            Some(r) => " in "@ + r,
            None => ""@,
        }) + ". Use `/claim` make your claims."@ + (match message {
            Some(m) => " "@ + m,
            None => ""@,
        })
    }

    /// Writes [`TrackWorldCommand::announcement`].
    pub fn announce(name: &str, unclaimed: usize, reality: Option<&str>, message: Option<&str>) -> (text:
        String)
        ensures
            text@ == Self::announcement(
                name@,
                unclaimed as nat,
                match reality {
                    Some(r) => Some(r@),
                    None => None,
                },
                match message {
                    Some(m) => Some(m@),
                    None => None,
                },
            ),
    {
        let count = decimal_text(unclaimed as u64);
        let mut text = join5(
            "[<@&1342191138056175707>] New world `",
            name,
            "` available with ",
            count.as_str(),
            " unclaimed slots",
        );
        match reality {
            Some(r) => {
                text.append(" in ");
                text.append(r);
            },
            None => {
                text.append("");
            },
        }
        text.append(". Use `/claim` make your claims.");
        match message {
            Some(m) => {
                text.append(" ");
                text.append(m);
            },
            None => {
                text.append("");
            },
        }
        proof {
            reveal_strlit("");
            let r = match reality {
                Some(r) => Some(r@),
                None => None,
            };
            let m = match message {
                Some(m) => Some(m@),
                None => None,
            };
            assert(text@ =~= Self::announcement(name@, unclaimed as nat, r, m));
        }
        text
    }

    /// Whether the points of every entry of `data` can be worked out.
    pub fn is_countable(data: &Vec<(String, SlotData)>) -> (countable: bool)
        ensures
            countable == games_countable(data@),
    {
        let mut i: usize = 0;
        while i < data.len()
            invariant
                i <= data@.len(),
                forall|j: int|
                    0 <= j < i ==> 1 + 2 * (#[trigger] data@[j]).1.games@.len() <= i64::MAX,
            decreases data@.len() - i,
        {
            if 1 + 2 * (data[i].1.games.len() as u128) > i64::MAX as u128 {
                return false;
            }
            i += 1;
        }
        true
    }

    /// Tracks the world `name` from what its tracker shows. Returns the
    /// answer and, where slots are left for claiming, the text that
    /// announces the world.
    pub fn execute(
        bot: &mut Bot,
        tracker_id: &str,
        name: &str,
        reality: Option<&str>,
        import: &str,
        options: TrackOptions,
        reading: &Reading,
        message: Option<&str>,
    ) -> (reply: (Reply, Option<String>))
        requires
            old(bot).wf(),
        ensures
            final(bot).wf(),
            final(bot).admins == old(bot).admins,
            final(bot).privileged == old(bot).privileged,
            match *reading {
                Reading::FetchFailed => reply.0.text@ == "Failed to fetch tracker"@
                    && !reply.0.push_needed && reply.1 is None && final(bot).store@ == old(bot).store@,
                Reading::ParseFailed => reply.0.text@ == "Failed to parse tracker"@
                    && !reply.0.push_needed && reply.1 is None && final(bot).store@ == old(bot).store@,
                Reading::Parsed(data) => if !games_countable(data@) {
                    reply.0.text@ == "Failed to parse tracker"@ && !reply.0.push_needed && reply.1
                        is None && final(bot).store@ == old(bot).store@
                } else {
                    exists|result: Result<usize, TrackError>|
                        {
                            &&& old(bot).store@.tracks_world(
                                final(bot).store@,
                                name@,
                                match reality {
                                    Some(r) => Some(r@),
                                    None => None,
                                },
                                import@,
                                options,
                                data@,
                                result,
                            )
                            &&& match result {
                                Ok(unclaimed) => {
                                    &&& reply.0.text@ == "Started tracking world"@
                                    &&& reply.0.push_needed
                                    &&& if unclaimed > 0 {
                                        reply.1 matches Some(text) && text@ == Self::announcement(
                                            name@,
                                            unclaimed as nat,
                                            match reality {
                                                Some(r) => Some(r@),
                                                None => None,
                                            },
                                            match message {
                                                Some(m) => Some(m@),
                                                None => None,
                                            },
                                        )
                                    } else {
                                        reply.1 is None
                                    }
                                },
                                Err(TrackError::RealityNotFound) => reply.0.text@
                                    == "Failed to get reality"@ && !reply.0.push_needed && reply.1
                                    is None,
                                Err(TrackError::CreateWorld) => reply.0.text@
                                    == "Failed to create tracked world"@ && !reply.0.push_needed
                                    && reply.1 is None,
                            }
                        }
                },
            },
    {
        let data = match reading {
            Reading::FetchFailed => {
                return (Reply::plain("Failed to fetch tracker"), None);
            },
            Reading::ParseFailed => {
                return (Reply::plain("Failed to parse tracker"), None);
            },
            Reading::Parsed(data) => data,
        };
        if !Self::is_countable(data) {
            return (Reply::plain("Failed to parse tracker"), None);
        }
        let ghost pre = bot.store@;
        let result = bot.store.track_world(tracker_id, name, reality, import, options, data);
        proof {
            let r = match reality {
                Some(r) => Some(r@),
                None => None,
            };
            assert(pre.tracks_world(bot.store@, name@, r, import@, options, data@, result));
        }
        match result {
            Ok(unclaimed) => {
                let text = if unclaimed > 0 {
                    Some(Self::announce(name, unclaimed, reality, message))
                } else {
                    None
                };
                (Reply::pushing("Started tracking world".to_owned()), text)
            },
            Err(TrackError::RealityNotFound) => (Reply::plain("Failed to get reality"), None),
            Err(TrackError::CreateWorld) => (
                Reply::plain("Failed to create tracked world"),
                None,
            ),
        }
    }
}

impl FinishWorldCommand {
    pub open spec fn command_name() -> Seq<char> {
        "finish-world"@
    }

    pub fn name() -> (name: &'static str)
        ensures
            name@ == Self::command_name(),
    {
        "finish-world"
    }

    /// The title of the messages on the finished world `world`.
    pub open spec fn title(world: Seq<char>) -> Seq<char> {
        world + " completed!"@
    }

    /// Writes [`FinishWorldCommand::title`].
    pub fn completion_title(world: &str) -> (title: String)
        ensures
            title@ == Self::title(world@),
    {
        join2(world, " completed!")
    }

    /// Why a world is not finished, if it is not.
    pub open spec fn refusal(bot: Bot, user: i64, world: Seq<char>) -> Option<Seq<char>> {
        if world.len() == 0 {
            Some(world_required())
        } else if !bot.admins@.contains(user) {
            Some(no_permission())
        } else if bot.store@.finish_fails(world) {
            Some(crate::finish::FinishError::UpdatePoints.text())
        } else {
            None
        }
    }

    /// Works out what finishing the world `world` leaves, for an
    /// organizer, without changing anything yet: the tables afterwards and
    /// the messages that report every slot with its claimant.
    pub fn prepare(bot: &Bot, user: i64, world: &str) -> (prepared: Result<
        (Store, Vec<String>),
        Reply,
    >)
        requires
            bot.wf(),
        ensures
            match Self::refusal(*bot, user, world@) {
                Some(text) => prepared matches Err(reply) && reply.text@ == text
                    && !reply.push_needed,
                None => {
                    &&& prepared matches Ok((next, pages))
                    &&& next.wf()
                    &&& next@ == bot.store@.after_finish(world@)
                    &&& texts(pages@) == completion_pages(bot.store@.finish_report(world@))
                    &&& (bot.store@.within_claim_caps() ==> next@.within_claim_caps())
                    &&& (bot.store@.within_reality_cap() ==> next@.within_reality_cap())
                },
            },
    {
        if world.is_empty() {
            return Err(Reply::plain("A world is required"));
        }
        if !bot.is_admin(user) {
            return Err(Reply::plain("You do not have permission to use this command"));
        }
        match bot.store.finished(world) {
            Ok((next, report)) => Ok((next, completion_messages(&report))),
            Err(e) => Err(Reply::plain(e.message())),
        }
    }

    /// Puts the tables that [`FinishWorldCommand::prepare`] worked out in
    /// place, once the messages on the world are out.
    pub fn commit(bot: &mut Bot, next: Store, world: &str) -> (reply: Reply)
        requires
            next.wf(),
        ensures
            final(bot).store == next,
            final(bot).admins == old(bot).admins,
            final(bot).privileged == old(bot).privileged,
            reply.text@ == "Successfully finished world "@ + world@,
            reply.push_needed,
    {
        bot.store = next;
        Reply::pushing(join2("Successfully finished world ", world))
    }

    /// Finishes the world `world`, for an organizer. Returns the answer
    /// and the messages that report every slot with its claimant.
    pub fn execute(bot: &mut Bot, user: i64, world: &str) -> (reply: (Reply, Vec<String>))
        requires
            old(bot).wf(),
        ensures
            final(bot).wf(),
            final(bot).admins == old(bot).admins,
            final(bot).privileged == old(bot).privileged,
            old(bot).store@.within_claim_caps() ==> final(bot).store@.within_claim_caps(),
            old(bot).store@.within_reality_cap() ==> final(bot).store@.within_reality_cap(),
            match Self::refusal(*old(bot), user, world@) {
                Some(text) => reply.0.text@ == text && !reply.0.push_needed && reply.1@.len() == 0
                    && final(bot).store@ == old(bot).store@,
                None => {
                    &&& reply.0.text@ == "Successfully finished world "@ + world@
                    &&& reply.0.push_needed
                    &&& final(bot).store@ == old(bot).store@.after_finish(world@)
                    &&& texts(reply.1@) == completion_pages(
                        old(bot).store@.finish_report(world@),
                    )
                },
            },
    {
        match Self::prepare(bot, user, world) {
            Ok((next, pages)) => {
                let reply = Self::commit(bot, next, world);
                (reply, pages)
            },
            Err(reply) => (reply, Vec::new()),
        }
    }
}

} // verus!
