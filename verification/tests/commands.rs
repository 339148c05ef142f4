use multiarchi::commands::claims::{
    BulkEntry, BulkStatusCommand, ClaimCommand, DoneCommand, MarkFreeCommand, PublicCommand, StatusCommand, UnclaimCommand,
};
use multiarchi::commands::players::UnclaimedCommand;
use multiarchi::commands::preclaims::{
    time_text, CancelPreclaimsCommand, GetPreclaimsCommand, ReschedulePreclaimsCommand, UnpreclaimCommand, ViewPreclaimsCommand,
};
use multiarchi::commands::worlds::{
    completion_messages, group_slots, parse_slot_file, tracker_id, FinishWorldCommand, NewRealityCommand, NewWorldCommand, Reading,
    SlotFile, TrackWorldCommand,
};
use multiarchi::commands::{Bot, Reply};
use multiarchi::status::Status;
use multiarchi::store::PreclaimStatus;
use multiarchi::tracking::{SlotData, TrackOptions};

const ADMIN: i64 = 1000;
const HELPER: i64 = 2000;
const NO_PERMISSION: &str = "You do not have permission to use this command";

fn bot() -> Bot {
    Bot::new(vec![ADMIN], vec![HELPER])
}

fn entry(name: &str, games: &[&str]) -> (String, SlotData) {
    (
        name.to_string(),
        SlotData {
            status: Status::Unstarted,
            games: games.iter().map(|game| game.to_string()).collect(),
            checks: 0,
            checks_total: 10,
            last_activity: None,
        },
    )
}

fn options() -> TrackOptions {
    TrackOptions { awards_points: true, use_claims: true }
}

fn with_world(slots: &[&str]) -> Bot {
    let mut bot = bot();
    let data: Vec<(String, SlotData)> = slots.iter().map(|slot| entry(slot, &["Game"])).collect();
    bot.store.track_world("t", "W", None, "", options(), &data).unwrap();
    bot
}

fn plain(reply: &Reply, text: &str) {
    assert_eq!(reply.text, text);
    assert!(!reply.push_needed);
}

#[test]
fn command_names() {
    assert_eq!(ClaimCommand::name(), "claim");
    assert_eq!(UnclaimCommand::name(), "unclaim");
    assert_eq!(MarkFreeCommand::name(), "mark-free");
    assert_eq!(DoneCommand::name(), "done");
    assert_eq!(PublicCommand::name(), "public");
    assert_eq!(StatusCommand::name(), "status");
    assert_eq!(GetPreclaimsCommand::name(), "get-preclaims");
    assert_eq!(CancelPreclaimsCommand::name(), "cancel-preclaims");
    assert_eq!(ReschedulePreclaimsCommand::name(), "reschedule-preclaims");
    assert_eq!(UnpreclaimCommand::name(), "unpreclaim");
    assert_eq!(ViewPreclaimsCommand::name(), "view-preclaims");
    assert_eq!(NewRealityCommand::name(), "new-reality");
    assert_eq!(NewWorldCommand::name(), "new-world");
    assert_eq!(TrackWorldCommand::name(), "track-world");
    assert_eq!(FinishWorldCommand::name(), "finish-world");
}

#[test]
fn organizers_and_helpers() {
    let bot = bot();
    assert!(bot.is_admin(ADMIN));
    assert!(!bot.is_admin(HELPER));
    assert!(bot.is_privileged(HELPER));
    assert!(!bot.is_privileged(ADMIN));
}

#[test]
fn claim_command_answers() {
    let mut bot = with_world(&["S1"]);
    plain(&ClaimCommand::execute(&mut bot, 5, "Ann", "", "S1"), "A world is required");
    plain(&ClaimCommand::execute(&mut bot, 5, "Ann", "W", ""), "A slot is required");
    assert!(bot.store.players.is_empty());
    plain(&ClaimCommand::execute(&mut bot, 5, "Ann", "W", "nope"), "Failed to get slot");
    assert_eq!(bot.store.players.len(), 1);
    let reply = ClaimCommand::execute(&mut bot, 5, "Ann", "W", "S1");
    assert_eq!(reply.text, "Successfully claimed S1 in W");
    assert!(reply.push_needed);
    plain(&ClaimCommand::execute(&mut bot, 6, "Bob", "W", "S1"), "Slot is already claimed");
    assert_eq!(bot.store.claims.len(), 1);
    assert_eq!(bot.store.claims[0].player, bot.store.players[0].id);
}

#[test]
fn claim_command_names_the_denial() {
    let mut bot = with_world(&["S1", "S2", "S3"]);
    assert!(ClaimCommand::execute(&mut bot, 5, "Ann", "W", "S1").push_needed);
    assert!(ClaimCommand::execute(&mut bot, 5, "Ann", "W", "S2").push_needed);
    plain(&ClaimCommand::execute(&mut bot, 5, "Ann", "W", "S3"), "No available claim");
}

#[test]
fn claim_command_without_an_id_for_the_player() {
    let mut bot = with_world(&["S1"]);
    bot.store.next_id = i64::MAX;
    plain(&ClaimCommand::execute(&mut bot, 5, "Ann", "W", "S1"), "Failed to get user");
    assert!(bot.store.claims.is_empty());
}

#[test]
fn unclaim_command_answers() {
    let mut bot = with_world(&["S1"]);
    assert!(ClaimCommand::execute(&mut bot, 5, "Ann", "W", "S1").push_needed);
    plain(&UnclaimCommand::execute(&mut bot, 5, "W", "S1"), NO_PERMISSION);
    plain(&UnclaimCommand::execute(&mut bot, ADMIN, "", "S1"), "A world is required");
    plain(&UnclaimCommand::execute(&mut bot, ADMIN, "W", ""), "A slot is required");
    assert_eq!(bot.store.claims.len(), 1);
    plain(&UnclaimCommand::execute(&mut bot, ADMIN, "W", "S1"), "Successfully unclaimed slot");
    assert!(bot.store.claims.is_empty());
}

#[test]
fn mark_free_command_answers() {
    let mut bot = with_world(&["S1"]);
    plain(&MarkFreeCommand::execute(&mut bot, HELPER, "W", "S1"), NO_PERMISSION);
    plain(&MarkFreeCommand::execute(&mut bot, ADMIN, "", "S1"), "A world is required");
    plain(&MarkFreeCommand::execute(&mut bot, ADMIN, "W", ""), "A slot is required");
    assert!(!bot.store.tracked_slots[0].free);
    let reply = MarkFreeCommand::execute(&mut bot, ADMIN, "W", "S1");
    assert_eq!(reply.text, "Successfully marked S1 in W as a free claim");
    assert!(reply.push_needed);
    assert!(bot.store.tracked_slots[0].free);
}

#[test]
fn done_command_answers() {
    let mut bot = with_world(&["S1"]);
    let (reply, line) = DoneCommand::execute(&mut bot, ADMIN, "Root", "W", "S1");
    plain(&reply, NO_PERMISSION);
    assert!(line.is_none());
    plain(&DoneCommand::execute(&mut bot, HELPER, "Help", "", "S1").0, "A world is required");
    plain(&DoneCommand::execute(&mut bot, HELPER, "Help", "W", "").0, "A slot is required");
    plain(&DoneCommand::execute(&mut bot, HELPER, "Help", "W", "nope").0, "Failed to mark slot as done");
    assert_eq!(bot.store.tracked_slots[0].status, Status::Unstarted);
    let (reply, line) = DoneCommand::execute(&mut bot, HELPER, "Help", "W", "S1");
    plain(&reply, "Successfully marked slot as done");
    assert_eq!(line.unwrap(), "Slot S1 in W was marked done by Help");
    assert_eq!(bot.store.tracked_slots[0].status, Status::Done);
}

#[test]
fn public_command_answers() {
    let mut bot = with_world(&["S1", "S2"]);
    assert!(ClaimCommand::execute(&mut bot, 5, "Ann", "W", "S1").push_needed);
    assert!(ClaimCommand::execute(&mut bot, 5, "Ann", "W", "S2").push_needed);
    plain(&PublicCommand::execute(&mut bot, 6, "W", "S1", "join me"), "Failed to mark claim as public");
    plain(&PublicCommand::execute(&mut bot, 5, "W", "S1", "join me"), "Successfully marked claim as public");
    plain(&PublicCommand::execute(&mut bot, 5, "W", "S2", ""), "Successfully marked claim as public");
    assert_eq!(bot.store.claims[0].public, Some("join me".to_string()));
    assert_eq!(bot.store.claims[1].public, Some("*No description provided*".to_string()));
}

#[test]
fn status_command_answers() {
    let mut bot = with_world(&["S1"]);
    let (reply, line) = StatusCommand::execute(&mut bot, 5, "ann", "Ann", "W", "nope", "stuck", 9);
    plain(&reply, "Failed to get slot");
    assert!(line.is_none());
    assert!(bot.store.players.is_empty());
    let (reply, line) = StatusCommand::execute(&mut bot, 5, "ann", "Ann", "W", "S1", "stuck", 9);
    plain(&reply, "Successfully updated status of S1 in W");
    assert_eq!(line.unwrap(), "[Ann] [W] [S1] stuck");
    assert_eq!(bot.store.updates.len(), 1);
    assert_eq!(bot.store.updates[0].player, bot.store.players[0].id);
    assert_eq!(bot.store.updates[0].timestamp, 9);
    assert_eq!(StatusCommand::announce("Ann", "W", "S1", ""), "[Ann] [W] [S1] ");
}

fn slot_file(names: &[&str]) -> Vec<(String, String, String, String)> {
    names.iter().map(|name| (name.to_string(), "Game".to_string(), "".to_string(), "2".to_string())).collect()
}

#[test]
fn get_preclaims_command_answers() {
    let mut bot = bot();
    bot.store.new_world("W", 100, None, &slot_file(&["S1", "S2"])).unwrap();
    plain(&GetPreclaimsCommand::execute(&mut bot, 5, "W", 200), NO_PERMISSION);
    plain(&GetPreclaimsCommand::execute(&mut bot, ADMIN, "", 200), "A world name is required");
    plain(&GetPreclaimsCommand::execute(&mut bot, ADMIN, "nope", 200), "Failed to get world");
    plain(&GetPreclaimsCommand::execute(&mut bot, ADMIN, "W", 99), "Preclaims end at <t:100:f>");
    assert!(!bot.store.worlds[0].resolved_preclaims);
    let a = bot.store.get_player(71, "Ann").unwrap().id;
    let b = bot.store.get_player(72, "Bob").unwrap().id;
    assert!(bot.store.preclaim(a, bot.store.slots[0].id).is_ok());
    assert!(bot.store.preclaim(b, bot.store.slots[1].id).is_ok());
    let expected = "```\n<@71> S1 is yours\n<@72> S2 is yours\n```";
    plain(&GetPreclaimsCommand::execute(&mut bot, ADMIN, "W", 100), expected);
    assert!(bot.store.worlds[0].resolved_preclaims);
    assert!(bot.store.preclaims.iter().all(|p| p.status == PreclaimStatus::Won));
    plain(&GetPreclaimsCommand::execute(&mut bot, ADMIN, "W", 300), expected);
}

#[test]
fn get_preclaims_command_without_preclaims() {
    let mut bot = bot();
    bot.store.new_world("W", 100, None, &slot_file(&["S1"])).unwrap();
    plain(&GetPreclaimsCommand::execute(&mut bot, ADMIN, "W", 100), "World had no preclaims");
}

#[test]
fn winners_without_a_known_slot_or_player_are_left_out() {
    let mut bot = bot();
    bot.store.new_world("W", 100, None, &slot_file(&["S1"])).unwrap();
    let a = bot.store.get_player(71, "Ann").unwrap().id;
    let s1 = bot.store.slots[0].id;
    assert_eq!(bot.store.announce_winners(&vec![(999, a), (s1, 888), (s1, a)]), "```\n<@71> S1 is yours\n```");
    assert_eq!(bot.store.announce_winners(&vec![(999, a)]), "```\n\n```");
    assert_eq!(bot.store.snowflake_of_player(a), Some(71));
    assert_eq!(bot.store.snowflake_of_player(888), None);
    assert_eq!(time_text(-3), "<t:-3:f>");
}

#[test]
fn cancel_preclaims_command_answers() {
    let mut bot = bot();
    bot.store.new_world("W", 100, None, &slot_file(&["S1"])).unwrap();
    plain(&CancelPreclaimsCommand::execute(&mut bot, 5, "W"), NO_PERMISSION);
    plain(&CancelPreclaimsCommand::execute(&mut bot, ADMIN, ""), "A world is required");
    assert_eq!(bot.store.worlds.len(), 1);
    plain(&CancelPreclaimsCommand::execute(&mut bot, ADMIN, "W"), "Cancelled preclaims for W");
    assert!(bot.store.worlds.is_empty() && bot.store.slots.is_empty());
}

#[test]
fn reschedule_preclaims_command_answers() {
    let mut bot = bot();
    bot.store.new_world("W", 100, None, &slot_file(&["S1"])).unwrap();
    plain(&ReschedulePreclaimsCommand::execute(&mut bot, 5, "W", 500, 200), NO_PERMISSION);
    plain(&ReschedulePreclaimsCommand::execute(&mut bot, ADMIN, "", 500, 200), "A world is required");
    plain(&ReschedulePreclaimsCommand::execute(&mut bot, ADMIN, "W", 199, 200), "The specified preclaim end is in the past");
    assert_eq!(bot.store.worlds[0].preclaim_end, 100);
    plain(&ReschedulePreclaimsCommand::execute(&mut bot, ADMIN, "W", 200, 200), "Successfully set preclaims to end at <t:200:f>");
    assert_eq!(bot.store.worlds[0].preclaim_end, 200);
}

#[test]
fn unpreclaim_command_answers() {
    let mut bot = bot();
    bot.store.new_world("W", 100, None, &slot_file(&["S1"])).unwrap();
    plain(&UnpreclaimCommand::execute(&mut bot, 71, 50), "Failed to remove preclaim");
    let a = bot.store.get_player(71, "Ann").unwrap().id;
    assert!(bot.store.preclaim(a, bot.store.slots[0].id).is_ok());
    plain(&UnpreclaimCommand::execute(&mut bot, 71, 100), "Failed to remove preclaim");
    plain(&UnpreclaimCommand::execute(&mut bot, 71, 50), "Successfully removed preclaim");
    assert!(bot.store.preclaims.is_empty());
}

#[test]
fn preclaim_is_taken_from_the_page() {
    let mut bot = with_world(&["T1", "T2"]);
    bot.store.new_world("P", 100, None, &slot_file(&["S1"])).unwrap();
    let s1 = bot.store.slots[0].id;
    plain(&ViewPreclaimsCommand::select(&mut bot, 71, "Ann", 999), "Failed to create preclaim");
    plain(&ViewPreclaimsCommand::select(&mut bot, 71, "Ann", s1), "Successfully preclaimed slot");
    assert_eq!(bot.store.preclaims.len(), 1);
    assert!(ClaimCommand::execute(&mut bot, 72, "Bob", "W", "T1").push_needed);
    assert!(ClaimCommand::execute(&mut bot, 72, "Bob", "W", "T2").push_needed);
    plain(&ViewPreclaimsCommand::select(&mut bot, 72, "Bob", s1), "No available claim");
    bot.store.next_id = i64::MAX;
    plain(&ViewPreclaimsCommand::select(&mut bot, 73, "Cy", s1), "Failed to get player");
}

#[test]
fn new_reality_command_answers() {
    let mut bot = bot();
    plain(&NewRealityCommand::execute(&mut bot, 5, "R", 2), NO_PERMISSION);
    plain(&NewRealityCommand::execute(&mut bot, ADMIN, "", 2), "A world name is required");
    plain(&NewRealityCommand::execute(&mut bot, ADMIN, "R", 0), "Max claims must be a positive integer");
    assert!(bot.store.realities.is_empty());
    plain(&NewRealityCommand::execute(&mut bot, ADMIN, "R", 12), "Created new reality R with a claim limit of 12");
    assert_eq!(bot.store.realities[0].reality.max_claims, 12);
    bot.store.next_id = i64::MAX;
    plain(&NewRealityCommand::execute(&mut bot, ADMIN, "Q", 1), "Failed to create new world");
}

#[test]
fn slot_file_is_read_four_lines_a_slot() {
    let slots = parse_slot_file("Ann\nA, B\nno notes\n3\nBob\nC\n\n2\nleft over").unwrap();
    assert_eq!(slots.len(), 2);
    assert_eq!(slots[0], ("Ann".to_string(), "A, B".to_string(), "no notes".to_string(), "3".to_string()));
    assert_eq!(slots[1], ("Bob".to_string(), "C".to_string(), "".to_string(), "2".to_string()));
    assert_eq!(parse_slot_file("").unwrap().len(), 0);
    assert_eq!(parse_slot_file("a\nb\nc").unwrap().len(), 0);
    let with_returns = parse_slot_file("Ann\r\nA\r\nn\r\n1\r\n").unwrap();
    assert_eq!(with_returns, vec![("Ann".to_string(), "A".to_string(), "n".to_string(), "1".to_string())]);
    let lines: Vec<String> = (0..9).map(|n| n.to_string()).collect();
    let grouped = group_slots(&lines);
    assert_eq!(grouped.len(), 2);
    assert_eq!(grouped[1], ("4".to_string(), "5".to_string(), "6".to_string(), "7".to_string()));
}

#[test]
fn new_world_command_is_checked_first() {
    let mut bot = bot();
    bot.store.new_reality("R", 2).unwrap();
    let text = |reply: Option<Reply>| reply.map(|reply| reply.text);
    assert_eq!(text(NewWorldCommand::check(&bot, 5, "W", None, 100, 50, Some(10))), Some(NO_PERMISSION.to_string()));
    assert_eq!(text(NewWorldCommand::check(&bot, ADMIN, "", None, 100, 50, Some(10))), Some("A world name is required".to_string()));
    assert_eq!(text(NewWorldCommand::check(&bot, ADMIN, "W", Some("Q"), 100, 50, Some(10))), Some("Failed to get reality".to_string()));
    assert_eq!(
        text(NewWorldCommand::check(&bot, ADMIN, "W", Some("R"), 100, 101, Some(10))),
        Some("The specified preclaim end is in the past".to_string())
    );
    assert_eq!(text(NewWorldCommand::check(&bot, ADMIN, "W", Some("R"), 100, 100, None)), Some("Slot file does not exist".to_string()));
    assert_eq!(
        text(NewWorldCommand::check(&bot, ADMIN, "W", Some("R"), 100, 100, Some(1_000_001))),
        Some("Slot file is too large".to_string())
    );
    assert_eq!(text(NewWorldCommand::check(&bot, ADMIN, "W", Some("R"), 100, 100, Some(1_000_000))), None);
}

#[test]
fn new_world_command_answers() {
    let mut bot = bot();
    bot.store.new_reality("R", 2).unwrap();
    let (reply, text) = NewWorldCommand::execute(&mut bot, "W", 100, None, &SlotFile::FetchFailed, true, None);
    plain(&reply, "Failed to fetch slot file");
    assert!(text.is_none());
    let file = SlotFile::Content("Ann\nA\n\n2\nBob\nB\n\n2\n".to_string());
    let (reply, text) = NewWorldCommand::execute(&mut bot, "W", 100, Some("R"), &file, true, Some("Have fun"));
    plain(&reply, "Successfully created world W with 2 yamls");
    assert_eq!(
        text.unwrap(),
        "[<@&1342190668231213176>] 2 slots available for preclaim in W in R until <t:100:f>. Use `/view-preclaims` to view them and make preclaims. Have fun"
    );
    assert_eq!(bot.store.slots.len(), 2);
    let (reply, text) = NewWorldCommand::execute(&mut bot, "W", 100, None, &file, true, None);
    plain(&reply, "Failed to create new world");
    assert!(text.is_none());
    let (reply, _) = NewWorldCommand::execute(&mut bot, "V", 100, Some("Q"), &file, true, None);
    plain(&reply, "Failed to get reality");
    assert_eq!(
        NewWorldCommand::announce("V", 0, None, 7, false, None),
        "0 slots available for preclaim in V until <t:7:f>. Use `/view-preclaims` to view them and make preclaims."
    );
}

#[test]
fn tracker_id_follows_the_last_slash() {
    assert_eq!(tracker_id("https://archipelago.gg/tracker/abc123"), "abc123");
    assert_eq!(tracker_id("abc123"), "abc123");
    assert_eq!(tracker_id("a/b/"), "");
    assert_eq!(tracker_id("/x"), "x");
    assert_eq!(tracker_id("é/ü"), "ü");
}

#[test]
fn track_world_command_is_checked_first() {
    let mut bot = bot();
    bot.store.new_reality("R", 2).unwrap();
    let text = |checked: Result<String, Reply>| checked.map_err(|reply| reply.text);
    assert_eq!(text(TrackWorldCommand::check(&bot, 5, "t/abc", "W", None)), Err(NO_PERMISSION.to_string()));
    assert_eq!(text(TrackWorldCommand::check(&bot, ADMIN, "", "W", None)), Err("A tracker link or id is required".to_string()));
    assert_eq!(text(TrackWorldCommand::check(&bot, ADMIN, "t/abc", "", None)), Err("A world name is required".to_string()));
    assert_eq!(text(TrackWorldCommand::check(&bot, ADMIN, "t/abc", "W", Some("Q"))), Err("Failed to get reality".to_string()));
    assert_eq!(text(TrackWorldCommand::check(&bot, ADMIN, "t/abc", "W", Some("R"))), Ok("abc".to_string()));
}

#[test]
fn track_world_command_answers() {
    let mut bot = bot();
    bot.store.new_reality("R", 2).unwrap();
    let (reply, text) = TrackWorldCommand::execute(&mut bot, "abc", "W", None, "", options(), &Reading::FetchFailed, None);
    plain(&reply, "Failed to fetch tracker");
    assert!(text.is_none());
    let (reply, _) = TrackWorldCommand::execute(&mut bot, "abc", "W", None, "", options(), &Reading::ParseFailed, None);
    plain(&reply, "Failed to parse tracker");
    let reading = Reading::Parsed(vec![entry("S1", &["A"]), entry("S2", &["B"])]);
    let (reply, _) = TrackWorldCommand::execute(&mut bot, "abc", "W", Some("Q"), "", options(), &reading, None);
    plain(&reply, "Failed to get reality");
    assert!(bot.store.tracked_worlds.is_empty());
    let (reply, text) = TrackWorldCommand::execute(&mut bot, "abc", "W", Some("R"), "", options(), &reading, Some("Go"));
    assert_eq!(reply.text, "Started tracking world");
    assert!(reply.push_needed);
    assert_eq!(
        text.unwrap(),
        "[<@&1342191138056175707>] New world `W` available with 2 unclaimed slots in R. Use `/claim` make your claims. Go"
    );
    assert_eq!(bot.store.tracked_slots.len(), 2);
    let (reply, text) = TrackWorldCommand::execute(&mut bot, "abc", "Empty", None, "", options(), &Reading::Parsed(vec![]), None);
    assert_eq!(reply.text, "Started tracking world");
    assert!(text.is_none());
    bot.store.next_id = i64::MAX;
    let (reply, _) = TrackWorldCommand::execute(&mut bot, "abc", "X", None, "", options(), &reading, None);
    plain(&reply, "Failed to create tracked world");
    assert_eq!(
        TrackWorldCommand::announce("W", 13, None, None),
        "[<@&1342191138056175707>] New world `W` available with 13 unclaimed slots. Use `/claim` make your claims."
    );
    assert!(TrackWorldCommand::is_countable(&vec![entry("S1", &["A"])]));
}

#[test]
fn finish_world_command_answers() {
    let mut bot = with_world(&["S5", "S6"]);
    assert!(ClaimCommand::execute(&mut bot, 55, "Eve", "W", "S5").push_needed);
    let (reply, pages) = FinishWorldCommand::execute(&mut bot, ADMIN, "");
    plain(&reply, "A world is required");
    assert!(pages.is_empty());
    plain(&FinishWorldCommand::execute(&mut bot, 5, "").0, "A world is required");
    plain(&FinishWorldCommand::execute(&mut bot, 5, "W").0, NO_PERMISSION);
    assert_eq!(bot.store.tracked_worlds.len(), 1);
    let (reply, pages) = FinishWorldCommand::execute(&mut bot, ADMIN, "W");
    assert_eq!(reply.text, "Successfully finished world W");
    assert!(reply.push_needed);
    assert_eq!(pages, vec!["**S5** [<@55>]\n**S6** [*Unclaimed*]".to_string()]);
    assert_eq!(bot.store.players[0].points, 2);
    assert!(bot.store.tracked_worlds.is_empty());
    assert_eq!(FinishWorldCommand::completion_title("W"), "W completed!");
}

#[test]
fn finish_world_command_reports_the_failed_step() {
    let mut bot = with_world(&["S5"]);
    assert!(ClaimCommand::execute(&mut bot, 55, "Eve", "W", "S5").push_needed);
    bot.store.players[0].points = i64::MAX;
    let before = format!("{:?}", bot.store);
    let (reply, pages) = FinishWorldCommand::execute(&mut bot, ADMIN, "W");
    plain(&reply, "Failed to update points. Aborting");
    assert!(pages.is_empty());
    assert_eq!(format!("{:?}", bot.store), before);
}

#[test]
fn finish_world_is_prepared_before_it_is_put_in_place() {
    let mut bot = with_world(&["S5"]);
    let before = format!("{:?}", bot.store);
    let (next, pages) = FinishWorldCommand::prepare(&bot, ADMIN, "W").ok().unwrap();
    assert_eq!(format!("{:?}", bot.store), before);
    assert_eq!(pages.len(), 1);
    let reply = FinishWorldCommand::commit(&mut bot, next, "W");
    assert_eq!(reply.text, "Successfully finished world W");
    assert!(bot.store.tracked_worlds.is_empty());
}

#[test]
fn finished_slots_are_reported_fifty_to_a_message() {
    assert!(completion_messages(&vec![]).is_empty());
    let report: Vec<(String, Option<i64>)> =
        (0..120).map(|n| (format!("S{n}"), if n % 2 == 0 { Some(n) } else { None })).collect();
    let pages = completion_messages(&report);
    assert_eq!(pages.len(), 3);
    let lines: Vec<Vec<&str>> = pages.iter().map(|page| page.split('\n').collect()).collect();
    assert_eq!((lines[0].len(), lines[1].len(), lines[2].len()), (50, 50, 20));
    assert_eq!(lines[0][0], "**S0** [<@0>]");
    assert_eq!(lines[0][49], "**S49** [*Unclaimed*]");
    assert_eq!(lines[1][0], "**S50** [<@50>]");
    assert_eq!(lines[2][19], "**S119** [*Unclaimed*]");
    let exact: Vec<(String, Option<i64>)> = (0..100).map(|n| (format!("S{n}"), None)).collect();
    assert_eq!(completion_messages(&exact).len(), 2);
}

#[test]
fn public_claims_are_listed() {
    let mut bot = bot();
    let data = |names: &[&str]| names.iter().map(|name| entry(name, &["Game"])).collect::<Vec<_>>();
    bot.store.track_world("t", "W", None, "", options(), &data(&["S1", "S2"])).unwrap();
    bot.store.track_world("t", "Quiet", None, "", options(), &data(&["S1"])).unwrap();
    bot.store.track_world("t", "V", None, "", options(), &data(&["S1"])).unwrap();
    let no_claims = PublicCommand::list(&bot, "").err().unwrap();
    plain(&no_claims, "No worlds have public claims");
    plain(&PublicCommand::list(&bot, "W").err().unwrap(), "W does not have public claims");
    plain(&PublicCommand::list(&bot, "nope").err().unwrap(), "nope does not have public claims");
    for (user, world, slot) in [(5, "V", "S1"), (5, "W", "S2"), (6, "W", "S1"), (6, "Quiet", "S1")] {
        assert!(ClaimCommand::execute(&mut bot, user, "someone", world, slot).push_needed);
    }
    assert!(bot.store.set_public(5, "V", "S1", "all welcome"));
    assert!(bot.store.set_public(5, "W", "S2", "second"));
    assert!(bot.store.set_public(6, "W", "S1", "first"));
    assert_eq!(
        PublicCommand::list(&bot, "").ok().unwrap(),
        vec![
            ("W".to_string(), "**S2**: second\n**S1**: first".to_string(), false),
            ("V".to_string(), "**S1**: all welcome".to_string(), false),
        ]
    );
    assert_eq!(PublicCommand::list(&bot, "V").ok().unwrap(), vec![("V".to_string(), "**S1**: all welcome".to_string(), false)]);
    plain(&PublicCommand::list(&bot, "Quiet").err().unwrap(), "Quiet does not have public claims");
    assert_eq!(bot.store.public_lines_of(bot.store.tracked_worlds[0].id), vec!["**S2**: second".to_string(), "**S1**: first".to_string()]);
}

fn note(world: Option<&str>, slot: Option<&str>, description: Option<&str>) -> BulkEntry {
    BulkEntry { world: world.map(str::to_string), slot: slot.map(str::to_string), description: description.map(str::to_string) }
}

#[test]
fn several_status_notes_at_once() {
    let mut bot = with_world(&["S1", "S2"]);
    bot.store.track_world("t", "V", None, "", options(), &vec![entry("S9", &["Game"])]).unwrap();
    assert_eq!(BulkStatusCommand::name(), "bulk-status");
    let entries = vec![
        note(Some("W"), Some("S1"), Some("one")),
        note(None, Some("S2"), Some("two")),
        note(None, Some("S1"), None),
        note(Some("V"), None, None),
        note(None, Some("S9"), Some("nine")),
        note(None, None, Some("lost")),
    ];
    let (reply, text) = BulkStatusCommand::execute(&mut bot, 5, "ann", "Ann", &entries, 42);
    plain(&reply, "Successfully updated status of slots");
    assert_eq!(text.unwrap(), "[Ann] [W] [S1] one\n[Ann] [W] [S2] two\n[Ann] [V] [S9] nine");
    let notes: Vec<(i64, String, i64)> = bot.store.updates.iter().map(|u| (u.slot, u.description.clone(), u.timestamp)).collect();
    assert_eq!(
        notes,
        vec![
            (bot.store.tracked_slots[0].id, "one".to_string(), 42),
            (bot.store.tracked_slots[1].id, "two".to_string(), 42),
            (bot.store.tracked_slots[2].id, "nine".to_string(), 42),
        ]
    );
    assert!(bot.store.updates.iter().all(|u| u.player == bot.store.players[0].id));
}

#[test]
fn status_notes_stop_at_a_slot_that_is_not_found() {
    let mut bot = with_world(&["S1", "S2"]);
    let entries = vec![
        note(Some("W"), Some("S1"), Some("one")),
        note(None, Some("nope"), Some("two")),
        note(None, Some("S2"), Some("three")),
    ];
    let (reply, text) = BulkStatusCommand::execute(&mut bot, 5, "ann", "Ann", &entries, 42);
    plain(&reply, "Failed to get slot nope in W");
    assert!(text.is_none());
    assert_eq!(bot.store.updates.len(), 1);
    assert_eq!(bot.store.updates[0].description, "one");
    let (reply, text) = BulkStatusCommand::execute(&mut bot, 5, "ann", "Ann", &vec![note(None, Some("S1"), Some("x"))], 42);
    plain(&reply, "Successfully updated status of slots");
    assert_eq!(text.unwrap(), "");
    bot.store.next_id = i64::MAX;
    let (reply, _) = BulkStatusCommand::execute(&mut bot, 6, "bob", "Bob", &entries, 42);
    plain(&reply, "Failed to get user");
}

#[test]
fn unclaimed_command_answers() {
    let mut bot = bot();
    assert_eq!(UnclaimedCommand::name(), "unclaimed");
    plain(&UnclaimedCommand::execute(&bot, "", 25).err().unwrap(), "There are no worlds with unclaimed slots");
    let many: Vec<(String, SlotData)> = (0..30).map(|n| entry(&format!("S{n}"), &["Game"])).collect();
    bot.store.track_world("t", "W", None, "", options(), &many).unwrap();
    bot.store.track_world("t", "V", None, "", options(), &vec![entry("S1", &["Game"])]).unwrap();
    let (worlds, page) = UnclaimedCommand::execute(&bot, "", 25).ok().unwrap();
    assert_eq!((worlds.len(), page), (2, 0));
    assert_eq!(worlds[0].slots.len(), 30);
    assert_eq!(UnclaimedCommand::execute(&bot, "W", 25).ok().unwrap().1, 0);
    assert_eq!(UnclaimedCommand::execute(&bot, "V", 25).ok().unwrap().1, 2);
    assert_eq!(UnclaimedCommand::execute(&bot, "nope", 25).ok().unwrap().1, 3);
}

/// The lines of a text as the library states them: split at line feeds, a
/// carriage return right before a line feed dropped with it.
fn lines_as_stated(content: &str) -> Vec<String> {
    let chars: Vec<char> = content.chars().collect();
    let mut lines = vec![];
    let mut rest = &chars[..];
    while !rest.is_empty() {
        match rest.iter().position(|c| *c == '\n') {
            None => {
                lines.push(rest.iter().collect());
                break;
            }
            Some(at) => {
                let mut line = &rest[..at];
                if line.last() == Some(&'\r') {
                    line = &line[..line.len() - 1];
                }
                lines.push(line.iter().collect());
                rest = &rest[at + 1..];
            }
        }
    }
    lines
}

#[test]
fn lines_are_split_as_stated() {
    for content in [
        "", "a", "a\n", "\n", "\n\n", "a\nb", "a\r\nb", "a\r", "a\r\n", "a\r\r\n", "\r", "\r\n", "a\n\nb\n", "a\rb\nc", "é\nü\r\n日本\n",
        "1\n2\n3\n4\n5\n6\n7\n8", "1\r\n2\r\n3\r\n4\r",
    ] {
        let expected = group_slots(&lines_as_stated(content));
        assert_eq!(parse_slot_file(content).unwrap(), expected, "content {content:?}");
        let by_std: Vec<String> = content.lines().map(str::to_owned).collect();
        assert_eq!(lines_as_stated(content), by_std, "content {content:?}");
    }
    let slots = parse_slot_file("n\ng\nx\np\r").unwrap();
    assert_eq!(slots[0].3, "p\r");
}
