use multiarchi::commands::claims::ClaimCommand;
use multiarchi::commands::players::{FindCommand, RegisterCommandsCommand, TransferPointsCommand, WorldsCommand};
use multiarchi::commands::Bot;
use multiarchi::export::{PushGuard, PUSH_INTERVAL};
use multiarchi::overview::{Overview, PreclaimOverview, Sort, TrackedOverview};
use multiarchi::status::Status;
use multiarchi::tracking::{SlotData, TrackOptions};
use multiarchi::validate::all_distinct;

const ADMIN: i64 = 1000;

fn entry(name: &str, status: Status) -> (String, SlotData) {
    (name.to_string(), SlotData { status, games: vec!["Game".to_string()], checks: 0, checks_total: 10, last_activity: None })
}

fn bot() -> Bot {
    let mut bot = Bot::new(vec![ADMIN], vec![]);
    let options = TrackOptions { awards_points: true, use_claims: true };
    bot.store
        .track_world(
            "t",
            "W",
            None,
            "",
            options,
            &vec![entry("S1", Status::Unstarted), entry("S2", Status::Goal), entry("S3", Status::Goal), entry("S4", Status::Done)],
        )
        .unwrap();
    bot.store.track_world("t", "V", None, "", options, &vec![entry("S1", Status::AllChecks)]).unwrap();
    bot.store
        .new_world(
            "P",
            100,
            None,
            &vec![
                ("X".to_string(), "g".to_string(), "".to_string(), "1".to_string()),
                ("Y".to_string(), "g".to_string(), "".to_string(), "1".to_string()),
            ],
        )
        .unwrap();
    bot
}

#[test]
fn sort_orders() {
    assert_eq!(Sort::try_from("sent"), Some(Sort::Sent));
    assert_eq!(Sort::try_from("checks"), Some(Sort::Checks));
    assert_eq!(Sort::try_from("Sent"), None);
    assert_eq!(Sort::try_from(""), None);
    assert_eq!(Sort::Sent.as_i(), 0);
    assert_eq!(Sort::Checks.as_i(), 1);
    assert_eq!(Sort::try_from_i(0), Some(Sort::Sent));
    assert_eq!(Sort::try_from_i(1), Some(Sort::Checks));
    assert_eq!(Sort::try_from_i(2), None);
}

#[test]
fn overview_lists_what_is_not_zero() {
    let world = Overview::Active(TrackedOverview {
        name: "W".to_string(),
        unclaimed: 3,
        unstarted: 0,
        in_progress: 12,
        goal: 0,
        all_checks: 1,
        done: 0,
    });
    assert_eq!(world.field(), ("W", "Unclaimed: 3\nIn progress: 12\nAll checks: 1".to_string(), false));
    let full = Overview::Active(TrackedOverview { name: "F".to_string(), unclaimed: 1, unstarted: 2, in_progress: 3, goal: 4, all_checks: 5, done: 6 });
    assert_eq!(full.field().1, "Unclaimed: 1\nUnstarted: 2\nIn progress: 3\nGoal: 4\nAll checks: 5\nDone: 6");
    let waiting = Overview::Preclaim(PreclaimOverview { name: "P".to_string(), slots: 2, preclaims: 0 });
    assert_eq!(waiting.field(), ("P", "Slots: 2".to_string(), false));
    let empty = Overview::Preclaim(PreclaimOverview { name: "E".to_string(), slots: 0, preclaims: 0 });
    assert_eq!(empty.field(), ("E", "".to_string(), false));
}

#[test]
fn worlds_at_a_glance() {
    let mut bot = bot();
    assert!(ClaimCommand::execute(&mut bot, 5, "Ann", "W", "S2").push_needed);
    let a = bot.store.players[0].id;
    assert!(bot.store.preclaim(a, bot.store.slots[1].id).is_ok());
    let fields: Vec<(String, String)> = WorldsCommand::execute(&bot)
        .iter()
        .map(|world| {
            let (title, text, _) = world.field();
            (title.to_string(), text)
        })
        .collect();
    assert_eq!(
        fields,
        vec![
            ("P".to_string(), "Slots: 2\nPreclaims: 1".to_string()),
            ("W".to_string(), "Unclaimed: 3\nUnstarted: 1\nGoal: 2\nDone: 1".to_string()),
            ("V".to_string(), "Unclaimed: 1\nAll checks: 1".to_string()),
        ]
    );
    let w = bot.store.tracked_worlds[0].id;
    assert_eq!(bot.store.count_with_status(w, Status::Goal), 2);
    assert_eq!(bot.store.count_with_status(w, Status::InProgress), 0);
    assert_eq!(bot.store.count_unclaimed(w), 3);
    let p = bot.store.worlds[0].id;
    assert_eq!(bot.store.count_slots(p), 2);
    assert_eq!(bot.store.count_preclaims(p), 1);
    assert!(bot.store.is_pre_slot_in(bot.store.slots[0].id, p));
    assert!(!bot.store.is_pre_slot_in(bot.store.slots[0].id, w));
}

#[test]
fn find_command_answers() {
    let mut bot = bot();
    assert!(ClaimCommand::execute(&mut bot, 55, "Ann", "W", "S2").push_needed);
    assert_eq!(FindCommand::name(), "find");
    assert_eq!(FindCommand::execute(&bot, "", "S2").text, "A world is required");
    assert_eq!(FindCommand::execute(&bot, "W", "").text, "A slot is required");
    assert_eq!(FindCommand::execute(&bot, "W", "nope").text, "Failed to find slot");
    assert_eq!(FindCommand::execute(&bot, "W", "S1").text, "Failed to find player");
    assert_eq!(FindCommand::execute(&bot, "W", "S2").text, "S2 in W is claimed by <@55>");
}

#[test]
fn transfer_points_command_answers() {
    let mut bot = bot();
    let a = bot.store.get_player(55, "Ann").unwrap().id;
    let b = bot.store.get_player(66, "Bob").unwrap().id;
    assert_eq!(TransferPointsCommand::name(), "transfer-points");
    assert_eq!(TransferPointsCommand::execute(&mut bot, 55, Some(77)).text, "Failed to get recipient");
    assert_eq!(bot.store.players[0].transfer_to, None);
    assert_eq!(TransferPointsCommand::execute(&mut bot, 55, Some(66)).text, "Began transferring points to <@66>");
    assert_eq!(bot.store.players[0].id, a);
    assert_eq!(bot.store.players[0].transfer_to, Some(b));
    assert_eq!(bot.store.players[1].transfer_to, None);
    assert_eq!(TransferPointsCommand::execute(&mut bot, 55, None).text, "You are no longer transferring your earned points");
    assert_eq!(bot.store.players[0].transfer_to, None);
    assert!(bot.store.is_wf());
}

#[test]
fn register_commands_command_answers() {
    let bot = bot();
    assert_eq!(RegisterCommandsCommand::name(), "register-commands");
    assert_eq!(WorldsCommand::name(), "worlds");
    assert!(RegisterCommandsCommand::check(&bot, ADMIN).is_none());
    assert_eq!(RegisterCommandsCommand::check(&bot, 5).unwrap().text, "You do not have permission to use this command");
    assert_eq!(RegisterCommandsCommand::answer(true).text, "Successfully registered commands");
    assert_eq!(RegisterCommandsCommand::answer(false).text, "Failed to register commands");
}

#[test]
fn unspent_points_are_noted_by_name() {
    let mut bot = bot();
    bot.store.get_player(55, "ann").unwrap();
    bot.store.get_player(66, "bob").unwrap();
    bot.store.set_unspent_points("bob", 7);
    bot.store.set_unspent_points("Ann", 9);
    assert_eq!(bot.store.players[0].unspent_points, 0);
    assert_eq!(bot.store.players[1].unspent_points, 7);
    assert_eq!(bot.store.players[1].points, 0);
}

#[test]
fn pushes_are_kept_apart() {
    assert_eq!(PUSH_INTERVAL, 60);
    let mut guard = PushGuard::new();
    assert_eq!(guard, PushGuard { latest_push: 0, pending: false });
    assert!(!guard.begin_push(1000));
    guard.push_needed();
    assert!(guard.pending);
    assert!(!guard.begin_push(59));
    assert!(guard.pending);
    assert!(guard.begin_push(60));
    assert_eq!(guard, PushGuard { latest_push: 60, pending: false });
    guard.push_needed();
    assert!(!guard.begin_push(119));
    assert!(!guard.begin_push(10));
    assert!(guard.begin_push(120));
    let mut late = PushGuard { latest_push: u64::MAX - 10, pending: true };
    assert!(!late.begin_push(u64::MAX));
}

#[test]
fn summary_has_a_line_for_every_slot() {
    let mut bot = bot();
    assert!(ClaimCommand::execute(&mut bot, 55, "Ann", "W", "S2").push_needed);
    bot.store.mark_free("W", "S3");
    let rows: Vec<(String, String, String, Option<String>)> =
        bot.store.sheet_rows().into_iter().map(|row| (row.world, row.slot, row.status, row.player)).collect();
    let line = |world: &str, slot: &str, status: &str, player: Option<&str>| {
        (world.to_string(), slot.to_string(), status.to_string(), player.map(str::to_string))
    };
    assert_eq!(
        rows,
        vec![
            line("W", "S1", "Unclaimed", None),
            line("W", "S2", "Goal", Some("Ann")),
            line("W", "S3", "Unclaimed [Free claim]", None),
            line("W", "S4", "Unclaimed", None),
            line("V", "S1", "Unclaimed", None),
        ]
    );
    assert_eq!(bot.store.holder_of(bot.store.tracked_slots[1].id), Some("Ann".to_string()));
    assert_eq!(bot.store.holder_of(bot.store.tracked_slots[0].id), None);
}

#[test]
fn numbers_that_differ() {
    assert!(all_distinct(&vec![]));
    assert!(all_distinct(&vec![3, 1, 2]));
    assert!(!all_distinct(&vec![3, 1, 3]));
    assert!(!all_distinct(&vec![1, 1]));
}
