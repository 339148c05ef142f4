use multiarchi::scrape::{merge_rows, row_status, TrackerRow, SCRAPE_INTERVAL};
use multiarchi::status::Status;
use multiarchi::store::Store;
use multiarchi::tracking::{SlotData, TrackOptions};

fn row(name: &str, game: &str, goal: bool, checks: u32, total: u32, last: Option<u32>) -> TrackerRow {
    TrackerRow { name: name.to_string(), game: game.to_string(), goal_completed: goal, checks, checks_total: total, last_activity: last }
}

fn reading(name: &str, status: Status, checks: u32, last: Option<u32>) -> (String, SlotData) {
    (name.to_string(), SlotData { status, games: vec![], checks, checks_total: 10, last_activity: last })
}

fn two_worlds(statuses: &[(&str, Status)]) -> Store {
    let mut store = Store::new();
    let data: Vec<(String, SlotData)> = statuses.iter().map(|(name, status)| reading(name, *status, 1, Some(5))).collect();
    store.track_world("abc", "W", None, "", TrackOptions { awards_points: true, use_claims: true }, &data).unwrap();
    store.track_world("def", "V", None, "", TrackOptions { awards_points: true, use_claims: true }, &data).unwrap();
    store
}

#[test]
fn status_of_a_row() {
    assert_eq!(row_status(false, 0, 10), Status::Unstarted);
    assert_eq!(row_status(false, 0, 0), Status::Unstarted);
    assert_eq!(row_status(false, 3, 10), Status::InProgress);
    assert_eq!(row_status(false, 10, 10), Status::AllChecks);
    assert_eq!(row_status(true, 0, 10), Status::Goal);
    assert_eq!(row_status(true, 3, 10), Status::Goal);
    assert_eq!(row_status(true, 10, 10), Status::Done);
    assert_eq!(row_status(true, 0, 0), Status::Done);
}

#[test]
fn rows_of_one_name_make_one_slot() {
    let rows = vec![
        row("Ann", "A", false, 3, 10, Some(5)),
        row("Bob", "B", true, 10, 10, None),
        row("Ann", "C", true, 4, 20, Some(9)),
    ];
    let slots = merge_rows(&rows).unwrap();
    assert_eq!(slots.len(), 2);
    assert_eq!(slots[0].0, "Ann");
    let ann = &slots[0].1;
    assert_eq!(ann.status, Status::Goal);
    assert_eq!(ann.games, vec!["A".to_string(), "C".to_string()]);
    assert_eq!((ann.checks, ann.checks_total, ann.last_activity), (7, 30, Some(9)));
    assert_eq!(slots[1].0, "Bob");
    let bob = &slots[1].1;
    assert_eq!(bob.status, Status::Done);
    assert_eq!(bob.games, vec!["B".to_string()]);
    assert_eq!((bob.checks, bob.checks_total, bob.last_activity), (10, 10, None));
}

#[test]
fn merged_rows_follow_the_status_merge() {
    let rows = vec![row("Ann", "A", true, 10, 10, Some(5)), row("Ann", "B", false, 0, 10, None)];
    let slots = merge_rows(&rows).unwrap();
    assert_eq!(slots[0].1.status, Status::Unstarted);
    assert_eq!(slots[0].1.last_activity, None);
    assert_eq!(merge_rows(&vec![]).unwrap().len(), 0);
}

#[test]
fn checks_out_of_range_show_nothing() {
    let rows = vec![row("Ann", "A", false, u32::MAX, u32::MAX, None), row("Ann", "B", false, 1, 0, None), row("Bob", "B", false, 1, 2, None)];
    assert!(merge_rows(&rows).is_none());
    let rows = vec![row("Ann", "A", false, 0, u32::MAX, None), row("Ann", "B", false, 1, 1, None)];
    assert!(merge_rows(&rows).is_none());
    let rows = vec![row("Ann", "A", false, u32::MAX - 1, 5, None), row("Ann", "B", false, 1, 1, None)];
    assert_eq!(merge_rows(&rows).unwrap()[0].1.checks, u32::MAX);
}

#[test]
fn reading_is_due_once_an_hour() {
    assert_eq!(SCRAPE_INTERVAL, 3600);
    let mut store = two_worlds(&[("S1", Status::Unstarted)]);
    assert_eq!(store.begin_scrape("nope", 10_000), None);
    assert_eq!(store.begin_scrape("W", 3600), None);
    assert_eq!(store.tracked_worlds[0].last_scrape, 0);
    assert_eq!(store.begin_scrape("W", 3601), Some("abc".to_string()));
    assert_eq!(store.tracked_worlds[0].last_scrape, 3601);
    assert_eq!(store.tracked_worlds[1].last_scrape, 0);
    assert_eq!(store.begin_scrape("W", 7201), None);
    assert_eq!(store.begin_scrape("W", 7202), Some("abc".to_string()));
    assert_eq!(store.begin_scrape("V", i64::MIN), None);
    assert!(store.is_wf());
}

#[test]
fn reading_is_merged_into_the_slots_of_the_world() {
    let mut store = two_worlds(&[("S1", Status::InProgress), ("S2", Status::Goal), ("S3", Status::Done), ("S4", Status::InProgress)]);
    store.refresh(
        "W",
        &vec![
            reading("S1", Status::Goal, 8, Some(1)),
            reading("S2", Status::InProgress, 9, None),
            reading("S3", Status::AllChecks, 10, Some(2)),
            reading("S9", Status::Done, 10, Some(2)),
        ],
    );
    let seen: Vec<(Status, u32, Option<u32>)> = store.tracked_slots.iter().map(|slot| (slot.status, slot.checks, slot.last_activity)).collect();
    assert_eq!(
        seen,
        vec![
            (Status::Goal, 8, Some(1)),
            (Status::Goal, 9, None),
            (Status::AllChecks, 10, Some(2)),
            (Status::InProgress, 1, Some(5)),
            (Status::InProgress, 1, Some(5)),
            (Status::Goal, 1, Some(5)),
            (Status::Done, 1, Some(5)),
            (Status::InProgress, 1, Some(5)),
        ]
    );
    assert!(!store.tracked_worlds[0].done);
    assert!(store.is_wf());
}

#[test]
fn observed_unstarted_resets_a_slot() {
    let mut store = two_worlds(&[("S1", Status::Goal)]);
    store.refresh("W", &vec![reading("S1", Status::Unstarted, 0, None)]);
    assert_eq!(store.tracked_slots[0].status, Status::Unstarted);
}

#[test]
fn world_is_done_when_every_slot_reached_its_goal() {
    let mut store = two_worlds(&[("S1", Status::InProgress), ("S2", Status::InProgress)]);
    store.refresh("W", &vec![reading("S1", Status::Goal, 8, None), reading("S2", Status::InProgress, 8, None)]);
    assert!(!store.tracked_worlds[0].done);
    store.refresh("W", &vec![reading("S1", Status::Goal, 8, None), reading("S2", Status::Done, 10, None)]);
    assert!(store.tracked_worlds[0].done);
    assert!(!store.tracked_worlds[1].done);
}
