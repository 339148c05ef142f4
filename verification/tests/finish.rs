use multiarchi::finish::FinishError;
use multiarchi::status::Status;
use multiarchi::store::Store;
use multiarchi::tracking::{SlotData, TrackOptions};

fn entry(name: &str, games: &[&str]) -> (String, SlotData) {
    (
        name.to_string(),
        SlotData {
            status: Status::Unstarted,
            games: games.iter().map(|game| game.to_string()).collect(),
            checks: 0,
            checks_total: 10,
            last_activity: None,
        },
    )
}

fn options() -> TrackOptions {
    TrackOptions { awards_points: true, use_claims: true }
}

/// The world W with the slot S5, worth three points and claimed by E, and
/// the unclaimed slot S6; another world V with a slot that E holds too.
fn world() -> (Store, i64) {
    let mut store = Store::new();
    store.track_world("t", "W", None, "", options(), &vec![entry("S5", &["A", "B"]), entry("S6", &["A"])]).unwrap();
    store.track_world("t", "V", None, "", options(), &vec![entry("S5", &["A"])]).unwrap();
    let e = store.get_player(500, "E").unwrap().id;
    assert_eq!(store.claim(e, "W", "S5"), Ok(()));
    assert_eq!(store.claim(e, "V", "S5"), Ok(()));
    (store, e)
}

#[test]
fn finish_error_message() {
    assert_eq!(FinishError::UpdatePoints.message(), "Failed to update points. Aborting");
}

#[test]
fn finishing_awards_points_and_removes_the_world() {
    let (mut store, e) = world();
    assert_eq!(store.tracked_slots[0].points, 3);
    let report = store.finish_world("W").unwrap();
    assert_eq!(report, vec![("S5".to_string(), Some(500)), ("S6".to_string(), None)]);
    assert_eq!(store.players[0].id, e);
    assert_eq!(store.players[0].points, 3);
    assert_eq!(store.tracked_worlds.len(), 1);
    assert_eq!(store.tracked_worlds[0].name, "V");
    assert_eq!(store.tracked_slots.len(), 1);
    assert_eq!(store.tracked_slots[0].world, store.tracked_worlds[0].id);
    assert_eq!(store.claims.len(), 1);
    assert_eq!(store.claims[0].slot, store.tracked_slots[0].id);
    assert!(store.is_wf());
}

#[test]
fn finishing_adds_to_the_points_a_player_has() {
    let (mut store, _) = world();
    store.players[0].points = 40;
    store.finish_world("V").unwrap();
    assert_eq!(store.players[0].points, 42);
    store.finish_world("W").unwrap();
    assert_eq!(store.players[0].points, 45);
}

#[test]
fn finishing_removes_status_notes_and_the_world_before_tracking() {
    let (mut store, e) = world();
    store
        .new_world("W", 10, None, &vec![("S5".to_string(), "A".to_string(), "".to_string(), "3".to_string())])
        .unwrap();
    store
        .new_world("U", 10, None, &vec![("S1".to_string(), "A".to_string(), "".to_string(), "3".to_string())])
        .unwrap();
    let w_slot = store.slots[0].id;
    let u_slot = store.slots[1].id;
    let f = store.get_player(600, "F").unwrap().id;
    assert!(store.preclaim(f, w_slot).is_ok());
    let g = store.get_player(700, "G").unwrap().id;
    assert!(store.preclaim(g, u_slot).is_ok());
    assert!(store.add_update(e, "W", "S5", "half way", 11).is_ok());
    assert!(store.add_update(e, "V", "S5", "stuck", 12).is_ok());
    store.finish_world("W").unwrap();
    assert_eq!(store.updates.len(), 1);
    assert_eq!(store.updates[0].description, "stuck");
    assert_eq!(store.worlds.len(), 1);
    assert_eq!(store.worlds[0].name, "U");
    assert_eq!(store.slots.len(), 1);
    assert_eq!(store.slots[0].id, u_slot);
    assert_eq!(store.preclaims.len(), 1);
    assert_eq!(store.preclaims[0].player, g);
    assert!(store.is_wf());
}

#[test]
fn finishing_an_unknown_world_changes_nothing() {
    let (mut store, _) = world();
    let before = format!("{:?}", store);
    assert_eq!(store.finish_world("nope"), Ok(vec![]));
    assert_eq!(format!("{:?}", store), before);
}

#[test]
fn failed_finish_changes_nothing() {
    let (mut store, _) = world();
    store.players[0].points = i64::MAX - 2;
    let before = format!("{:?}", store);
    assert_eq!(store.finish_world("W"), Err(FinishError::UpdatePoints));
    assert_eq!(format!("{:?}", store), before);
    // One point fewer in the ledger and the world can be finished.
    store.players[0].points = i64::MAX - 3;
    assert!(store.finish_world("W").is_ok());
    assert_eq!(store.players[0].points, i64::MAX);
}

#[test]
fn failure_at_a_later_slot_undoes_the_earlier_ones() {
    let mut store = Store::new();
    store
        .track_world("t", "W", None, "", options(), &vec![entry("S1", &["A"]), entry("S2", &["A"]), entry("S3", &["A"])])
        .unwrap();
    let a = store.get_player(1, "A").unwrap().id;
    let b = store.get_player(2, "B").unwrap().id;
    assert_eq!(store.claim(a, "W", "S1"), Ok(()));
    assert_eq!(store.claim(b, "W", "S3"), Ok(()));
    store.players[1].points = i64::MAX;
    let before = format!("{:?}", store);
    assert_eq!(store.finish_world("W"), Err(FinishError::UpdatePoints));
    assert_eq!(format!("{:?}", store), before);
    assert_eq!(store.players[0].points, 0);
}

#[test]
fn finished_leaves_the_store_alone() {
    let (store, _) = world();
    let before = format!("{:?}", store);
    let (next, report) = store.finished("W").unwrap();
    assert_eq!(format!("{:?}", store), before);
    assert_eq!(report.len(), 2);
    assert_eq!(next.players[0].points, 3);
    assert_eq!(next.tracked_worlds.len(), 1);
    assert_eq!(next.next_id, store.next_id);
}

#[test]
fn claimant_is_reported_by_the_outside_identity() {
    let (store, e) = world();
    let s5 = store.tracked_slots[0].id;
    let s6 = store.tracked_slots[1].id;
    assert_eq!(store.claimant_of(s5), Some(500));
    assert_eq!(store.claimant_of(s6), None);
    assert!(store.is_claimed_by(s5, e));
    assert!(!store.is_claimed_by(s6, e));
    assert!(store.is_tracked_slot_under(s5, &"W".to_string()));
    assert!(!store.is_tracked_slot_under(s5, &"V".to_string()));
}
