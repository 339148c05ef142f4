use multiarchi::lifecycle::Phase;
use multiarchi::resolver::resolve_preclaims;
use multiarchi::status::Status;
use multiarchi::store::Store;
use multiarchi::tracking::{SlotData, TrackOptions};

fn slot_file(names: &[&str]) -> Vec<(String, String, String, String)> {
    names.iter().map(|name| (name.to_string(), "Game".to_string(), "".to_string(), "2".to_string())).collect()
}

fn entry(name: &str) -> (String, SlotData) {
    (name.to_string(), SlotData { status: Status::Unstarted, games: vec!["Game".to_string()], checks: 0, checks_total: 10, last_activity: None })
}

#[test]
fn world_goes_through_its_phases() {
    let mut store = Store::new();
    assert_eq!(store.phase_of("W"), Phase::Gone);
    store.new_world("W", 100, None, &slot_file(&["S1"])).unwrap();
    assert_eq!(store.phase_of("W"), Phase::PreTracking);
    resolve_preclaims(&mut store, "W").unwrap();
    assert_eq!(store.phase_of("W"), Phase::PreclaimsClosed);
    resolve_preclaims(&mut store, "W").unwrap();
    assert_eq!(store.phase_of("W"), Phase::PreclaimsClosed);
    store.track_world("t", "W", None, "", TrackOptions { awards_points: true, use_claims: true }, &vec![entry("S1")]).unwrap();
    assert_eq!(store.phase_of("W"), Phase::Active);
    store.finish_world("W").unwrap();
    assert_eq!(store.phase_of("W"), Phase::Gone);
    assert!(store.worlds.is_empty() && store.tracked_worlds.is_empty());
}

#[test]
fn tracking_resolves_preclaims_that_are_still_open() {
    let mut store = Store::new();
    store.new_world("W", 100, None, &slot_file(&["S1"])).unwrap();
    store.track_world("t", "W", None, "", TrackOptions { awards_points: true, use_claims: true }, &vec![entry("S1")]).unwrap();
    assert_eq!(store.phase_of("W"), Phase::Active);
    assert!(store.worlds[0].resolved_preclaims);
}

#[test]
fn cancelled_world_is_gone() {
    let mut store = Store::new();
    store.new_world("W", 100, None, &slot_file(&["S1"])).unwrap();
    store.new_world("V", 100, None, &slot_file(&["S1"])).unwrap();
    store.cancel_preclaims("W");
    assert_eq!(store.phase_of("W"), Phase::Gone);
    assert_eq!(store.phase_of("V"), Phase::PreTracking);
}

#[test]
fn free_worlds_take_no_capacity_when_they_are_tracked() {
    let mut store = Store::new();
    store.new_reality("R", 1).unwrap();
    store.track_world("t", "Old", Some("R"), "", TrackOptions { awards_points: true, use_claims: true }, &vec![entry("S1")]).unwrap();
    let a = store.get_player(1, "A").unwrap().id;
    assert_eq!(store.claim(a, "Old", "S1"), Ok(()));
    let pool = store.tracked_worlds[0].reality;
    store.track_world("t", "New", Some("R"), "Old", TrackOptions { awards_points: true, use_claims: false }, &vec![entry("S1")]).unwrap();
    assert_eq!(store.claims.len(), 2);
    assert_eq!(store.count_current_claims(a, pool), 1);
}

#[test]
fn claims_that_come_with_a_world_may_exceed_an_allowance() {
    let mut store = Store::new();
    store.new_reality("R", 1).unwrap();
    store.track_world("t", "Old", Some("R"), "", TrackOptions { awards_points: true, use_claims: true }, &vec![entry("S1")]).unwrap();
    let a = store.get_player(1, "A").unwrap().id;
    assert_eq!(store.claim(a, "Old", "S1"), Ok(()));
    let pool = store.tracked_worlds[0].reality;
    store.track_world("t", "New", Some("R"), "Old", TrackOptions { awards_points: true, use_claims: true }, &vec![entry("S1")]).unwrap();
    assert_eq!(store.count_current_claims(a, pool), 2);
}
