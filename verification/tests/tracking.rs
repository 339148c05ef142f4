use multiarchi::resolver::resolve_preclaims;
use multiarchi::status::Status;
use multiarchi::store::{PreclaimStatus, Store};
use multiarchi::tracking::{SlotData, TrackError, TrackOptions};

fn entry(name: &str, games: &[&str]) -> (String, SlotData) {
    (
        name.to_string(),
        SlotData {
            status: Status::InProgress,
            games: games.iter().map(|game| game.to_string()).collect(),
            checks: 4,
            checks_total: 10,
            last_activity: Some(7),
        },
    )
}

fn options() -> TrackOptions {
    TrackOptions { awards_points: true, use_claims: true }
}

fn slot_file(names: &[&str]) -> Vec<(String, String, String, String)> {
    names.iter().map(|name| (name.to_string(), "Game".to_string(), "".to_string(), "2".to_string())).collect()
}

#[test]
fn tracking_in_an_unknown_reality_fails() {
    let mut store = Store::new();
    let before = format!("{:?}", store);
    assert_eq!(store.track_world("t", "W", Some("R"), "", options(), &vec![entry("S", &[])]), Err(TrackError::RealityNotFound));
    assert_eq!(format!("{:?}", store), before);
}

#[test]
fn tracking_without_ids_left_fails() {
    let mut store = Store::new();
    store.next_id = i64::MAX - 1;
    let before = format!("{:?}", store);
    assert_eq!(store.track_world("t", "W", None, "", options(), &vec![entry("S", &[])]), Err(TrackError::CreateWorld));
    assert_eq!(format!("{:?}", store), before);
    assert_eq!(store.track_world("t", "W", None, "", options(), &vec![]), Ok(0));
    assert_eq!(store.next_id, i64::MAX);
}

#[test]
fn tracked_world_gets_its_slots_from_the_tracker() {
    let mut store = Store::new();
    let reality = store.new_reality("R", 3).unwrap();
    let unclaimed = store
        .track_world("abc", "W", Some("R"), "", options(), &vec![entry("S1", &["A", "Stardew Valley", "A"]), entry("S2", &["Clique"])])
        .unwrap();
    assert_eq!(unclaimed, 2);
    assert_eq!(store.tracked_worlds.len(), 1);
    let world = &store.tracked_worlds[0];
    assert_eq!(world.name, "W");
    assert_eq!(world.tracker_id, "abc");
    assert_eq!(world.reality, Some(reality.id));
    assert!(!world.done);
    assert_eq!(world.last_scrape, 0);
    assert_eq!(store.tracked_slots.len(), 2);
    let s1 = &store.tracked_slots[0];
    assert_eq!(s1.world, world.id);
    assert_eq!(s1.id, world.id + 1);
    assert_eq!(s1.name, "S1");
    assert_eq!(s1.games, "A x2, Stardew Valley");
    assert_eq!(s1.points, 5);
    assert_eq!(s1.status, Status::InProgress);
    assert_eq!(s1.checks, 4);
    assert_eq!(s1.checks_total, 10);
    assert_eq!(s1.last_activity, Some(7));
    assert!(!s1.free);
    let s2 = &store.tracked_slots[1];
    assert_eq!(s2.id, world.id + 2);
    assert_eq!(s2.games, "Clique");
    assert_eq!(s2.points, 1);
    assert_eq!(store.next_id, world.id + 3);
    assert!(store.claims.is_empty());
    assert!(store.is_wf());
}

#[test]
fn options_decide_points_and_capacity() {
    let mut store = Store::new();
    store
        .track_world("t", "W", None, "", TrackOptions { awards_points: false, use_claims: false }, &vec![entry("S1", &["A", "B"])])
        .unwrap();
    assert_eq!(store.tracked_slots[0].points, 0);
    assert!(store.tracked_slots[0].free);
}

#[test]
fn won_preclaims_become_claims() {
    let mut store = Store::new();
    store.new_world("W", 100, None, &slot_file(&["S1", "S2", "S3"])).unwrap();
    let ids: Vec<i64> = store.slots.iter().map(|slot| slot.id).collect();
    let a = store.get_player(1, "A").unwrap().id;
    let b = store.get_player(2, "B").unwrap().id;
    assert!(store.preclaim(a, ids[0]).is_ok());
    assert!(store.preclaim(b, ids[2]).is_ok());
    let unclaimed = store
        .track_world("t", "W", None, "", options(), &vec![entry("S3", &[]), entry("S2", &[]), entry("S1", &[])])
        .unwrap();
    assert_eq!(unclaimed, 1);
    assert!(store.worlds[0].resolved_preclaims);
    assert!(store.preclaims.iter().all(|p| p.status == PreclaimStatus::Won));
    let slot_named = |name: &str| store.tracked_slots.iter().find(|slot| slot.name == name).unwrap().id;
    let mut claims: Vec<(i64, i64)> = store.claims.iter().map(|claim| (claim.slot, claim.player)).collect();
    claims.sort();
    let mut expected = vec![(slot_named("S1"), a), (slot_named("S3"), b)];
    expected.sort();
    assert_eq!(claims, expected);
    assert!(store.is_wf());
}

#[test]
fn tracking_after_resolution_keeps_the_winners() {
    let mut store = Store::new();
    store.new_world("W", 100, None, &slot_file(&["S1"])).unwrap();
    let s1 = store.slots[0].id;
    let a = store.get_player(1, "A").unwrap().id;
    let b = store.get_player(2, "B").unwrap().id;
    assert!(store.preclaim(a, s1).is_ok());
    assert!(store.preclaim(b, s1).is_ok());
    let winners = resolve_preclaims(&mut store, "W").unwrap();
    let unclaimed = store.track_world("t", "W", None, "", options(), &vec![entry("S1", &[])]).unwrap();
    assert_eq!(unclaimed, 0);
    assert_eq!(store.claims.len(), 1);
    assert_eq!(store.claims[0].player, winners[0].1);
}

#[test]
fn claims_are_imported_from_another_world() {
    let mut store = Store::new();
    store.track_world("t", "Old", None, "", options(), &vec![entry("S1", &[]), entry("S2", &[])]).unwrap();
    let a = store.get_player(1, "A").unwrap().id;
    assert_eq!(store.claim(a, "Old", "S2"), Ok(()));
    let unclaimed = store
        .track_world("t", "New", None, "Old", options(), &vec![entry("S1", &[]), entry("S2", &[]), entry("S3", &[])])
        .unwrap();
    assert_eq!(unclaimed, 2);
    assert_eq!(store.claims.len(), 2);
    let new_s2 = store.tracked_slots[3].id;
    assert_eq!(store.tracked_slots[3].name, "S2");
    assert_eq!((store.claims[1].slot, store.claims[1].player), (new_s2, a));
    assert_eq!(store.heir_of(&"New".to_string(), &"Old".to_string(), &"S2".to_string()), Some(a));
    assert_eq!(store.heir_of(&"New".to_string(), &"Old".to_string(), &"S1".to_string()), None);
}

#[test]
fn winner_by_preclaim_comes_before_an_imported_claim() {
    let mut store = Store::new();
    store.track_world("t", "Old", None, "", options(), &vec![entry("S1", &[])]).unwrap();
    store.new_world("New", 100, None, &slot_file(&["S1"])).unwrap();
    let s1 = store.slots[0].id;
    let a = store.get_player(1, "A").unwrap().id;
    let b = store.get_player(2, "B").unwrap().id;
    assert!(store.preclaim(b, s1).is_ok());
    assert_eq!(store.claim(a, "Old", "S1"), Ok(()));
    store.track_world("t", "New", None, "Old", options(), &vec![entry("S1", &[])]).unwrap();
    assert_eq!(store.claims.len(), 2);
    assert_eq!(store.claims[1].player, b);
}

#[test]
fn begin_tracking_draws_nothing() {
    let mut store = Store::new();
    store.new_world("W", 100, None, &slot_file(&["S1"])).unwrap();
    let s1 = store.slots[0].id;
    let a = store.get_player(1, "A").unwrap().id;
    assert!(store.preclaim(a, s1).is_ok());
    let unclaimed = store.begin_tracking("t", "W", None, "", options(), &vec![entry("S1", &[])]).unwrap();
    assert_eq!(unclaimed, 1);
    assert!(store.claims.is_empty());
    assert_eq!(store.preclaims[0].status, PreclaimStatus::Pending);
    assert!(!store.worlds[0].resolved_preclaims);
}
