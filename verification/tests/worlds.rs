use multiarchi::admission::Denial;
use multiarchi::status::Status;
use multiarchi::store::{PreclaimStatus, Reality, Store};
use multiarchi::tracking::{SlotData, TrackOptions};
use multiarchi::worlds::{NewWorldError, PreclaimError, RealityError};

fn slot_file(names: &[&str]) -> Vec<(String, String, String, String)> {
    names
        .iter()
        .map(|name| (name.to_string(), format!("{name} games"), format!("{name} notes"), "2".to_string()))
        .collect()
}

#[test]
fn new_store_is_empty_and_consistent() {
    let store = Store::new();
    assert!(store.is_wf());
    assert_eq!(store.next_id, 1);
    assert!(store.players.is_empty() && store.claims.is_empty() && store.preclaims.is_empty());
}

#[test]
fn inconsistent_tables_are_told_apart() {
    let mut store = Store::new();
    store.track_world(
        "t",
        "W",
        None,
        "",
        TrackOptions { awards_points: true, use_claims: true },
        &vec![("S".to_string(), SlotData { status: Status::Unstarted, games: vec![], checks: 0, checks_total: 1, last_activity: None })],
    )
    .unwrap();
    let a = store.get_player(1, "A").unwrap().id;
    let b = store.get_player(2, "B").unwrap().id;
    assert_eq!(store.claim(a, "W", "S"), Ok(()));
    assert!(store.is_wf());
    let mut twice = store.clone();
    let mut second = twice.claims[0].clone();
    second.player = b;
    twice.claims.push(second);
    assert!(!twice.is_wf());
    let mut negative = store.clone();
    negative.players[0].points = -1;
    assert!(!negative.is_wf());
    let mut stale = store.clone();
    stale.next_id = 1;
    assert!(!stale.is_wf());
}

#[test]
fn player_is_registered_once() {
    let mut store = Store::new();
    let first = store.get_player(42, "Ann").unwrap();
    assert_eq!((first.id, first.snowflake, first.points, first.unspent_points), (1, 42, 0, 0));
    assert_eq!(first.name, "Ann");
    let again = store.get_player(42, "Renamed").unwrap();
    assert_eq!(again.id, first.id);
    assert_eq!(again.name, "Ann");
    let other = store.get_player(43, "Bob").unwrap();
    assert_eq!(other.id, 2);
    assert_eq!(store.players.len(), 2);
    assert_eq!(store.find_player(43), Some(1));
    assert_eq!(store.find_player(44), None);
}

#[test]
fn player_is_not_registered_without_an_id() {
    let mut store = Store::new();
    store.next_id = i64::MAX;
    assert!(store.get_player(42, "Ann").is_none());
    assert!(store.players.is_empty());
}

#[test]
fn reality_needs_room_for_a_claim() {
    let mut store = Store::new();
    assert_eq!(store.new_reality("R", 0), Err(RealityError::InvalidMaxClaims));
    assert_eq!(store.new_reality("R", -1), Err(RealityError::InvalidMaxClaims));
    assert!(store.realities.is_empty());
    assert_eq!(store.new_reality("R", 1), Ok(Reality { id: 1, max_claims: 1 }));
    assert_eq!(store.realities[0].name, "R");
    assert_eq!(store.find_reality(&"R".to_string()), Some(Reality { id: 1, max_claims: 1 }));
    assert_eq!(store.find_reality(&"Q".to_string()), None);
    assert_eq!(store.reality_of_pool(Some(1)), Some(Reality { id: 1, max_claims: 1 }));
    assert_eq!(store.reality_of_pool(Some(9)), Some(Reality { id: 9, max_claims: 2 }));
    assert_eq!(store.reality_of_pool(None), None);
    store.next_id = i64::MAX;
    assert_eq!(store.new_reality("Q", 1), Err(RealityError::Exhausted));
}

#[test]
fn new_world_gets_its_slots() {
    let mut store = Store::new();
    let reality = store.new_reality("R", 2).unwrap();
    assert_eq!(store.new_world("W", 1234, Some("R"), &slot_file(&["S1", "S2"])), Ok(2));
    let world = &store.worlds[0];
    assert_eq!(world.id, 2);
    assert_eq!(world.name, "W");
    assert_eq!(world.reality, Some(reality.id));
    assert_eq!(world.preclaim_end, 1234);
    assert!(!world.resolved_preclaims);
    assert_eq!(store.slots.len(), 2);
    assert_eq!((store.slots[0].id, store.slots[0].world), (3, 2));
    assert_eq!((store.slots[1].id, store.slots[1].world), (4, 2));
    assert_eq!(store.slots[1].name, "S2");
    assert_eq!(store.slots[1].games, "S2 games");
    assert_eq!(store.slots[1].notes, "S2 notes");
    assert_eq!(store.slots[1].points, "2");
    assert_eq!(store.next_id, 5);
    assert!(store.is_wf());
}

#[test]
fn new_world_failures_change_nothing() {
    let mut store = Store::new();
    assert_eq!(store.new_world("W", 1, Some("R"), &slot_file(&["S1"])), Err(NewWorldError::RealityNotFound));
    assert_eq!(store.new_world("W", 1, None, &slot_file(&["S1"])), Ok(1));
    let before = format!("{:?}", store);
    assert_eq!(store.new_world("W", 2, None, &slot_file(&["S2"])), Err(NewWorldError::CreateWorld));
    assert_eq!(format!("{:?}", store), before);
    store.next_id = i64::MAX - 1;
    assert_eq!(store.new_world("V", 2, None, &slot_file(&["S2"])), Err(NewWorldError::CreateWorld));
    assert_eq!(store.new_world("V", 2, None, &slot_file(&[])), Ok(0));
}

#[test]
fn preclaim_replaces_the_pending_one() {
    let mut store = Store::new();
    store.new_world("W", 100, None, &slot_file(&["S1", "S2"])).unwrap();
    let a = store.get_player(1, "A").unwrap().id;
    let (s1, s2) = (store.slots[0].id, store.slots[1].id);
    assert_eq!(store.preclaim(a, s1), Ok(()));
    assert_eq!(store.preclaim(a, s2), Ok(()));
    assert_eq!(store.preclaims.len(), 1);
    assert_eq!((store.preclaims[0].slot, store.preclaims[0].player, store.preclaims[0].status), (s2, a, PreclaimStatus::Pending));
    assert_eq!(store.preclaim(a, 999), Err(PreclaimError::SlotNotFound));
    assert_eq!(store.preclaims.len(), 1);
    assert!(store.has_pre_slot(s1));
    assert!(!store.has_pre_slot(999));
}

#[test]
fn preclaim_keeps_settled_preclaims() {
    let mut store = Store::new();
    store.new_world("W", 100, None, &slot_file(&["S1"])).unwrap();
    store.new_world("V", 100, None, &slot_file(&["S1"])).unwrap();
    let a = store.get_player(1, "A").unwrap().id;
    let (w, v) = (store.slots[0].id, store.slots[1].id);
    assert_eq!(store.preclaim(a, w), Ok(()));
    store.settle("W", &vec![(w, a)]);
    assert_eq!(store.preclaim(a, v), Ok(()));
    assert_eq!(store.preclaims.len(), 2);
    assert_eq!(store.preclaims[0].status, PreclaimStatus::Won);
    assert_eq!(store.preclaims[1].status, PreclaimStatus::Pending);
}

#[test]
fn preclaim_is_denied_at_the_cap() {
    let mut store = Store::new();
    store.new_reality("R", 1).unwrap();
    store.new_world("W", 100, Some("R"), &slot_file(&["S1"])).unwrap();
    store
        .track_world(
            "t",
            "T",
            Some("R"),
            "",
            TrackOptions { awards_points: true, use_claims: true },
            &vec![("S".to_string(), SlotData { status: Status::Unstarted, games: vec![], checks: 0, checks_total: 1, last_activity: None })],
        )
        .unwrap();
    let a = store.get_player(1, "A").unwrap().id;
    assert_eq!(store.claim(a, "T", "S"), Ok(()));
    assert_eq!(store.preclaim(a, store.slots[0].id), Err(PreclaimError::AdmissionDenied(Denial::NoAvailableClaim)));
    assert!(store.preclaims.is_empty());
}

#[test]
fn unpreclaim_takes_back_open_preclaims_only() {
    let mut store = Store::new();
    store.new_world("Open", 100, None, &slot_file(&["S1"])).unwrap();
    store.new_world("Closed", 50, None, &slot_file(&["S1"])).unwrap();
    let a = store.get_player(1, "A").unwrap().id;
    let b = store.get_player(2, "B").unwrap().id;
    let (open, closed) = (store.slots[0].id, store.slots[1].id);
    assert_eq!(store.preclaim(a, open), Ok(()));
    assert_eq!(store.preclaim(b, closed), Ok(()));
    assert!(store.is_slot_open(open, 60));
    assert!(!store.is_slot_open(closed, 60));
    assert!(!store.unpreclaim(2, 60));
    assert_eq!(store.preclaims.len(), 2);
    assert!(store.unpreclaim(1, 60));
    assert_eq!(store.preclaims.len(), 1);
    assert_eq!(store.preclaims[0].player, b);
    assert!(!store.unpreclaim(1, 60));
    assert!(!store.unpreclaim(3, 60));
}

#[test]
fn cancel_removes_the_world_with_its_slots_and_preclaims() {
    let mut store = Store::new();
    store.new_world("W", 100, None, &slot_file(&["S1", "S2"])).unwrap();
    store.new_world("V", 100, None, &slot_file(&["S1"])).unwrap();
    let a = store.get_player(1, "A").unwrap().id;
    let b = store.get_player(2, "B").unwrap().id;
    assert_eq!(store.preclaim(a, store.slots[0].id), Ok(()));
    assert_eq!(store.preclaim(b, store.slots[2].id), Ok(()));
    store.cancel_preclaims("W");
    assert_eq!(store.worlds.len(), 1);
    assert_eq!(store.worlds[0].name, "V");
    assert_eq!(store.slots.len(), 1);
    assert_eq!(store.preclaims.len(), 1);
    assert_eq!(store.preclaims[0].player, b);
    store.cancel_preclaims("nope");
    assert_eq!(store.worlds.len(), 1);
    assert!(store.is_wf());
}

#[test]
fn reschedule_moves_the_end() {
    let mut store = Store::new();
    store.new_world("W", 100, None, &slot_file(&["S1"])).unwrap();
    store.new_world("V", 100, None, &slot_file(&["S1"])).unwrap();
    assert!(store.reschedule_preclaims("V", 500));
    assert_eq!(store.worlds[0].preclaim_end, 100);
    assert_eq!(store.worlds[1].preclaim_end, 500);
    assert_eq!(store.worlds[1].name, "V");
    assert!(!store.reschedule_preclaims("nope", 500));
}
