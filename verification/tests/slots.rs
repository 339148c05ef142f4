use multiarchi::slots::NotFound;
use multiarchi::status::Status;
use multiarchi::store::Store;
use multiarchi::tracking::{SlotData, TrackOptions};

fn entry(name: &str) -> (String, SlotData) {
    (
        name.to_string(),
        SlotData { status: Status::InProgress, games: vec!["Game".to_string()], checks: 1, checks_total: 10, last_activity: None },
    )
}

/// Two worlds with the slots S1 and S2 each; A holds S1 in both and B holds
/// S2 of the first.
fn worlds() -> (Store, i64, i64) {
    let mut store = Store::new();
    let options = TrackOptions { awards_points: true, use_claims: true };
    store.track_world("t", "W", None, "", options, &vec![entry("S1"), entry("S2")]).unwrap();
    store.track_world("t", "V", None, "", options, &vec![entry("S1"), entry("S2")]).unwrap();
    let a = store.get_player(1, "A").unwrap().id;
    let b = store.get_player(2, "B").unwrap().id;
    assert_eq!(store.claim(a, "W", "S1"), Ok(()));
    assert_eq!(store.claim(a, "V", "S1"), Ok(()));
    assert_eq!(store.claim(b, "W", "S2"), Ok(()));
    (store, a, b)
}

#[test]
fn unclaim_frees_the_named_slot_only() {
    let (mut store, a, b) = worlds();
    store.unclaim("W", "S1");
    let left: Vec<(i64, i64)> = store.claims.iter().map(|claim| (claim.slot, claim.player)).collect();
    assert_eq!(left, vec![(store.tracked_slots[2].id, a), (store.tracked_slots[1].id, b)]);
    store.unclaim("W", "nope");
    store.unclaim("nope", "S2");
    assert_eq!(store.claims.len(), 2);
    assert!(store.is_wf());
}

#[test]
fn mark_free_changes_the_named_slot_only() {
    let (mut store, a, _) = worlds();
    assert_eq!(store.count_current_claims(a, None), 2);
    store.mark_free("W", "S1");
    let free: Vec<bool> = store.tracked_slots.iter().map(|slot| slot.free).collect();
    assert_eq!(free, vec![true, false, false, false]);
    assert_eq!(store.count_current_claims(a, None), 1);
    assert_eq!(store.claims.len(), 3);
}

#[test]
fn organizer_marks_any_slot_done() {
    let (mut store, a, b) = worlds();
    assert_eq!(store.mark_done(None, "W", "S2"), Ok(()));
    let statuses: Vec<Status> = store.tracked_slots.iter().map(|slot| slot.status).collect();
    assert_eq!(statuses, vec![Status::InProgress, Status::Done, Status::InProgress, Status::InProgress]);
    // The claim on the slot is given up.
    assert!(store.claims.iter().all(|claim| claim.player != b));
    assert_eq!(store.claims.len(), 2);
    assert_eq!(store.count_current_claims(a, None), 2);
    assert!(store.is_wf());
}

#[test]
fn player_marks_own_slots_done_only() {
    let (mut store, a, b) = worlds();
    let before = format!("{:?}", store);
    assert_eq!(store.mark_done(Some(b), "W", "S1"), Err(NotFound));
    assert_eq!(store.mark_done(Some(a), "W", "nope"), Err(NotFound));
    assert_eq!(format!("{:?}", store), before);
    assert_eq!(store.mark_done(Some(a), "W", "S1"), Ok(()));
    assert_eq!(store.tracked_slots[0].status, Status::Done);
    assert_eq!(store.tracked_slots[2].status, Status::InProgress);
    assert_eq!(store.count_current_claims(a, None), 1);
}

#[test]
fn claim_is_opened_to_the_public_by_its_holder() {
    let (mut store, _, _) = worlds();
    assert!(!store.set_public(2, "W", "S1", "mine"));
    assert!(!store.set_public(1, "W", "S2", "mine"));
    assert!(!store.set_public(9, "W", "S1", "mine"));
    assert!(store.claims.iter().all(|claim| claim.public.is_none()));
    assert!(store.set_public(1, "W", "S1", "come along"));
    let public: Vec<Option<String>> = store.claims.iter().map(|claim| claim.public.clone()).collect();
    assert_eq!(public, vec![Some("come along".to_string()), None, None]);
    assert!(store.is_player_known_as(store.claims[0].player, 1));
    assert!(!store.is_player_known_as(store.claims[0].player, 2));
}

#[test]
fn status_note_is_recorded_on_the_named_slot() {
    let (mut store, a, _) = worlds();
    assert_eq!(store.add_update(a, "V", "S2", "nearly there", 77), Ok(()));
    assert_eq!(store.updates.len(), 1);
    let note = &store.updates[0];
    assert_eq!((note.slot, note.player, note.timestamp), (store.tracked_slots[3].id, a, 77));
    assert_eq!(note.description, "nearly there");
    assert_eq!(store.add_update(a, "V", "nope", "x", 78), Err(NotFound));
    assert_eq!(store.updates.len(), 1);
}

#[test]
fn slots_are_found_by_their_names() {
    let (store, _, _) = worlds();
    assert_eq!(store.find_named_slot(&"V".to_string(), &"S2".to_string()), Some(3));
    assert_eq!(store.find_named_slot(&"W".to_string(), &"S2".to_string()), Some(1));
    assert_eq!(store.find_named_slot(&"W".to_string(), &"S3".to_string()), None);
    assert!(store.does_slot_answer(store.tracked_slots[3].id, &"V".to_string(), &"S2".to_string()));
    assert!(!store.does_slot_answer(store.tracked_slots[3].id, &"W".to_string(), &"S2".to_string()));
    assert!(store.has_world_named(store.tracked_worlds[1].id, &"V".to_string()));
    assert!(!store.has_world_named(store.tracked_worlds[1].id, &"W".to_string()));
}
