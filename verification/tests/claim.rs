use multiarchi::admission::Denial;
use multiarchi::claim::ClaimError;
use multiarchi::status::Status;
use multiarchi::store::{PreclaimStatus, Store};
use multiarchi::tracking::{SlotData, TrackOptions};

fn entry(name: &str) -> (String, SlotData) {
    (
        name.to_string(),
        SlotData { status: Status::Unstarted, games: vec!["Game".to_string()], checks: 0, checks_total: 10, last_activity: None },
    )
}

fn track(store: &mut Store, world: &str, reality: Option<&str>, slots: &[&str]) {
    let data: Vec<(String, SlotData)> = slots.iter().map(|slot| entry(slot)).collect();
    store.track_world("tracker", world, reality, "", TrackOptions { awards_points: true, use_claims: true }, &data).unwrap();
}

fn player(store: &mut Store, snowflake: i64) -> i64 {
    store.get_player(snowflake, "someone").unwrap().id
}

fn claims_on(store: &Store, slot: i64) -> usize {
    store.claims.iter().filter(|claim| claim.slot == slot).count()
}

#[test]
fn claim_error_messages() {
    assert_eq!(ClaimError::SlotNotFound.message(), "Failed to get slot");
    assert_eq!(ClaimError::AlreadyClaimed.message(), "Slot is already claimed");
    assert_eq!(ClaimError::AdmissionDenied(Denial::NoAvailableClaim).message(), "No available claim");
    assert_eq!(ClaimError::AdmissionDenied(Denial::TooManyRealities).message(), "You cannot join more realities");
}

#[test]
fn claim_of_an_unknown_slot_or_world_fails() {
    let mut store = Store::new();
    track(&mut store, "W", None, &["S1"]);
    let a = player(&mut store, 100);
    assert_eq!(store.claim(a, "W", "nope"), Err(ClaimError::SlotNotFound));
    assert_eq!(store.claim(a, "nope", "S1"), Err(ClaimError::SlotNotFound));
    assert!(store.claims.is_empty());
}

#[test]
fn claim_is_recorded() {
    let mut store = Store::new();
    track(&mut store, "W", None, &["S1"]);
    let a = player(&mut store, 100);
    assert_eq!(store.claim(a, "W", "S1"), Ok(()));
    assert_eq!(store.claims.len(), 1);
    assert_eq!(store.claims[0].slot, store.tracked_slots[0].id);
    assert_eq!(store.claims[0].player, a);
    assert_eq!(store.claims[0].public, None);
    assert!(store.is_claimed(store.tracked_slots[0].id));
}

#[test]
fn second_claimant_of_a_slot_is_turned_away() {
    let mut store = Store::new();
    track(&mut store, "W", None, &["S7"]);
    let a = player(&mut store, 100);
    let b = player(&mut store, 200);
    assert_eq!(store.claim(a, "W", "S7"), Ok(()));
    assert_eq!(store.claim(b, "W", "S7"), Err(ClaimError::AlreadyClaimed));
    assert_eq!(store.claim(a, "W", "S7"), Err(ClaimError::AlreadyClaimed));
    assert_eq!(claims_on(&store, store.tracked_slots[0].id), 1);
    assert_eq!(store.claims[0].player, a);
}

#[test]
fn admission_is_checked_before_the_slot_is_found_taken() {
    let mut store = Store::new();
    store.new_reality("R", 1).unwrap();
    track(&mut store, "W", Some("R"), &["S1", "S2"]);
    let a = player(&mut store, 100);
    let b = player(&mut store, 200);
    assert_eq!(store.claim(a, "W", "S1"), Ok(()));
    assert_eq!(store.claim(b, "W", "S2"), Ok(()));
    assert_eq!(store.claim(a, "W", "S2"), Err(ClaimError::AdmissionDenied(Denial::NoAvailableClaim)));
}

#[test]
fn free_slot_is_claimed_at_the_cap() {
    let mut store = Store::new();
    store.new_reality("R", 1).unwrap();
    track(&mut store, "W", Some("R"), &["S1", "S4"]);
    store.mark_free("W", "S4");
    let d = player(&mut store, 400);
    assert_eq!(store.claim(d, "W", "S1"), Ok(()));
    assert_eq!(store.claim(d, "W", "S4"), Ok(()));
    let s4 = store.tracked_slots[1].id;
    assert!(store.claims.iter().any(|claim| claim.slot == s4 && claim.player == d));
    // The free claim takes no capacity.
    assert_eq!(store.count_current_claims(d, store.tracked_worlds[0].reality), 1);
}

#[test]
fn free_slot_that_is_taken_stays_taken() {
    let mut store = Store::new();
    track(&mut store, "W", None, &["S4"]);
    store.mark_free("W", "S4");
    let a = player(&mut store, 100);
    let b = player(&mut store, 200);
    assert_eq!(store.claim(a, "W", "S4"), Ok(()));
    assert_eq!(store.claim(b, "W", "S4"), Err(ClaimError::AlreadyClaimed));
}

#[test]
fn claim_forfeits_pending_preclaims() {
    let mut store = Store::new();
    track(&mut store, "W", None, &["S1"]);
    store
        .new_world("P", 50, None, &vec![("X".to_string(), "g".to_string(), "".to_string(), "1".to_string())])
        .unwrap();
    let a = player(&mut store, 100);
    let b = player(&mut store, 200);
    let x = store.slots[0].id;
    assert!(store.preclaim(a, x).is_ok());
    assert!(store.preclaim(b, x).is_ok());
    assert_eq!(store.preclaims.len(), 2);
    assert_eq!(store.claim(a, "W", "S1"), Ok(()));
    assert_eq!(store.preclaims.len(), 1);
    assert_eq!(store.preclaims[0].player, b);
    assert_eq!(store.preclaims[0].status, PreclaimStatus::Pending);
}

#[test]
fn failed_claim_keeps_pending_preclaims() {
    let mut store = Store::new();
    track(&mut store, "W", None, &["S1"]);
    store
        .new_world("P", 50, None, &vec![("X".to_string(), "g".to_string(), "".to_string(), "1".to_string())])
        .unwrap();
    let a = player(&mut store, 100);
    let x = store.slots[0].id;
    assert!(store.preclaim(a, x).is_ok());
    assert_eq!(store.claim(a, "W", "nope"), Err(ClaimError::SlotNotFound));
    assert_eq!(store.preclaims.len(), 1);
}

#[test]
fn no_slot_is_claimed_twice_whatever_is_tried() {
    let mut store = Store::new();
    store.new_reality("R", 2).unwrap();
    track(&mut store, "W", Some("R"), &["S1", "S2", "S3"]);
    let players: Vec<i64> = (0..5).map(|n| player(&mut store, 100 + n)).collect();
    for round in 0..3 {
        for who in &players {
            for slot in ["S1", "S2", "S3"] {
                let _ = store.claim(*who, "W", slot);
            }
        }
        if round == 1 {
            store.unclaim("W", "S2");
        }
    }
    for slot in &store.tracked_slots {
        assert!(claims_on(&store, slot.id) <= 1);
    }
    assert!(store.is_wf());
}

#[test]
fn no_player_exceeds_an_allowance_by_claiming() {
    let mut store = Store::new();
    store.new_reality("R1", 2).unwrap();
    store.new_reality("R2", 1).unwrap();
    store.new_reality("R3", 3).unwrap();
    track(&mut store, "W1", Some("R1"), &["A", "B", "C"]);
    track(&mut store, "W2", Some("R2"), &["A", "B"]);
    track(&mut store, "W3", Some("R3"), &["A", "B"]);
    track(&mut store, "W4", None, &["A", "B", "C"]);
    let a = player(&mut store, 100);
    for world in ["W1", "W2", "W3", "W4"] {
        for slot in ["A", "B", "C"] {
            let _ = store.claim(a, world, slot);
        }
    }
    let r1 = store.tracked_worlds[0].reality;
    let r2 = store.tracked_worlds[1].reality;
    let r3 = store.tracked_worlds[2].reality;
    assert_eq!(store.count_current_claims(a, r1), 2);
    assert_eq!(store.count_current_claims(a, r2), 1);
    assert_eq!(store.count_current_claims(a, r3), 0);
    assert_eq!(store.count_current_claims(a, None), 2);
    assert_eq!(store.list_current_realities(a).len(), 2);
}
