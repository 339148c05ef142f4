use multiarchi::admission::{Denial, MAX_REALITIES, NO_REALITY_CLAIMS};
use multiarchi::claim::ClaimError;
use multiarchi::status::Status;
use multiarchi::store::{Reality, Store};
use multiarchi::tracking::{SlotData, TrackOptions};

fn entry(name: &str) -> (String, SlotData) {
    (
        name.to_string(),
        SlotData { status: Status::Unstarted, games: vec!["Game".to_string()], checks: 0, checks_total: 10, last_activity: None },
    )
}

fn options() -> TrackOptions {
    TrackOptions { awards_points: true, use_claims: true }
}

fn track(store: &mut Store, world: &str, reality: Option<&str>, slots: &[&str]) {
    let data: Vec<(String, SlotData)> = slots.iter().map(|slot| entry(slot)).collect();
    store.track_world("tracker", world, reality, "", options(), &data).unwrap();
}

fn player(store: &mut Store, snowflake: i64) -> i64 {
    store.get_player(snowflake, "someone").unwrap().id
}

#[test]
fn constants_are_as_documented() {
    assert_eq!(MAX_REALITIES, 2);
    assert_eq!(NO_REALITY_CLAIMS, 2);
}

#[test]
fn denial_messages() {
    assert_eq!(Denial::TooManyRealities.message(), "You cannot join more realities");
    assert_eq!(Denial::NoAvailableClaim.message(), "No available claim");
}

#[test]
fn player_without_claims_is_admitted() {
    let mut store = Store::new();
    let reality = store.new_reality("R", 1).unwrap();
    let a = player(&mut store, 100);
    assert_eq!(store.can_claim_in_reality(a, Some(reality)), Ok(()));
    assert_eq!(store.can_claim_in_reality(a, None), Ok(()));
}

#[test]
fn second_claim_in_a_reality_of_one_is_denied() {
    let mut store = Store::new();
    store.new_reality("R", 1).unwrap();
    track(&mut store, "W", Some("R"), &["S1", "S2"]);
    let a = player(&mut store, 100);
    assert_eq!(store.claim(a, "W", "S1"), Ok(()));
    assert_eq!(store.claim(a, "W", "S2"), Err(ClaimError::AdmissionDenied(Denial::NoAvailableClaim)));
    assert_eq!(store.claims.len(), 1);
    assert_eq!(store.count_current_claims(a, Some(store.tracked_worlds[0].reality.unwrap())), 1);
}

#[test]
fn a_max_claims_of_zero_or_less_admits_nobody() {
    let store = Store::new();
    assert_eq!(store.can_claim_in_reality(1, Some(Reality { id: 7, max_claims: 0 })), Err(Denial::NoAvailableClaim));
    assert_eq!(store.can_claim_in_reality(1, Some(Reality { id: 7, max_claims: -3 })), Err(Denial::NoAvailableClaim));
}

#[test]
fn third_reality_is_denied() {
    let mut store = Store::new();
    store.new_reality("R1", 5).unwrap();
    store.new_reality("R2", 5).unwrap();
    store.new_reality("R3", 5).unwrap();
    track(&mut store, "W1", Some("R1"), &["A", "B"]);
    track(&mut store, "W2", Some("R2"), &["A"]);
    track(&mut store, "W3", Some("R3"), &["A"]);
    let a = player(&mut store, 100);
    assert_eq!(store.claim(a, "W1", "A"), Ok(()));
    assert_eq!(store.claim(a, "W2", "A"), Ok(()));
    assert_eq!(store.claim(a, "W3", "A"), Err(ClaimError::AdmissionDenied(Denial::TooManyRealities)));
    // One more claim in a reality that the player has joined is no new reality.
    assert_eq!(store.claim(a, "W1", "B"), Ok(()));
    let mut joined = store.list_current_realities(a);
    joined.sort();
    let mut expected = vec![store.tracked_worlds[0].reality.unwrap(), store.tracked_worlds[1].reality.unwrap()];
    expected.sort();
    assert_eq!(joined, expected);
}

#[test]
fn worlds_without_a_reality_share_the_default_allowance() {
    let mut store = Store::new();
    track(&mut store, "W1", None, &["A", "B"]);
    track(&mut store, "W2", None, &["A"]);
    let a = player(&mut store, 100);
    assert_eq!(store.claim(a, "W1", "A"), Ok(()));
    assert_eq!(store.claim(a, "W2", "A"), Ok(()));
    assert_eq!(store.claim(a, "W1", "B"), Err(ClaimError::AdmissionDenied(Denial::NoAvailableClaim)));
    assert_eq!(store.count_current_claims(a, None), 2);
    assert!(store.list_current_realities(a).is_empty());
}

#[test]
fn the_pool_without_a_reality_is_no_reality_to_join() {
    let mut store = Store::new();
    store.new_reality("R1", 5).unwrap();
    store.new_reality("R2", 5).unwrap();
    track(&mut store, "W0", None, &["A"]);
    track(&mut store, "W1", Some("R1"), &["A"]);
    track(&mut store, "W2", Some("R2"), &["A"]);
    let a = player(&mut store, 100);
    assert_eq!(store.claim(a, "W0", "A"), Ok(()));
    assert_eq!(store.claim(a, "W1", "A"), Ok(()));
    assert_eq!(store.claim(a, "W2", "A"), Ok(()));
}

#[test]
fn claims_of_others_do_not_count() {
    let mut store = Store::new();
    store.new_reality("R", 1).unwrap();
    track(&mut store, "W", Some("R"), &["S1", "S2"]);
    let a = player(&mut store, 100);
    let b = player(&mut store, 200);
    assert_eq!(store.claim(a, "W", "S1"), Ok(()));
    assert_eq!(store.claim(b, "W", "S2"), Ok(()));
}

#[test]
fn slot_pool_of_free_and_unknown_slots() {
    let mut store = Store::new();
    store.new_reality("R", 1).unwrap();
    track(&mut store, "W", Some("R"), &["S1", "S2"]);
    let s1 = store.tracked_slots[0].id;
    let s2 = store.tracked_slots[1].id;
    store.mark_free("W", "S2");
    assert_eq!(store.pool_of_slot(s1), Some(store.tracked_worlds[0].reality));
    assert_eq!(store.pool_of_slot(s2), None);
    assert_eq!(store.pool_of_slot(9999), None);
}

#[test]
fn decisions_by_slot() {
    let mut store = Store::new();
    store.new_reality("R", 1).unwrap();
    track(&mut store, "W", Some("R"), &["S1", "S2"]);
    store.new_world("P", 50, Some("R"), &vec![("X".to_string(), "g".to_string(), "".to_string(), "1".to_string())]).unwrap();
    let a = player(&mut store, 100);
    let s2 = store.tracked_slots[1].id;
    let x = store.slots[0].id;
    assert_eq!(store.can_claim_slot(a, s2), Ok(()));
    assert_eq!(store.can_preclaim_slot(a, x), Ok(()));
    assert_eq!(store.claim(a, "W", "S1"), Ok(()));
    assert_eq!(store.can_claim_slot(a, s2), Err(Denial::NoAvailableClaim));
    assert_eq!(store.can_preclaim_slot(a, x), Err(Denial::NoAvailableClaim));
}
