use multiarchi::resolver::{draw, resolve_preclaims, ResolveError};
use multiarchi::status::Status;
use multiarchi::store::{Preclaim, PreclaimStatus, Store};
use multiarchi::tracking::{SlotData, TrackOptions};

fn slot_file(names: &[&str]) -> Vec<(String, String, String, String)> {
    names.iter().map(|name| (name.to_string(), "Game".to_string(), "".to_string(), "2".to_string())).collect()
}

fn player(store: &mut Store, snowflake: i64) -> i64 {
    store.get_player(snowflake, "someone").unwrap().id
}

fn pending(slot: i64, player: i64) -> Preclaim {
    Preclaim { slot, player, status: PreclaimStatus::Pending }
}

fn status_of(store: &Store, slot: i64, player: i64) -> PreclaimStatus {
    store.preclaims.iter().find(|p| p.slot == slot && p.player == player).unwrap().status
}

/// A world with the slot S3 that A, B and C have preclaimed.
fn contested() -> (Store, i64, [i64; 3]) {
    let mut store = Store::new();
    store.new_world("W", 100, None, &slot_file(&["S3", "S8"])).unwrap();
    let s3 = store.slots[0].id;
    let a = player(&mut store, 1);
    let b = player(&mut store, 2);
    let c = player(&mut store, 3);
    for who in [a, b, c] {
        assert!(store.preclaim(who, s3).is_ok());
    }
    (store, s3, [a, b, c])
}

#[test]
fn resolving_an_unknown_world_fails() {
    let mut store = Store::new();
    assert_eq!(resolve_preclaims(&mut store, "W"), Err(ResolveError::WorldNotFound));
}

#[test]
fn world_without_preclaims_resolves_to_nothing() {
    let mut store = Store::new();
    store.new_world("W", 100, None, &slot_file(&["S3"])).unwrap();
    assert_eq!(resolve_preclaims(&mut store, "W"), Ok(vec![]));
    assert!(store.worlds[0].resolved_preclaims);
}

#[test]
fn one_of_three_contenders_wins() {
    let (mut store, s3, players) = contested();
    let winners = resolve_preclaims(&mut store, "W").unwrap();
    assert_eq!(winners.len(), 1);
    let (slot, winner) = winners[0];
    assert_eq!(slot, s3);
    assert!(players.contains(&winner));
    for who in players {
        let expected = if who == winner { PreclaimStatus::Won } else { PreclaimStatus::Superseded };
        assert_eq!(status_of(&store, s3, who), expected);
    }
    assert!(store.worlds[0].resolved_preclaims);
    assert!(store.is_wf());
}

#[test]
fn resolving_again_reads_the_winner_back() {
    let (mut store, _, _) = contested();
    let first = resolve_preclaims(&mut store, "W").unwrap();
    let before = format!("{:?}", store);
    for _ in 0..20 {
        let again = resolve_preclaims(&mut store, "W").unwrap();
        assert_eq!(again, first);
    }
    assert_eq!(format!("{:?}", store), before);
    assert!(store.worlds[0].resolved_preclaims);
}

#[test]
fn every_contended_slot_gets_one_winner() {
    let mut store = Store::new();
    store.new_world("W", 100, None, &slot_file(&["S1", "S2", "S3"])).unwrap();
    store.new_world("V", 100, None, &slot_file(&["S1"])).unwrap();
    let ids: Vec<i64> = store.slots.iter().map(|slot| slot.id).collect();
    let players: Vec<i64> = (0..6).map(|n| player(&mut store, 10 + n)).collect();
    assert!(store.preclaim(players[0], ids[0]).is_ok());
    assert!(store.preclaim(players[1], ids[0]).is_ok());
    assert!(store.preclaim(players[2], ids[1]).is_ok());
    assert!(store.preclaim(players[3], ids[3]).is_ok());
    let mut winners = resolve_preclaims(&mut store, "W").unwrap();
    winners.sort();
    assert_eq!(winners.len(), 2);
    assert_eq!(winners[0].0, ids[0]);
    assert!(winners[0].1 == players[0] || winners[0].1 == players[1]);
    assert_eq!(winners[1], (ids[1], players[2]));
    // The other world is untouched.
    assert_eq!(status_of(&store, ids[3], players[3]), PreclaimStatus::Pending);
    assert!(!store.worlds[1].resolved_preclaims);
}

#[test]
fn contender_who_lost_admission_cannot_win() {
    let mut store = Store::new();
    store.new_reality("R", 1).unwrap();
    store.new_world("W", 100, Some("R"), &slot_file(&["S3"])).unwrap();
    let data = vec![(
        "T".to_string(),
        SlotData { status: Status::Unstarted, games: vec![], checks: 0, checks_total: 1, last_activity: None },
    )];
    store.track_world("t", "Other", Some("R"), "", TrackOptions { awards_points: true, use_claims: true }, &data).unwrap();
    let s3 = store.slots[0].id;
    let a = player(&mut store, 1);
    let b = player(&mut store, 2);
    assert!(store.preclaim(a, s3).is_ok());
    assert!(store.preclaim(b, s3).is_ok());
    // B uses up the allowance in the reality after preclaiming. The claim
    // forfeits B's pending preclaim, so B preclaims anew by hand.
    assert_eq!(store.claim(b, "Other", "T"), Ok(()));
    store.preclaims.push(pending(s3, b));
    for _ in 0..10 {
        let mut trial = store.clone();
        let winners = resolve_preclaims(&mut trial, "W").unwrap();
        assert_eq!(winners, vec![(s3, a)]);
        assert_eq!(status_of(&trial, s3, b), PreclaimStatus::Superseded);
    }
}

#[test]
fn draw_of_nothing_is_nothing() {
    assert_eq!(draw(&vec![]), vec![]);
}

#[test]
fn draw_picks_among_the_contenders_of_each_slot() {
    let contenders = vec![pending(1, 10), pending(2, 20), pending(1, 11), pending(3, 30), pending(1, 12)];
    for _ in 0..50 {
        let winners = draw(&contenders);
        assert_eq!(winners.len(), 3);
        assert_eq!(winners[0].0, 1);
        assert!([10, 11, 12].contains(&winners[0].1));
        assert_eq!(winners[1], (2, 20));
        assert_eq!(winners[2], (3, 30));
    }
}

#[test]
fn every_contender_wins_about_as_often() {
    let contenders = vec![pending(1, 10), pending(1, 11), pending(1, 12)];
    let mut wins = [0u32; 3];
    let trials = 3000;
    for _ in 0..trials {
        let winners = draw(&contenders);
        assert_eq!(winners.len(), 1);
        wins[(winners[0].1 - 10) as usize] += 1;
    }
    for count in wins {
        let share = count as f64 / trials as f64;
        assert!(share > 0.25 && share < 0.42, "share {share}");
    }
}

#[test]
fn settle_marks_the_preclaims_of_the_world() {
    let (mut store, s3, players) = contested();
    store.new_world("V", 100, None, &slot_file(&["S1"])).unwrap();
    let other = store.slots[2].id;
    let d = player(&mut store, 4);
    assert!(store.preclaim(d, other).is_ok());
    store.settle("W", &vec![(s3, players[1])]);
    assert_eq!(status_of(&store, s3, players[0]), PreclaimStatus::Superseded);
    assert_eq!(status_of(&store, s3, players[1]), PreclaimStatus::Won);
    assert_eq!(status_of(&store, s3, players[2]), PreclaimStatus::Superseded);
    assert_eq!(status_of(&store, other, d), PreclaimStatus::Pending);
    assert!(store.worlds[0].resolved_preclaims);
    assert!(!store.worlds[1].resolved_preclaims);
    assert_eq!(store.winners_of(&"W".to_string()), vec![(s3, players[1])]);
    assert!(store.is_wf());
}

#[test]
fn contenders_are_the_pending_preclaims_of_the_world() {
    let (mut store, s3, players) = contested();
    store.new_world("V", 100, None, &slot_file(&["S1"])).unwrap();
    let other = store.slots[2].id;
    let d = player(&mut store, 4);
    assert!(store.preclaim(d, other).is_ok());
    let contenders = store.contenders_of(&"W".to_string());
    assert_eq!(contenders, vec![pending(s3, players[0]), pending(s3, players[1]), pending(s3, players[2])]);
    assert!(store.is_slot_under(s3, &"W".to_string()));
    assert!(!store.is_slot_under(other, &"W".to_string()));
}
