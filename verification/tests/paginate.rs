use multiarchi::paginate::{get_page, page_count, sort_by_end, start_page, PageDetails, Slot, SlotId, UnclaimedSlot, UnclaimedWorld, World};
use multiarchi::status::Status;
use multiarchi::tracking::{SlotData, TrackOptions};
use multiarchi::store::Store;

fn world(name: &str, slots: std::ops::Range<i64>) -> World {
    World { name: name.to_string(), preclaim_end: 100, slots: slots.map(SlotId).collect() }
}

fn slot(notes: &str, current_preclaim: bool) -> Slot {
    Slot { id: 1, name: "Ann".to_string(), games: "A, B".to_string(), notes: notes.to_string(), points: "3".to_string(), current_preclaim }
}

#[test]
fn slot_is_shown_with_its_games_notes_and_points() {
    assert_eq!(slot("", false).field(), ("`Ann`".to_string(), "A, B\nPoints: 3".to_string(), false));
    assert_eq!(slot("slow", true).field(), ("`Ann` [Current Preclaim]".to_string(), "A, B\n*slow*\nPoints: 3".to_string(), false));
}

#[test]
fn pages_are_counted_per_world() {
    assert_eq!(page_count::<World>(&vec![], 24), Some(0));
    assert_eq!(page_count(&vec![world("A", 0..0)], 24), Some(0));
    assert_eq!(page_count(&vec![world("A", 0..1)], 24), Some(1));
    assert_eq!(page_count(&vec![world("A", 0..24)], 24), Some(1));
    assert_eq!(page_count(&vec![world("A", 0..25)], 24), Some(2));
    assert_eq!(page_count(&vec![world("A", 0..25), world("B", 0..48), world("C", 0..3)], 24), Some(5));
}

#[test]
fn page_is_found_by_walking_the_worlds() {
    let worlds = vec![world("A", 0..5), world("B", 10..12), world("C", 20..27)];
    let shown = |page: usize| get_page(&worlds, page, 3).map(|(world, slots)| (world.name.clone(), slots.to_vec()));
    assert_eq!(shown(0), Some(("A".to_string(), vec![SlotId(0), SlotId(1), SlotId(2)])));
    assert_eq!(shown(1), Some(("A".to_string(), vec![SlotId(3), SlotId(4)])));
    assert_eq!(shown(2), Some(("B".to_string(), vec![SlotId(10), SlotId(11)])));
    assert_eq!(shown(3), Some(("C".to_string(), vec![SlotId(20), SlotId(21), SlotId(22)])));
    assert_eq!(shown(4), Some(("C".to_string(), vec![SlotId(23), SlotId(24), SlotId(25)])));
    assert_eq!(shown(5), Some(("C".to_string(), vec![SlotId(26)])));
    assert_eq!(shown(6), None);
    assert_eq!(get_page::<World>(&vec![], 0, 3).map(|(world, _)| world.name.clone()), None);
}

#[test]
fn world_of_full_pages_ends_on_a_full_page() {
    let worlds = vec![world("A", 0..6), world("B", 10..11)];
    let shown = |page: usize| get_page(&worlds, page, 3).map(|(world, slots)| (world.name.clone(), slots.len()));
    assert_eq!(shown(0), Some(("A".to_string(), 3)));
    assert_eq!(shown(1), Some(("A".to_string(), 3)));
    assert_eq!(shown(2), Some(("B".to_string(), 1)));
    assert_eq!(shown(3), None);
}

#[test]
fn slot_details_show_the_preclaim_of_the_player() {
    let mut store = Store::new();
    store
        .new_world("W", 100, None, &vec![("Ann".to_string(), "A, B".to_string(), "slow".to_string(), "3".to_string())])
        .unwrap();
    let a = store.get_player(1, "A").unwrap().id;
    let b = store.get_player(2, "B").unwrap().id;
    let id = store.slots[0].id;
    assert!(store.preclaim(a, id).is_ok());
    let shown = SlotId(id).details(&store, a).unwrap();
    assert_eq!((shown.id, shown.current_preclaim), (id, true));
    assert_eq!((shown.name.as_str(), shown.games.as_str(), shown.notes.as_str(), shown.points.as_str()), ("Ann", "A, B", "slow", "3"));
    assert!(!SlotId(id).details(&store, b).unwrap().current_preclaim);
    assert!(SlotId(999).details(&store, a).is_none());
}

fn ending(name: &str, preclaim_end: i64) -> World {
    World { name: name.to_string(), preclaim_end, slots: vec![SlotId(1)] }
}

#[test]
fn worlds_are_sorted_by_the_end_of_their_preclaims() {
    let names = |worlds: Vec<World>| worlds.into_iter().map(|world| world.name).collect::<Vec<_>>();
    assert_eq!(names(sort_by_end(vec![])), Vec::<String>::new());
    assert_eq!(names(sort_by_end(vec![ending("A", 5)])), vec!["A"]);
    assert_eq!(
        names(sort_by_end(vec![ending("A", 5), ending("B", 3), ending("C", 9), ending("D", 3), ending("E", -1)])),
        vec!["E", "B", "D", "A", "C"]
    );
}

fn slot_file(names: &[&str]) -> Vec<(String, String, String, String)> {
    names.iter().map(|name| (name.to_string(), "Game".to_string(), "".to_string(), "2".to_string())).collect()
}

#[test]
fn worlds_that_accept_preclaims_are_listed() {
    let mut store = Store::new();
    store.new_world("Late", 300, None, &slot_file(&["S1", "S2"])).unwrap();
    store.new_world("Over", 100, None, &slot_file(&["S1"])).unwrap();
    store.new_world("Empty", 400, None, &slot_file(&[])).unwrap();
    store.new_world("Soon", 200, None, &slot_file(&["S1"])).unwrap();
    let shown: Vec<(String, i64, Vec<SlotId>)> =
        store.preclaim_worlds(100).into_iter().map(|world| (world.name, world.preclaim_end, world.slots)).collect();
    let id = |at: usize| SlotId(store.slots[at].id);
    assert_eq!(shown, vec![("Soon".to_string(), 200, vec![id(3)]), ("Late".to_string(), 300, vec![id(0), id(1)])]);
    let listed: Vec<String> = store.open_worlds(99).into_iter().map(|world| world.name).collect();
    assert_eq!(listed, vec!["Late", "Over", "Soon"]);
    assert!(store.preclaim_worlds(300).is_empty());
    assert_eq!(store.slot_ids_of(store.worlds[0].id), vec![id(0), id(1)]);
}

fn entry(name: &str) -> (String, SlotData) {
    (name.to_string(), SlotData { status: Status::Unstarted, games: vec!["Game".to_string()], checks: 0, checks_total: 10, last_activity: None })
}

#[test]
fn worlds_with_unclaimed_slots_are_listed() {
    let mut store = Store::new();
    let options = TrackOptions { awards_points: true, use_claims: true };
    store.track_world("t", "W", None, "", options, &vec![entry("S1"), entry("S2"), entry("S3")]).unwrap();
    store.track_world("t", "Full", None, "", options, &vec![entry("S1")]).unwrap();
    store.track_world("t", "V", None, "", options, &vec![entry("S1")]).unwrap();
    let a = store.get_player(1, "A").unwrap().id;
    let b = store.get_player(2, "B").unwrap().id;
    assert_eq!(store.claim(a, "W", "S2"), Ok(()));
    assert_eq!(store.claim(b, "Full", "S1"), Ok(()));
    store.mark_free("V", "S1");
    let worlds = store.unclaimed_worlds();
    let shown: Vec<(i64, String, Vec<SlotId>)> = worlds.iter().map(|world| (world.id, world.name.clone(), world.slots.clone())).collect();
    let id = |at: usize| SlotId(store.tracked_slots[at].id);
    assert_eq!(
        shown,
        vec![
            (store.tracked_worlds[0].id, "W".to_string(), vec![id(0), id(2)]),
            (store.tracked_worlds[2].id, "V".to_string(), vec![id(4)]),
        ]
    );
    let free = store.unclaimed_details(&id(4)).unwrap();
    assert_eq!(free.field(), ("S1".to_string(), "Game\n*Free claim*".to_string(), false));
    let taken = store.unclaimed_details(&id(0)).unwrap();
    assert_eq!(taken.field(), ("S1".to_string(), "Game".to_string(), false));
    assert!(store.unclaimed_details(&SlotId(999)).is_none());
    assert_eq!(UnclaimedSlot { name: "n".to_string(), games: "".to_string(), free: true }.field().1, "\n*Free claim*");
}

fn room(name: &str, slots: i64) -> UnclaimedWorld {
    UnclaimedWorld { id: 1, name: name.to_string(), slots: (0..slots).map(SlotId).collect() }
}

#[test]
fn world_begins_behind_the_pages_of_the_worlds_before_it() {
    let worlds = vec![room("A", 3), room("B", 25), room("C", 26), room("D", 60), room("E", 1)];
    assert_eq!(start_page(&worlds, "A", 25), Some(0));
    assert_eq!(start_page(&worlds, "B", 25), Some(1));
    assert_eq!(start_page(&worlds, "C", 25), Some(2));
    assert_eq!(start_page(&worlds, "D", 25), Some(4));
    assert_eq!(start_page(&worlds, "E", 25), Some(7));
    assert_eq!(start_page(&worlds, "nope", 25), Some(8));
    assert_eq!(start_page(&vec![], "A", 25), Some(0));
    let twice = vec![room("A", 30), room("B", 1), room("A", 1), room("C", 1)];
    assert_eq!(start_page(&twice, "A", 25), Some(0));
    assert_eq!(start_page(&twice, "C", 25), Some(4));
    assert_eq!(start_page(&twice, "B", 25), Some(2));
}
