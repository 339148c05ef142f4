use multiarchi::points::{calc_points, decimal_text, game_str, points_of_game, same_text};
use multiarchi::text::{join2, join3, join4, join5, join_lines, signed_text};

fn games(names: &[&str]) -> Vec<String> {
    names.iter().map(|name| name.to_string()).collect()
}

#[test]
fn games_are_worth_one_point_but_for_the_exceptions() {
    for game in ["Clique", "Autopelago", "ArchipIDLE", "Archipelago", "APBingo"] {
        assert_eq!(points_of_game(game), 0);
    }
    for game in ["Keymaster's Keep", "Stardew Valley"] {
        assert_eq!(points_of_game(game), 2);
    }
    for game in ["Hollow Knight", "clique", "Stardew", ""] {
        assert_eq!(points_of_game(game), 1);
    }
}

#[test]
fn slot_is_worth_one_point_and_its_games() {
    assert_eq!(calc_points(&games(&[])), 1);
    assert_eq!(calc_points(&games(&["Clique"])), 1);
    assert_eq!(calc_points(&games(&["Hollow Knight"])), 2);
    assert_eq!(calc_points(&games(&["Stardew Valley"])), 3);
    assert_eq!(calc_points(&games(&["Hollow Knight", "Keymaster's Keep", "APBingo"])), 4);
    assert_eq!(calc_points(&games(&["A", "A", "A"])), 4);
}

#[test]
fn games_are_listed_once_with_their_number() {
    assert_eq!(game_str(&games(&[])), "");
    assert_eq!(game_str(&games(&["A"])), "A");
    assert_eq!(game_str(&games(&["A", "B"])), "A, B");
    assert_eq!(game_str(&games(&["A", "B", "A"])), "A x2, B");
    assert_eq!(game_str(&games(&["B", "A", "A", "B", "B", "C"])), "B x3, A x2, C");
    let many = vec!["A".to_string(); 12];
    assert_eq!(game_str(&many), "A x12");
}

#[test]
fn numbers_in_decimal() {
    assert_eq!(decimal_text(0), "0");
    assert_eq!(decimal_text(7), "7");
    assert_eq!(decimal_text(10), "10");
    assert_eq!(decimal_text(1234567890), "1234567890");
    assert_eq!(decimal_text(u64::MAX), "18446744073709551615");
    assert_eq!(signed_text(0), "0");
    assert_eq!(signed_text(-5), "-5");
    assert_eq!(signed_text(i64::MAX), "9223372036854775807");
    assert_eq!(signed_text(i64::MIN), "-9223372036854775808");
}

#[test]
fn texts_are_compared_and_joined() {
    assert!(same_text("abc", "abc"));
    assert!(!same_text("abc", "abd"));
    assert!(!same_text("abc", "ab"));
    assert_eq!(join2("a", "b"), "ab");
    assert_eq!(join3("a", "b", "c"), "abc");
    assert_eq!(join4("a", "b", "c", "d"), "abcd");
    assert_eq!(join5("a", "b", "c", "d", "e"), "abcde");
    let lines = games(&["one", "two", "three"]);
    assert_eq!(join_lines(&lines, 0, 3), "one\ntwo\nthree");
    assert_eq!(join_lines(&lines, 1, 2), "two");
    assert_eq!(join_lines(&lines, 2, 2), "");
}
