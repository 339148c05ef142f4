use multiarchi::cells::{has_text, is_white_space, parse_activity, parse_cells, parse_checks, parse_u32, slot_name, TrackerCells};
use multiarchi::text::parse_i64;

/// What the standard library makes of a name cell.
fn name_by_std(cell: &str) -> String {
    let mut name = cell;
    if name.ends_with(')') {
        name = name.split('(').next_back().unwrap().trim_end_matches(')');
    }
    name.trim_end_matches(['1', '2', '3', '4', '5', '6', '7', '8', '9', '0']).to_string()
}

fn checks_by_std(cell: &str) -> Option<(u32, u32)> {
    let (checks, checks_total) = cell.split_once('/')?;
    Some((checks.trim().parse().ok()?, checks_total.trim().parse().ok()?))
}

fn activity_by_std(cell: &str) -> Option<Option<u32>> {
    if cell == "None" {
        Some(None)
    } else {
        let (seconds, _) = cell.split_once('.')?;
        Some(Some(seconds.parse::<u32>().ok()? / 60))
    }
}

#[test]
fn slot_names() {
    assert_eq!(slot_name("Ann"), "Ann");
    assert_eq!(slot_name("Ann2"), "Ann");
    assert_eq!(slot_name("Ann 12"), "Ann ");
    assert_eq!(slot_name("Player7 (Ann)"), "Ann");
    assert_eq!(slot_name("Player7 (Ann3)"), "Ann");
    assert_eq!(slot_name("a (b) (c))"), "c");
    assert_eq!(slot_name("no paren)"), "no paren");
    assert_eq!(slot_name("123"), "");
    assert_eq!(slot_name(""), "");
    assert_eq!(slot_name("(x) y"), "(x) y");
}

#[test]
fn slot_names_agree_with_the_standard_library() {
    for cell in [
        "", "Ann", "Ann2", "Ann 12", "Player7 (Ann)", "Player7 (Ann3)", "a (b) (c))", "no paren)", "123", "(x) y", ")", "()", "(", "((1))2",
        "é1 (ü2)", "x(1)", "x(1))))", "9(8(7(6)5)4)3", "日本語 (名前9)",
    ] {
        assert_eq!(slot_name(cell), name_by_std(cell), "cell {cell:?}");
    }
}

#[test]
fn counts() {
    assert_eq!(parse_u32("0"), Some(0));
    assert_eq!(parse_u32("007"), Some(7));
    assert_eq!(parse_u32("+12"), Some(12));
    assert_eq!(parse_u32("4294967295"), Some(u32::MAX));
    assert_eq!(parse_u32("4294967296"), None);
    assert_eq!(parse_u32("99999999999999999999999999"), None);
    assert_eq!(parse_u32(""), None);
    assert_eq!(parse_u32("+"), None);
    assert_eq!(parse_u32("-1"), None);
    assert_eq!(parse_u32("-0"), None);
    assert_eq!(parse_u32("1 "), None);
    assert_eq!(parse_u32("1a"), None);
    assert_eq!(parse_u32("++1"), None);
    assert_eq!(parse_u32("１２"), None);
}

#[test]
fn counts_agree_with_the_standard_library() {
    for text in ["0", "007", "+12", "4294967295", "4294967296", "", "+", "-1", "-0", "1 ", " 1", "1a", "++1", "１２", "12345678901234567890123"] {
        assert_eq!(parse_u32(text), text.parse::<u32>().ok(), "text {text:?}");
    }
}

#[test]
fn signed_numbers() {
    assert_eq!(parse_i64("0"), Some(0));
    assert_eq!(parse_i64("-0"), Some(0));
    assert_eq!(parse_i64("+17"), Some(17));
    assert_eq!(parse_i64("-17"), Some(-17));
    assert_eq!(parse_i64("9223372036854775807"), Some(i64::MAX));
    assert_eq!(parse_i64("9223372036854775808"), None);
    assert_eq!(parse_i64("-9223372036854775808"), Some(i64::MIN));
    assert_eq!(parse_i64("-9223372036854775809"), None);
    assert_eq!(parse_i64(""), None);
    assert_eq!(parse_i64("-"), None);
    assert_eq!(parse_i64("+"), None);
    assert_eq!(parse_i64("1_000"), None);
    assert_eq!(parse_i64(" 1"), None);
    assert_eq!(parse_i64("--1"), None);
}

#[test]
fn signed_numbers_agree_with_the_standard_library() {
    for text in
        ["0", "-0", "+17", "-17", "9223372036854775807", "9223372036854775808", "-9223372036854775808", "-9223372036854775809", "", "-", "+", "1_000", " 1", "--1", "+-1", "000000000000000000000000001", "123456789012345678901234567890"]
    {
        assert_eq!(parse_i64(text), text.parse::<i64>().ok(), "text {text:?}");
    }
}

#[test]
fn white_space() {
    for c in [' ', '\t', '\n', '\r', '\u{b}', '\u{c}', '\u{85}', '\u{a0}', '\u{1680}', '\u{2000}', '\u{200a}', '\u{2028}', '\u{2029}', '\u{202f}', '\u{205f}', '\u{3000}'] {
        assert!(is_white_space(c), "{c:?}");
    }
    for c in ['a', '0', '\u{8}', '\u{e}', '\u{200b}', '\u{feff}', '\u{1f}', '\u{84}', '\u{86}'] {
        assert!(!is_white_space(c), "{c:?}");
    }
    for n in 0..0x3100u32 {
        if let Some(c) = char::from_u32(n) {
            assert_eq!(is_white_space(c), c.is_whitespace(), "{n:#x}");
        }
    }
}

#[test]
fn checks_cells() {
    assert_eq!(parse_checks("3/10"), Some((3, 10)));
    assert_eq!(parse_checks(" 3 / 10 "), Some((3, 10)));
    assert_eq!(parse_checks("\n\t12/\u{a0}34\r\n"), Some((12, 34)));
    assert_eq!(parse_checks("3"), None);
    assert_eq!(parse_checks("/"), None);
    assert_eq!(parse_checks("3/"), None);
    assert_eq!(parse_checks("/3"), None);
    assert_eq!(parse_checks("1/2/3"), None);
    assert_eq!(parse_checks("a/2"), None);
    assert_eq!(parse_checks("1 1/2"), None);
    assert_eq!(parse_checks(""), None);
}

#[test]
fn checks_cells_agree_with_the_standard_library() {
    for cell in ["3/10", " 3 / 10 ", "\n\t12/\u{a0}34\r\n", "3", "/", "3/", "/3", "1/2/3", "a/2", "1 1/2", "", " / ", "+1/+2", "1/ 2 3"] {
        assert_eq!(parse_checks(cell), checks_by_std(cell), "cell {cell:?}");
    }
}

#[test]
fn activity_cells() {
    assert_eq!(parse_activity("None"), Some(None));
    assert_eq!(parse_activity("0.0"), Some(Some(0)));
    assert_eq!(parse_activity("59.99"), Some(Some(0)));
    assert_eq!(parse_activity("60.0"), Some(Some(1)));
    assert_eq!(parse_activity("7325.123456"), Some(Some(122)));
    assert_eq!(parse_activity("12.3.4"), Some(Some(0)));
    assert_eq!(parse_activity("12"), None);
    assert_eq!(parse_activity(".5"), None);
    assert_eq!(parse_activity("none"), None);
    assert_eq!(parse_activity(" 12.5"), None);
    assert_eq!(parse_activity(""), None);
}

#[test]
fn activity_cells_agree_with_the_standard_library() {
    for cell in ["None", "0.0", "59.99", "60.0", "7325.123456", "12.3.4", "12", ".5", "none", " 12.5", "", "4294967296.0", "None."] {
        assert_eq!(parse_activity(cell), activity_by_std(cell), "cell {cell:?}");
    }
}

#[test]
fn texts_within_texts() {
    assert!(has_text("Goal Completed", "Goal Completed"));
    assert!(has_text("  Goal Completed!", "Goal Completed"));
    assert!(!has_text("Goal", "Goal Completed"));
    assert!(!has_text("goal completed", "Goal Completed"));
    assert!(has_text("abc", ""));
    assert!(has_text("", ""));
    assert!(!has_text("", "a"));
    assert!(has_text("ééa", "éa"));
    for (text, pattern) in [("abcabd", "abd"), ("aaa", "aaaa"), ("xyz", "z"), ("xyz", "x"), ("xyz", "q")] {
        assert_eq!(has_text(text, pattern), text.contains(pattern));
    }
}

fn cells(name: &str, status: &str, checks: &str, last_activity: &str) -> TrackerCells {
    TrackerCells {
        name: name.to_string(),
        game: "Game".to_string(),
        status: status.to_string(),
        checks: checks.to_string(),
        last_activity: last_activity.to_string(),
    }
}

#[test]
fn row_is_read_from_its_cells() {
    let row = parse_cells(&cells("Player1 (Ann2)", "Goal Completed", " 3/10 ", "125.5")).unwrap();
    assert_eq!(row.name, "Ann");
    assert_eq!(row.game, "Game");
    assert!(row.goal_completed);
    assert_eq!((row.checks, row.checks_total, row.last_activity), (3, 10, Some(2)));
    let row = parse_cells(&cells("Bob", "Connected", "0/7", "None")).unwrap();
    assert_eq!(row.name, "Bob");
    assert!(!row.goal_completed);
    assert_eq!((row.checks, row.checks_total, row.last_activity), (0, 7, None));
    assert!(parse_cells(&cells("Bob", "Connected", "0-7", "None")).is_none());
    assert!(parse_cells(&cells("Bob", "Connected", "0/7", "never")).is_none());
}
