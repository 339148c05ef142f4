//! Reading the cells of a tracker row.

use vstd::prelude::*;

use crate::points::same_text;
use crate::scrape::TrackerRow;
use crate::text::{all_digits, digit_value, digits_value, is_digit, lemma_digits_value_grows};

verus! {

/// The texts of the cells of one row of a tracker: the name of the slot,
/// the game, the state of the goal, the checks and the last activity.
#[derive(Debug, Clone)]
pub struct TrackerCells {
    pub name: String,
    pub game: String,
    pub status: String,
    pub checks: String,
    pub last_activity: String,
}

/// Whether `c` is white space.
pub open spec fn is_space(c: char) -> bool {
    let n = c as u32;
    (0x09 <= n <= 0x0d) || n == 0x20 || n == 0x85 || n == 0xa0 || n == 0x1680 || (0x2000 <= n
        <= 0x200a) || n == 0x2028 || n == 0x2029 || n == 0x202f || n == 0x205f || n == 0x3000
}

/// Characters that are `c`.
pub open spec fn is_char(c: char) -> spec_fn(char) -> bool {
    |x: char| x == c
}

/// How many characters at the end of the first `n` of `text` satisfy `p`.
pub open spec fn tail_len(text: Seq<char>, p: spec_fn(char) -> bool, n: int) -> int
    decreases n,
{
    if n <= 0 || !p(text[n - 1]) {
        0
    } else {
        1 + tail_len(text, p, n - 1)
    }
}

/// How many characters at the start of `text`, from `n` on, satisfy `p`.
pub open spec fn head_len(text: Seq<char>, p: spec_fn(char) -> bool, n: int) -> int
    decreases text.len() - n,
{
    if n < 0 || n >= text.len() || !p(text[n]) {
        0
    } else {
        1 + head_len(text, p, n + 1)
    }
}

/// `text` without the characters at its end that satisfy `p`.
pub open spec fn strip_end(text: Seq<char>, p: spec_fn(char) -> bool) -> Seq<char> {
    text.subrange(0, text.len() - tail_len(text, p, text.len() as int))
}

/// `text` without the white space around it.
pub open spec fn trimmed(text: Seq<char>) -> Seq<char> {
    let from = head_len(text, |c: char| is_space(c), 0);
    let rest = text.subrange(from, text.len() as int);
    strip_end(rest, |c: char| is_space(c))
}

/// Where `c` first stands in `text`, from `n` on; the length of `text` if
/// nowhere.
pub open spec fn index_of(text: Seq<char>, c: char, n: int) -> int
    decreases text.len() - n,
{
    if n < 0 || n >= text.len() {
        text.len() as int
    } else if text[n] == c {
        n
    } else {
        index_of(text, c, n + 1)
    }
}

/// Where `c` last stands among the first `n` characters of `text`; `-1`
/// if nowhere.
pub open spec fn last_index_of(text: Seq<char>, c: char, n: int) -> int
    decreases n,
{
    if n <= 0 {
        -1
    } else if text[n - 1] == c {
        n - 1
    } else {
        last_index_of(text, c, n - 1)
    }
}

/// Whether `pattern` stands somewhere in `text`.
pub open spec fn contains_text(text: Seq<char>, pattern: Seq<char>) -> bool {
    exists|i: int|
        0 <= i && i + pattern.len() <= text.len() && #[trigger] text.subrange(
            i,
            i + pattern.len(),
        ) == pattern
}

/// The number that `text` stands for: decimal digits, after a plus sign or
/// without one, that stay within what 32 bits can hold.
pub open spec fn parsed_count(text: Seq<char>) -> Option<u32> {
    let digits = if text.len() > 0 && text[0] == '+' {
        text.subrange(1, text.len() as int)
    } else {
        text
    };
    if all_digits(digits) && digits_value(digits, digits.len() as int) <= u32::MAX {
        Some(digits_value(digits, digits.len() as int) as u32)
    } else {
        None
    }
}

/// The name of the slot that a name cell stands for: an alias in
/// parentheses at the end of the cell takes the place of what stands
/// before it, and digits at the end are left out.
pub open spec fn slot_name_of(cell: Seq<char>) -> Seq<char> {
    let alias = if cell.len() > 0 && cell.last() == ')' {
        strip_end(
            cell.subrange(
                last_index_of(cell, '(', cell.len() as int) + 1,
                cell.len() as int,
            ),
            is_char(')'),
        )
    } else {
        cell
    };
    strip_end(alias, |c: char| is_digit(c))
}

/// The checks done and the checks in all that a checks cell stands for:
/// two numbers around a `/`, with or without white space around them.
pub open spec fn checks_of(cell: Seq<char>) -> Option<(u32, u32)> {
    let at = index_of(cell, '/', 0);
    if at >= cell.len() {
        None
    } else {
        match (
            parsed_count(trimmed(cell.subrange(0, at))),
            parsed_count(trimmed(cell.subrange(at + 1, cell.len() as int))),
        ) {
            (Some(done), Some(total)) => Some((done, total)),
            _ => None,
        }
    }
}

/// The minutes since the last activity that an activity cell stands for:
/// none for `None`, else the seconds before the decimal point, in full
/// minutes.
pub open spec fn activity_of(cell: Seq<char>) -> Option<Option<u32>> {
    if cell == "None"@ {
        Some(None)
    } else {
        let at = index_of(cell, '.', 0);
        if at >= cell.len() {
            None
        } else {
            match parsed_count(cell.subrange(0, at)) {
                Some(seconds) => Some(Some(seconds / 60)),
                None => None,
            }
        }
    }
}

/// Whether `row` is what `cells` show.
pub open spec fn is_row_of(cells: TrackerCells, row: TrackerRow) -> bool {
    &&& row.name@ == slot_name_of(cells.name@)
    &&& row.game@ == cells.game@
    &&& row.goal_completed == contains_text(cells.status@, "Goal Completed"@)
    &&& checks_of(cells.checks@) == Some((row.checks, row.checks_total))
    &&& activity_of(cells.last_activity@) == Some(row.last_activity)
}

/// The characters that are stripped at the end lie within the text.
pub proof fn lemma_tail_len(text: Seq<char>, p: spec_fn(char) -> bool, n: int)
    requires
        0 <= n <= text.len(),
    ensures
        0 <= tail_len(text, p, n) <= n,
    decreases n,
{
    if n > 0 && p(text[n - 1]) {
        lemma_tail_len(text, p, n - 1);
    }
}

/// The characters that are stripped at the start lie within the text.
pub proof fn lemma_head_len(text: Seq<char>, p: spec_fn(char) -> bool, n: int)
    requires
        0 <= n <= text.len(),
    ensures
        0 <= head_len(text, p, n) <= text.len() - n,
    decreases text.len() - n,
{
    if n < text.len() && p(text[n]) {
        lemma_head_len(text, p, n + 1);
    }
}

/// Computes [`is_space`].
pub fn is_white_space(c: char) -> (space: bool)
    ensures
        space == is_space(c),
{
    let n = c as u32;
    (0x09 <= n && n <= 0x0d) || n == 0x20 || n == 0x85 || n == 0xa0 || n == 0x1680 || (0x2000 <= n
        && n <= 0x200a) || n == 0x2028 || n == 0x2029 || n == 0x202f || n == 0x205f || n == 0x3000
}

/// Where the white space at the end of the characters from `from` up to
/// `to` begins.
fn space_end(text: &str, from: usize, to: usize) -> (end: usize)
    requires
        from <= to <= text@.len(),
    ensures
        from <= end <= to,
        end == to - tail_len(text@.subrange(from as int, to as int), |c: char| is_space(c), to - from),
{
    let ghost part = text@.subrange(from as int, to as int);
    let ghost p = |c: char| is_space(c);
    let mut end: usize = to;
    while end > from
        invariant
            from <= end <= to <= text@.len(),
            part == text@.subrange(from as int, to as int),
            p == |c: char| is_space(c),
            tail_len(part, p, to - from) == (to - end) + tail_len(part, p, end - from),
        decreases end,
    {
        let c = text.get_char(end - 1);
        proof {
            assert(part[end - 1 - from] == c);
        }
        if !is_white_space(c) {
            return end;
        }
        end -= 1;
    }
    end
}

/// Where the characters after the white space at the start of the
/// characters from `from` up to `to` begin.
fn space_start(text: &str, from: usize, to: usize) -> (start: usize)
    requires
        from <= to <= text@.len(),
    ensures
        from <= start <= to,
        start == from + head_len(text@.subrange(from as int, to as int), |c: char| is_space(c), 0),
{
    let ghost part = text@.subrange(from as int, to as int);
    let ghost p = |c: char| is_space(c);
    let mut start: usize = from;
    while start < to
        invariant
            from <= start <= to <= text@.len(),
            part == text@.subrange(from as int, to as int),
            p == |c: char| is_space(c),
            head_len(part, p, 0) == (start - from) + head_len(part, p, start - from),
        decreases to - start,
    {
        let c = text.get_char(start);
        proof {
            assert(part[start - from] == c);
        }
        if !is_white_space(c) {
            return start;
        }
        start += 1;
    }
    start
}

/// The characters of `text` from `from` up to `to`, without the white
/// space around them.
fn trim_range(text: &str, from: usize, to: usize) -> (part: &str)
    requires
        from <= to <= text@.len(),
    ensures
        part@ == trimmed(text@.subrange(from as int, to as int)),
{
    let start = space_start(text, from, to);
    let end = space_end(text, start, to);
    proof {
        let whole = text@.subrange(from as int, to as int);
        let rest = whole.subrange(start - from, whole.len() as int);
        assert(rest =~= text@.subrange(start as int, to as int));
        lemma_tail_len(rest, |c: char| is_space(c), rest.len() as int);
        assert(text@.subrange(start as int, end as int) =~= strip_end(rest, |c: char| is_space(c)));
    }
    text.substring_char(start, end)
}

/// Where `c` first stands in `text`; the length of `text` if nowhere.
fn find_char(text: &str, c: char) -> (at: usize)
    ensures
        at == index_of(text@, c, 0),
        at <= text@.len(),
{
    let len = text.unicode_len();
    let mut at: usize = 0;
    while at < len
        invariant
            at <= len,
            len == text@.len(),
            index_of(text@, c, 0) == index_of(text@, c, at as int),
        decreases len - at,
    {
        if text.get_char(at) == c {
            return at;
        }
        at += 1;
    }
    at
}

/// Reads a count: decimal digits, with or without a plus sign before.
pub fn parse_u32(text: &str) -> (number: Option<u32>)
    ensures
        number == parsed_count(text@),
{
    let len = text.unicode_len();
    if len == 0 {
        return None;
    }
    let start: usize = if text.get_char(0) == '+' {
        1
    } else {
        0
    };
    let ghost digits = text@.subrange(start as int, len as int);
    proof {
        if start == 0 {
            assert(digits =~= text@);
        }
    }
    if start == len {
        return None;
    }
    let limit: u64 = 0xffff_ffff;
    let mut value: u64 = 0;
    let mut i: usize = start;
    while i < len
        invariant
            start <= i <= len,
            len == text@.len(),
            start < len,
            start == if text@[0] == '+' {
                1int
            } else {
                0int
            },
            limit == 0xffff_ffff,
            digits == text@.subrange(start as int, len as int),
            forall|j: int| 0 <= j < i - start ==> is_digit(#[trigger] digits[j]),
            value == digits_value(digits, i - start),
            0 <= value <= limit,
        decreases len - i,
    {
        let c = text.get_char(i);
        proof {
            assert(digits[i - start] == c);
        }
        if !(c >= '0' && c <= '9') {
            proof {
                assert(!is_digit(digits[i - start]));
                if start == 0 {
                    assert(digits =~= text@);
                }
            }
            return None;
        }
        let digit = (c as u32 - '0' as u32) as u64;
        value = value * 10 + digit;
        proof {
            assert(digit == digit_value(c));
            assert(value == digits_value(digits, i + 1 - start));
        }
        if value > limit {
            proof {
                if start == 0 {
                    assert(digits =~= text@);
                }
                if all_digits(digits) {
                    lemma_digits_value_grows(digits, i + 1 - start, digits.len() as int);
                }
            }
            return None;
        }
        i += 1;
    }
    proof {
        assert(all_digits(digits));
        if start == 0 {
            assert(digits =~= text@);
        }
    }
    Some(value as u32)
}

/// Computes [`slot_name_of`].
pub fn slot_name(cell: &str) -> (name: String)
    ensures
        name@ == slot_name_of(cell@),
{
    let len = cell.unicode_len();
    let mut from: usize = 0;
    let mut to: usize = len;
    if len > 0 && cell.get_char(len - 1) == ')' {
        let mut n: usize = len;
        while n > 0
            invariant
                n <= len,
                len == cell@.len(),
                last_index_of(cell@, '(', len as int) == last_index_of(cell@, '(', n as int),
            ensures
                n <= len,
                n == last_index_of(cell@, '(', len as int) + 1,
            decreases n,
        {
            if cell.get_char(n - 1) == '(' {
                break;
            }
            n -= 1;
        }
        from = n;
        let ghost part = cell@.subrange(from as int, len as int);
        while to > from
            invariant
                from <= to <= len,
                len == cell@.len(),
                part == cell@.subrange(from as int, len as int),
                tail_len(part, is_char(')'), len - from) == (len - to) + tail_len(
                    part,
                    is_char(')'),
                    to - from,
                ),
            ensures
                from <= to <= len,
                to == len - tail_len(part, is_char(')'), len - from),
            decreases to,
        {
            let c = cell.get_char(to - 1);
            proof {
                assert(part[to - 1 - from] == c);
            }
            if c != ')' {
                break;
            }
            to -= 1;
        }
    }
    let ghost alias = cell@.subrange(from as int, to as int);
    proof {
        if len > 0 && cell@.last() == ')' {
            let part = cell@.subrange(from as int, len as int);
            assert(alias =~= strip_end(part, is_char(')')));
        } else {
            assert(alias =~= cell@);
        }
    }
    let ghost p = |c: char| is_digit(c);
    let mut end: usize = to;
    while end > from
        invariant
            from <= end <= to <= cell@.len(),
            alias == cell@.subrange(from as int, to as int),
            p == |c: char| is_digit(c),
            tail_len(alias, p, to - from) == (to - end) + tail_len(alias, p, end - from),
        ensures
            from <= end <= to,
            end == to - tail_len(alias, p, to - from),
        decreases end,
    {
        let c = cell.get_char(end - 1);
        proof {
            assert(alias[end - 1 - from] == c);
        }
        if !(c >= '0' && c <= '9') {
            break;
        }
        end -= 1;
    }
    proof {
        assert(cell@.subrange(from as int, end as int) =~= strip_end(alias, p));
    }
    cell.substring_char(from, end).to_owned()
}

/// Computes [`checks_of`].
pub fn parse_checks(cell: &str) -> (checks: Option<(u32, u32)>)
    ensures
        checks == checks_of(cell@),
{
    let len = cell.unicode_len();
    let at = find_char(cell, '/');
    if at >= len {
        return None;
    }
    let done = parse_u32(trim_range(cell, 0, at));
    let total = parse_u32(trim_range(cell, at + 1, len));
    match (done, total) {
        (Some(done), Some(total)) => Some((done, total)),
        _ => None,
    }
}

/// Computes [`activity_of`].
pub fn parse_activity(cell: &str) -> (activity: Option<Option<u32>>)
    ensures
        activity == activity_of(cell@),
{
    if same_text(cell, "None") {
        return Some(None);
    }
    let len = cell.unicode_len();
    let at = find_char(cell, '.');
    if at >= len {
        return None;
    }
    match parse_u32(cell.substring_char(0, at)) {
        Some(seconds) => Some(Some(seconds / 60)),
        None => None,
    }
}

/// Whether `pattern` stands somewhere in `text`.
pub fn has_text(text: &str, pattern: &str) -> (found: bool)
    ensures
        found == contains_text(text@, pattern@),
{
    let len = text.unicode_len();
    let width = pattern.unicode_len();
    if width > len {
        return false;
    }
    let last = len - width;
    let mut i: usize = 0;
    loop
        invariant
            width <= len,
            len == text@.len(),
            width == pattern@.len(),
            last == len - width,
            i <= last,
            forall|j: int| 0 <= j < i ==> #[trigger] text@.subrange(j, j + width) != pattern@,
        decreases last - i,
    {
        if same_text(text.substring_char(i, i + width), pattern) {
            return true;
        }
        if i == last {
            return false;
        }
        i += 1;
    }
}

/// Reads the cells of a tracker row. Nothing is returned where the checks
/// or the last activity cannot be read.
pub fn parse_cells(cells: &TrackerCells) -> (row: Option<TrackerRow>)
    ensures
        match row {
            Some(row) => is_row_of(*cells, row),
            None => checks_of(cells.checks@) is None || activity_of(cells.last_activity@) is None,
        },
{
    let (checks, checks_total) = match parse_checks(cells.checks.as_str()) {
        Some(checks) => checks,
        None => {
            return None;
        },
    };
    let last_activity = match parse_activity(cells.last_activity.as_str()) {
        Some(last_activity) => last_activity,
        None => {
            return None;
        },
    };
    Some(
        TrackerRow {
            name: slot_name(cells.name.as_str()),
            game: cells.game.clone(),
            goal_completed: has_text(cells.status.as_str(), "Goal Completed"),
            checks,
            checks_total,
            last_activity,
        },
    )
}

} // verus!
