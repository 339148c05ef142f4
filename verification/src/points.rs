//! What a slot is worth, and how its games are listed.

use vstd::prelude::*;

verus! {

/// Whether two texts are the same.
pub fn same_text(a: &str, b: &str) -> (same: bool)
    ensures
        same == (a@ == b@),
{
    let left = a.to_owned();
    let right = b.to_owned();
    left == right
}

/// The points that one instance of `game` is worth: one, but for the games
/// that count nothing or double.
pub open spec fn game_points(game: Seq<char>) -> int {
    if game == "Clique"@ || game == "Autopelago"@ || game == "ArchipIDLE"@ || game
        == "Archipelago"@ || game == "APBingo"@ {
        0
    } else if game == "Keymaster's Keep"@ || game == "Stardew Valley"@ {
        2
    } else {
        1
    }
}

/// The points that the first `n` of `games` are worth together.
pub open spec fn games_points(games: Seq<String>, n: int) -> int
    decreases n,
{
    if n <= 0 {
        0
    } else {
        games_points(games, n - 1) + game_points(games[n - 1]@)
    }
}

/// The points of a slot with the games `games`: one for the slot and what
/// each of its games is worth.
pub open spec fn slot_points(games: Seq<String>) -> int {
    1 + games_points(games, games.len() as int)
}

/// The points of the first `n` games lie between nothing and two each.
pub proof fn lemma_games_points_bounds(games: Seq<String>, n: int)
    requires
        0 <= n <= games.len(),
    ensures
        0 <= games_points(games, n) <= 2 * n,
    decreases n,
{
    if n > 0 {
        lemma_games_points_bounds(games, n - 1);
    }
}

/// Computes [`game_points`].
pub fn points_of_game(game: &str) -> (points: i64)
    ensures
        points == game_points(game@),
{
    if same_text(game, "Clique") || same_text(game, "Autopelago") || same_text(game, "ArchipIDLE")
        || same_text(game, "Archipelago") || same_text(game, "APBingo") {
        0
    } else if same_text(game, "Keymaster's Keep") || same_text(game, "Stardew Valley") {
        2
    } else {
        1
    }
}

/// The points of a slot with the games `games`.
pub fn calc_points(games: &[String]) -> (points: i64)
    requires
        1 + 2 * games@.len() <= i64::MAX,
    ensures
        points == slot_points(games@),
        points >= 1,
{
    let mut points: i64 = 1;
    let mut i: usize = 0;
    while i < games.len()
        invariant
            i <= games@.len(),
            1 + 2 * games@.len() <= i64::MAX,
            points == 1 + games_points(games@, i as int),
            1 <= points <= 1 + 2 * i,
        decreases games@.len() - i,
    {
        proof {
            lemma_games_points_bounds(games@, i as int);
        }
        points = points + points_of_game(games[i].as_str());
        i += 1;
    }
    points
}

/// The digit `d` as a character.
pub open spec fn digit_char(d: int) -> char {
    if d == 0 {
        '0'
    } else if d == 1 {
        '1'
    } else if d == 2 {
        '2'
    } else if d == 3 {
        '3'
    } else if d == 4 {
        '4'
    } else if d == 5 {
        '5'
    } else if d == 6 {
        '6'
    } else if d == 7 {
        '7'
    } else if d == 8 {
        '8'
    } else {
        '9'
    }
}

/// The number `n` in decimal digits.
pub open spec fn decimal(n: nat) -> Seq<char>
    decreases n,
{
    if n < 10 {
        seq![digit_char(n as int)]
    } else {
        decimal(n / 10).push(digit_char((n % 10) as int))
    }
}

/// How often `game` stands among the first `n` of `games`.
pub open spec fn occurrences(games: Seq<String>, game: Seq<char>, n: int) -> nat
    decreases n,
{
    if n <= 0 {
        0
    } else {
        occurrences(games, game, n - 1) + if games[n - 1]@ == game {
            1nat
        } else {
            0nat
        }
    }
}

/// A game in the list of a slot: its name, followed by how often it is
/// played in the slot if that is more than once.
pub open spec fn game_entry(game: Seq<char>, count: nat) -> Seq<char> {
    if count > 1 {
        game + " x"@ + decimal(count)
    } else {
        game
    }
}

/// The list of the games among the first `n` of `games`: every game once,
/// in the order in which the games first appear, separated by commas.
pub open spec fn games_text(games: Seq<String>, n: int) -> Seq<char>
    decreases n,
{
    if n <= 0 {
        Seq::empty()
    } else if occurrences(games, games[n - 1]@, n - 1) > 0 {
        games_text(games, n - 1)
    } else {
        let entry = game_entry(games[n - 1]@, occurrences(games, games[n - 1]@, games.len() as int));
        if n == 1 {
            entry
        } else {
            games_text(games, n - 1) + ", "@ + entry
        }
    }
}

/// The digit `d` as a text.
fn digit_text(d: usize) -> (text: &'static str)
    requires
        d < 10,
    ensures
        text@ == seq![digit_char(d as int)],
{
    proof {
        reveal_strlit("0");
        reveal_strlit("1");
        reveal_strlit("2");
        reveal_strlit("3");
        reveal_strlit("4");
        reveal_strlit("5");
        reveal_strlit("6");
        reveal_strlit("7");
        reveal_strlit("8");
        reveal_strlit("9");
    }
    let text = if d == 0 {
        "0"
    } else if d == 1 {
        "1"
    } else if d == 2 {
        "2"
    } else if d == 3 {
        "3"
    } else if d == 4 {
        "4"
    } else if d == 5 {
        "5"
    } else if d == 6 {
        "6"
    } else if d == 7 {
        "7"
    } else if d == 8 {
        "8"
    } else {
        "9"
    };
    assert(text@ =~= seq![digit_char(d as int)]);
    text
}

/// Writes `n` in decimal digits.
pub fn decimal_text(n: u64) -> (text: String)
    ensures
        text@ == decimal(n as nat),
    decreases n,
{
    if n < 10 {
        digit_text(n as usize).to_owned()
    } else {
        let mut text = decimal_text(n / 10);
        let digit = digit_text((n % 10) as usize);
        text.append(digit);
        proof {
            assert(text@ =~= decimal((n / 10) as nat).push(digit_char((n % 10) as int)));
        }
        text
    }
}

/// How often `game` stands among the first `n` of `games`.
fn count_game(games: &[String], game: &String, n: usize) -> (count: usize)
    requires
        n <= games@.len(),
    ensures
        count == occurrences(games@, game@, n as int),
        count <= n,
{
    let mut count: usize = 0;
    let mut i: usize = 0;
    while i < n
        invariant
            i <= n <= games@.len(),
            count <= i,
            count == occurrences(games@, game@, i as int),
        decreases n - i,
    {
        if games[i] == *game {
            count += 1;
        }
        i += 1;
    }
    count
}

/// Lists the games of a slot: every game once, in the order in which the
/// games first appear, with the number of its instances where a game is
/// played more than once.
pub fn game_str(games: &[String]) -> (text: String)
    ensures
        text@ == games_text(games@, games@.len() as int),
{
    let mut text = String::new();
    let mut i: usize = 0;
    while i < games.len()
        invariant
            i <= games@.len(),
            text@ == games_text(games@, i as int),
        decreases games@.len() - i,
    {
        if count_game(games, &games[i], i) == 0 {
            let ghost before = text@;
            if i > 0 {
                text.append(", ");
            }
            text.append(games[i].as_str());
            let count = count_game(games, &games[i], games.len());
            if count > 1 {
                text.append(" x");
                let digits = decimal_text(count as u64);
                text.append(digits.as_str());
            }
            proof {
                let entry = game_entry(games@[i as int]@, count as nat);
                if count > 1 {
                    assert(entry =~= games@[i as int]@ + " x"@ + decimal(count as nat));
                }
                if i > 0 {
                    assert(text@ =~= before + ", "@ + entry);
                } else {
                    assert(before =~= Seq::<char>::empty());
                    assert(text@ =~= entry);
                }
            }
        }
        i += 1;
    }
    text
}

} // verus!
