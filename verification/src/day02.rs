//! Cube Conundrum: games in which handfuls of red, green and blue cubes
//! are shown; which games a given bag allows, and the least bag for each.

use crate::patterns::{
    bounded, find_all, group_bytes, group_text, numbers, numbers_of, read_bounded, regex_matches,
    spans, Span,
};
use crate::text::{lines_of, split_lines};
use vstd::prelude::*;
use vstd::string::StringSliceAdditionalSpecFns;

verus! {

/// A game: its number, and the most cubes of each colour shown at once.
#[derive(Clone, Copy, Debug, PartialEq, Eq, Structural)]
pub struct Game {
    pub id: u32,
    pub red: u32,
    pub green: u32,
    pub blue: u32,
}

pub const MAX_RED: u32 = 12;

pub const MAX_GREEN: u32 = 13;

pub const MAX_BLUE: u32 = 14;

/// The greatest number that a 32-bit field holds.
pub const WORD: u64 = 0xFFFF_FFFF;

/// The expression for a game's number: group 2 holds it.
pub open spec fn id_pattern() -> Seq<char> {
    "(Game )(\\d+)"@
}

/// The expression for a number of red cubes: group 1 holds it.
pub open spec fn red_pattern() -> Seq<char> {
    "(\\d+)( red)"@
}

/// The expression for a number of green cubes: group 1 holds it.
pub open spec fn green_pattern() -> Seq<char> {
    "(\\d+)( green)"@
}

/// The expression for a number of blue cubes: group 1 holds it.
pub open spec fn blue_pattern() -> Seq<char> {
    "(\\d+)( blue)"@
}

/// The greatest of the first `upto` of `values`; 0 for none.
pub open spec fn largest(values: Seq<u64>, upto: int) -> u64
    decreases upto,
{
    if upto <= 0 {
        0
    } else if values[upto - 1] > largest(values, upto - 1) {
        values[upto - 1]
    } else {
        largest(values, upto - 1)
    }
}

/// The most cubes of one colour that `line` shows, with `found` what the
/// colour's expression finds in it; nothing where it finds nothing or a
/// number does not fit 32 bits.
pub open spec fn most(line: Seq<u8>, found: Seq<Seq<Span>>) -> Option<u32> {
    match numbers_of(line, found, 1, WORD) {
        Some(values) => if values.len() > 0 {
            Some(largest(values, values.len() as int) as u32)
        } else {
            None
        },
        None => None,
    }
}

/// The number of the game that `line` writes, with `ids` what the
/// expression for it finds.
pub open spec fn id_of(line: Seq<u8>, ids: Seq<Seq<Span>>) -> Option<u32> {
    if ids.len() == 0 {
        None
    } else {
        match group_text(line, ids[0], 2) {
            Some(text) => match bounded(text, WORD) {
                Some(v) => Some(v as u32),
                None => None,
            },
            None => None,
        }
    }
}

/// The game that `line` writes, with what the four expressions find in
/// it.
pub open spec fn game_of(
    line: Seq<u8>,
    ids: Seq<Seq<Span>>,
    reds: Seq<Seq<Span>>,
    greens: Seq<Seq<Span>>,
    blues: Seq<Seq<Span>>,
) -> Option<Game> {
    match (id_of(line, ids), most(line, reds), most(line, greens), most(line, blues)) {
        (Some(id), Some(red), Some(green), Some(blue)) => Some(Game { id, red, green, blue }),
        _ => None,
    }
}

/// The game that `line` writes.
pub open spec fn game_in(line: Seq<u8>) -> Option<Game> {
    match (
        regex_matches(id_pattern(), line),
        regex_matches(red_pattern(), line),
        regex_matches(green_pattern(), line),
        regex_matches(blue_pattern(), line),
    ) {
        (Some(ids), Some(reds), Some(greens), Some(blues)) => game_of(line, ids, reds, greens, blues),
        _ => None,
    }
}

/// Whether the bag holds enough cubes for `game`.
pub open spec fn possible(game: Game) -> bool {
    game.red <= MAX_RED && game.green <= MAX_GREEN && game.blue <= MAX_BLUE
}

/// What `game` adds to the sum: its number where the bag allows it, or,
/// for the powers, the product of its three numbers of cubes.
pub open spec fn share(game: Game, powers: bool) -> int {
    if powers {
        game.red * game.green * game.blue
    } else if possible(game) {
        game.id as int
    } else {
        0
    }
}

/// The sum of the shares of the games that the first `upto` of `lines`
/// write; nothing where a line writes no game or the sum exceeds 32
/// bits.
pub open spec fn game_sum(lines: Seq<Seq<u8>>, powers: bool, upto: int) -> Option<u32>
    decreases upto,
{
    if upto <= 0 {
        Some(0u32)
    } else {
        match (game_sum(lines, powers, upto - 1), game_in(lines[upto - 1])) {
            (Some(before), Some(game)) => if before + share(game, powers) <= u32::MAX {
                Some((before + share(game, powers)) as u32)
            } else {
                None
            },
            _ => None,
        }
    }
}

/// Once the sum is lost, it stays lost.
proof fn lemma_sum_lost(lines: Seq<Seq<u8>>, powers: bool, a: int, b: int)
    requires
        a <= b,
        game_sum(lines, powers, a) is None,
    ensures
        game_sum(lines, powers, b) is None,
    decreases b - a,
{
    if a < b {
        lemma_sum_lost(lines, powers, a, b - 1);
    }
}

/// The greatest of `values`.
pub fn greatest(values: &Vec<u64>) -> (r: u64)
    ensures
        r == largest(values@, values@.len() as int),
        forall|i: int| 0 <= i < values@.len() ==> values@[i] <= r,
        values@.len() > 0 ==> values@.contains(r),
{
    let mut best: u64 = 0;
    let mut i: usize = 0;
    while i < values.len()
        invariant
            i <= values@.len(),
            best == largest(values@, i as int),
            forall|j: int| 0 <= j < i ==> values@[j] <= best,
            i > 0 ==> values@.contains(best),
        decreases values@.len() - i,
    {
        if values[i] > best {
            best = values[i];
        }
        i += 1;
    }
    best
}

/// The most cubes of one colour that `line` shows.
pub fn read_most(line: &[u8], found: &Vec<Vec<Span>>) -> (r: Option<u32>)
    ensures
        r == most(line@, spans(found)),
{
    match numbers(line, found, 1, WORD) {
        Some(values) => {
            if values.len() > 0 {
                let best = greatest(&values);
                proof {
                    lemma_values_bounded(line@, spans(found), 1, WORD, spans(found).len() as int);
                }
                Some(best as u32)
            } else {
                None
            }
        },
        None => None,
    }
}

/// The numbers read are at most the limit.
pub proof fn lemma_values_bounded(line: Seq<u8>, found: Seq<Seq<Span>>, group: int, limit: u64, upto: int)
    requires
        crate::patterns::numbers_upto(line, found, group, limit, upto) is Some,
    ensures
        forall|i: int|
            0 <= i < crate::patterns::numbers_upto(line, found, group, limit, upto)->Some_0.len()
                ==> #[trigger] crate::patterns::numbers_upto(
                line,
                found,
                group,
                limit,
                upto,
            )->Some_0[i] <= limit,
    decreases upto,
{
    if upto > 0 {
        lemma_values_bounded(line, found, group, limit, upto - 1);
    }
}

/// The game that `line` writes, with what the four expressions find in
/// it.
pub fn read_game(
    line: &[u8],
    ids: &Vec<Vec<Span>>,
    reds: &Vec<Vec<Span>>,
    greens: &Vec<Vec<Span>>,
    blues: &Vec<Vec<Span>>,
) -> (r: Option<Game>)
    ensures
        r == game_of(line@, spans(ids), spans(reds), spans(greens), spans(blues)),
{
    if ids.len() == 0 {
        return None;
    }
    assert(spans(ids)[0] == ids@[0]@);
    let id = match group_bytes(line, &ids[0], 2) {
        Some(text) => match read_bounded(text.as_slice(), WORD) {
            Some(v) => v as u32,
            None => {
                return None;
            },
        },
        None => {
            return None;
        },
    };
    let red = match read_most(line, reds) {
        Some(v) => v,
        None => {
            return None;
        },
    };
    let green = match read_most(line, greens) {
        Some(v) => v,
        None => {
            return None;
        },
    };
    let blue = match read_most(line, blues) {
        Some(v) => v,
        None => {
            return None;
        },
    };
    Some(Game { id, red, green, blue })
}

/// The game that `line` writes.
pub fn parse_game(line: &[u8]) -> (r: Option<Game>)
    ensures
        r == game_in(line@),
{
    let ids = match find_all("(Game )(\\d+)", line) {
        Some(v) => v,
        None => {
            return None;
        },
    };
    let reds = match find_all("(\\d+)( red)", line) {
        Some(v) => v,
        None => {
            return None;
        },
    };
    let greens = match find_all("(\\d+)( green)", line) {
        Some(v) => v,
        None => {
            return None;
        },
    };
    let blues = match find_all("(\\d+)( blue)", line) {
        Some(v) => v,
        None => {
            return None;
        },
    };
    read_game(line, &ids, &reds, &greens, &blues)
}

/// What `game` adds to the sum; `None` where it exceeds 32 bits.
pub fn share_of(game: &Game, powers: bool) -> (r: Option<u32>)
    ensures
        r == if share(*game, powers) <= u32::MAX {
            Some(share(*game, powers) as u32)
        } else {
            None
        },
{
    if powers {
        let red: u128 = game.red as u128;
        let green: u128 = game.green as u128;
        let blue: u128 = game.blue as u128;
        assert(red * green <= 0xFFFF_FFFF * 0xFFFF_FFFF) by (nonlinear_arith)
            requires
                red <= 0xFFFF_FFFF,
                green <= 0xFFFF_FFFF,
        ;
        let both: u128 = red * green;
        assert(both * blue <= 0xFFFF_FFFF * 0xFFFF_FFFF * 0xFFFF_FFFF) by (nonlinear_arith)
            requires
                both <= 0xFFFF_FFFF * 0xFFFF_FFFF,
                blue <= 0xFFFF_FFFF,
        ;
        let all: u128 = both * blue;
        if all <= 0xFFFF_FFFF {
            Some(all as u32)
        } else {
            None
        }
    } else if game.red <= MAX_RED && game.green <= MAX_GREEN && game.blue <= MAX_BLUE {
        Some(game.id)
    } else {
        Some(0)
    }
}

/// The sum of the shares of the games that `input` writes.
pub fn sum_games(input: &[u8], powers: bool) -> (r: Option<u32>)
    ensures
        r == game_sum(lines_of(input@), powers, lines_of(input@).len() as int),
{
    let lines = split_lines(input);
    let ghost model = lines.deep_view();
    let n = lines.len();
    let mut sum: u32 = 0;
    let mut i: usize = 0;
    while i < n
        invariant
            i <= n,
            n == lines@.len(),
            model == lines.deep_view(),
            model == lines_of(input@),
            game_sum(model, powers, i as int) == Some(sum),
        decreases n - i,
    {
        assert(model[i as int] =~= lines@[i as int]@);
        let next = match parse_game(lines[i].as_slice()) {
            Some(game) => match share_of(&game, powers) {
                Some(v) => sum.checked_add(v),
                None => None,
            },
            None => None,
        };
        match next {
            Some(v) => {
                sum = v;
            },
            None => {
                proof {
                    lemma_sum_lost(model, powers, i + 1, n as int);
                }
                return None;
            },
        }
        i += 1;
    }
    Some(sum)
}

/// The sum of the numbers of the games that the bag allows.
pub fn part_one(input: &str) -> (r: Option<u32>)
    ensures
        r == game_sum(lines_of(input.spec_bytes()), false, lines_of(input.spec_bytes()).len() as int),
{
    sum_games(input.as_bytes(), false)
}

/// The sum over all games of the product of the least numbers of cubes
/// that the game needs.
pub fn part_two(input: &str) -> (r: Option<u32>)
    ensures
        r == game_sum(lines_of(input.spec_bytes()), true, lines_of(input.spec_bytes()).len() as int),
{
    sum_games(input.as_bytes(), true)
}

} // verus!
