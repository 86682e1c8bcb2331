//! Never Tell Me The Odds: reading hailstones, each a position and a
//! velocity in three dimensions.

use crate::patterns::{find_all, group_bytes, group_text, regex_matches, spans, Span};
use crate::text::{lines_of, parse_i64, parse_u64, signed_text, split_lines, unsigned_text};
use vstd::prelude::*;

verus! {

/// A hailstone: where it is and how it moves.
#[derive(Clone, Copy, Debug, PartialEq, Eq, Structural)]
pub struct Hailstorm {
    pub px: u64,
    pub py: u64,
    pub pz: u64,
    pub vx: i64,
    pub vy: i64,
    pub vz: i64,
}

/// The expression for a hailstone: groups 1 to 3 hold the position,
/// groups 4 to 6 the velocity.
pub open spec fn stone_pattern() -> Seq<char> {
    "(?<px>\\d+), (?<py>\\d+), (?<pz>\\d+) @ +(?<vx>-*\\d+), +(?<vy>-*\\d+), +(?<vz>-*\\d+)"@
}

/// The unsigned number that group `group` of the match `groups` writes
/// in `line`, where it fits 64 bits.
pub open spec fn place(line: Seq<u8>, groups: Seq<Span>, group: int) -> Option<u64> {
    match group_text(line, groups, group) {
        Some(text) => match unsigned_text(text) {
            Some(v) => if v <= u64::MAX {
                Some(v as u64)
            } else {
                None
            },
            None => None,
        },
        None => None,
    }
}

/// The signed number that group `group` of the match `groups` writes
/// in `line`, where it fits 64 bits.
pub open spec fn speed(line: Seq<u8>, groups: Seq<Span>, group: int) -> Option<i64> {
    match group_text(line, groups, group) {
        Some(text) => match signed_text(text) {
            Some(v) => if i64::MIN <= v <= i64::MAX {
                Some(v as i64)
            } else {
                None
            },
            None => None,
        },
        None => None,
    }
}

/// The hailstone that the match `groups` found in `line`; nothing
/// where one of its six numbers is not read.
pub open spec fn stone_of(line: Seq<u8>, groups: Seq<Span>) -> Option<Hailstorm> {
    match (
        place(line, groups, 1),
        place(line, groups, 2),
        place(line, groups, 3),
        speed(line, groups, 4),
        speed(line, groups, 5),
        speed(line, groups, 6),
    ) {
        (Some(px), Some(py), Some(pz), Some(vx), Some(vy), Some(vz)) => Some(
            Hailstorm { px, py, pz, vx, vy, vz },
        ),
        _ => None,
    }
}

/// The hailstones that the first `upto` of `lines` write; a line in
/// which the expression finds nothing is passed over, and there is
/// nothing where a number is not read.
pub open spec fn stones_upto(lines: Seq<Seq<u8>>, upto: int) -> Option<Seq<Hailstorm>>
    decreases upto,
{
    if upto <= 0 {
        Some(Seq::empty())
    } else {
        match (stones_upto(lines, upto - 1), regex_matches(stone_pattern(), lines[upto - 1])) {
            (Some(before), Some(found)) => if found.len() == 0 {
                Some(before)
            } else {
                match stone_of(lines[upto - 1], found[0]) {
                    Some(stone) => Some(before.push(stone)),
                    None => None,
                }
            },
            _ => None,
        }
    }
}

/// Once a hailstone is not read, the list is not read.
proof fn lemma_stones_lost(lines: Seq<Seq<u8>>, a: int, b: int)
    requires
        a <= b,
        stones_upto(lines, a) is None,
    ensures
        stones_upto(lines, b) is None,
    decreases b - a,
{
    if a < b {
        lemma_stones_lost(lines, a, b - 1);
    }
}

/// The unsigned number that group `group` of the match writes.
pub fn read_place(line: &[u8], groups: &Vec<Span>, group: usize) -> (r: Option<u64>)
    ensures
        r == place(line@, groups@, group as int),
{
    match group_bytes(line, groups, group) {
        Some(text) => parse_u64(text.as_slice()),
        None => None,
    }
}

/// The signed number that group `group` of the match writes.
pub fn read_speed(line: &[u8], groups: &Vec<Span>, group: usize) -> (r: Option<i64>)
    ensures
        r == speed(line@, groups@, group as int),
{
    match group_bytes(line, groups, group) {
        Some(text) => parse_i64(text.as_slice()),
        None => None,
    }
}

/// The hailstone that the match `groups` found in `line`.
pub fn read_stone(line: &[u8], groups: &Vec<Span>) -> (r: Option<Hailstorm>)
    ensures
        r == stone_of(line@, groups@),
{
    let px = match read_place(line, groups, 1) {
        Some(v) => v,
        None => {
            return None;
        },
    };
    let py = match read_place(line, groups, 2) {
        Some(v) => v,
        None => {
            return None;
        },
    };
    let pz = match read_place(line, groups, 3) {
        Some(v) => v,
        None => {
            return None;
        },
    };
    let vx = match read_speed(line, groups, 4) {
        Some(v) => v,
        None => {
            return None;
        },
    };
    let vy = match read_speed(line, groups, 5) {
        Some(v) => v,
        None => {
            return None;
        },
    };
    let vz = match read_speed(line, groups, 6) {
        Some(v) => v,
        None => {
            return None;
        },
    };
    Some(Hailstorm { px, py, pz, vx, vy, vz })
}

/// The hailstones that `input` writes, one to a line; `None` where a
/// number is not read.
pub fn parse(input: &[u8]) -> (r: Option<Vec<Hailstorm>>)
    ensures
        match r {
            Some(stones) => stones_upto(lines_of(input@), lines_of(input@).len() as int) == Some(
                stones@,
            ),
            None => stones_upto(lines_of(input@), lines_of(input@).len() as int) is None,
        },
{
    let lines = split_lines(input);
    let ghost model = lines.deep_view();
    let n = lines.len();
    let mut out: Vec<Hailstorm> = Vec::new();
    let mut i: usize = 0;
    while i < n
        invariant
            i <= n,
            n == lines@.len(),
            model == lines.deep_view(),
            model == lines_of(input@),
            stones_upto(model, i as int) == Some(out@),
        decreases n - i,
    {
        assert(model[i as int] =~= lines@[i as int]@);
        let found = match find_all(
            "(?<px>\\d+), (?<py>\\d+), (?<pz>\\d+) @ +(?<vx>-*\\d+), +(?<vy>-*\\d+), +(?<vz>-*\\d+)",
            lines[i].as_slice(),
        ) {
            Some(v) => v,
            None => {
                proof {
                    lemma_stones_lost(model, i + 1, n as int);
                }
                return None;
            },
        };
        if found.len() > 0 {
            assert(spans(&found)[0] == found@[0]@);
            match read_stone(lines[i].as_slice(), &found[0]) {
                Some(stone) => {
                    out.push(stone);
                },
                None => {
                    proof {
                        lemma_stones_lost(model, i + 1, n as int);
                    }
                    return None;
                },
            }
        }
        i += 1;
    }
    Some(out)
}

} // verus!
