//! Lavaduct lagoon: the number of cubic metres dug out by a trench that
//! follows a list of directions and lengths back to its start.

use crate::grid::Direction;
use crate::text::{fields_of, lines_of, parse_i64, signed_text, split_fields, split_lines};
use crate::tuples::{circular_pairs, ring_pairs};
use vstd::prelude::*;
use vstd::string::StringSliceAdditionalSpecFns;

verus! {

/// One instruction of the dig plan: `amount` metres towards `dir`.
#[derive(Clone, Copy, Debug, PartialEq, Eq, Structural)]
pub struct Input {
    pub dir: Direction,
    pub amount: i64,
}

/// Farthest from the start, on either axis, that a corner of the trench
/// may lie.
pub const REACH: i64 = 0x4000_0000;

/// A corner of the trench: metres to the east and to the south of the
/// start.
pub type Corner = (i64, i64);

/// Where `amount` metres towards `dir` from `origin` lead.
pub open spec fn moved(dir: Direction, origin: (int, int), amount: int) -> (int, int) {
    (origin.0 + dir.dx() * amount, origin.1 + dir.dy() * amount)
}

/// The corner reached after the first `upto` instructions of `plan`.
pub open spec fn corner_after(plan: Seq<Input>, upto: int) -> (int, int)
    decreases upto,
{
    if upto <= 0 {
        (0, 0)
    } else {
        moved(plan[upto - 1].dir, corner_after(plan, upto - 1), plan[upto - 1].amount as int)
    }
}

/// Whether every corner of the trench lies within [`REACH`] of the start.
pub open spec fn within_reach(plan: Seq<Input>) -> bool {
    forall|k: int|
        1 <= k <= plan.len() ==> -REACH <= (#[trigger] corner_after(plan, k)).0 <= REACH && -REACH
            <= corner_after(plan, k).1 <= REACH
}

/// `v` without its sign.
pub open spec fn magnitude(v: int) -> int {
    if v < 0 {
        -v
    } else {
        v
    }
}

/// Twice the signed area between one side of the trench and the axis.
pub open spec fn side_area(side: (Corner, Corner)) -> int {
    (side.1.0 + side.0.0) * (side.1.1 - side.0.1)
}

/// The length of one side of the trench.
pub open spec fn side_length(side: (Corner, Corner)) -> int {
    magnitude(side.0.0 - side.1.0) + magnitude(side.0.1 - side.1.1)
}

/// Twice the signed area enclosed by `sides`.
pub open spec fn sum_area(sides: Seq<(Corner, Corner)>) -> int
    decreases sides.len(),
{
    if sides.len() == 0 {
        0
    } else {
        sum_area(sides.drop_last()) + side_area(sides.last())
    }
}

/// The summed length of `sides`.
pub open spec fn sum_border(sides: Seq<(Corner, Corner)>) -> int
    decreases sides.len(),
{
    if sides.len() == 0 {
        0
    } else {
        sum_border(sides.drop_last()) + side_length(sides.last())
    }
}

/// The corners of the trench, in the order in which `plan` reaches them.
pub open spec fn corners_of(plan: Seq<Input>) -> Seq<Corner> {
    Seq::new(
        plan.len(),
        |k: int| (corner_after(plan, k + 1).0 as i64, corner_after(plan, k + 1).1 as i64),
    )
}

/// The volume of the lagoon: the area enclosed by the middle line of the
/// trench, by the shoelace formula, and half the trench around it, plus
/// one.
pub open spec fn lagoon(plan: Seq<Input>) -> int {
    let sides = ring_pairs(corners_of(plan));
    (magnitude(sum_area(sides)) + sum_border(sides)) / 2 + 1
}

impl Direction {
    /// Where `amount` metres towards `self` from `origin` lead.
    pub fn add(&self, origin: (i64, i64), amount: i64) -> (r: (i64, i64))
        requires
            i64::MIN <= moved(*self, (origin.0 as int, origin.1 as int), amount as int).0
                <= i64::MAX,
            i64::MIN <= moved(*self, (origin.0 as int, origin.1 as int), amount as int).1
                <= i64::MAX,
        ensures
            (r.0 as int, r.1 as int) == moved(
                *self,
                (origin.0 as int, origin.1 as int),
                amount as int,
            ),
    {
        let (x, y) = origin;
        match self {
            Direction::North => (x, y - amount),
            Direction::East => (x + amount, y),
            Direction::South => (x, y + amount),
            Direction::West => (x - amount, y),
        }
    }
}

/// The corners of the trench that `plan` digs, or `None` where one of
/// them lies beyond [`REACH`].
pub fn corners(plan: &Vec<Input>) -> (r: Option<Vec<Corner>>)
    ensures
        match r {
            Some(c) => within_reach(plan@) && c@ == corners_of(plan@),
            None => !within_reach(plan@),
        },
{
    let mut out: Vec<Corner> = Vec::new();
    let mut last: (i64, i64) = (0, 0);
    let mut k: usize = 0;
    while k < plan.len()
        invariant
            k <= plan@.len(),
            out@.len() == k,
            (last.0 as int, last.1 as int) == corner_after(plan@, k as int),
            -REACH <= last.0 <= REACH,
            -REACH <= last.1 <= REACH,
            forall|j: int|
                1 <= j <= k ==> -REACH <= (#[trigger] corner_after(plan@, j)).0 <= REACH && -REACH
                    <= corner_after(plan@, j).1 <= REACH,
            forall|j: int|
                0 <= j < k ==> #[trigger] out@[j] == (
                    corner_after(plan@, j + 1).0 as i64,
                    corner_after(plan@, j + 1).1 as i64,
                ),
        decreases plan@.len() - k,
    {
        let step = plan[k];
        let ghost target = moved(step.dir, (last.0 as int, last.1 as int), step.amount as int);
        assert(target == corner_after(plan@, k + 1));
        let far = step.amount > 2 * REACH || step.amount < -2 * REACH;
        if far {
            assert(!(-REACH <= target.0 <= REACH && -REACH <= target.1 <= REACH)) by {
                assert(step.dir.dx() * step.amount == match step.dir {
                    Direction::East => step.amount as int,
                    Direction::West => -(step.amount as int),
                    _ => 0int,
                });
                assert(step.dir.dy() * step.amount == match step.dir {
                    Direction::South => step.amount as int,
                    Direction::North => -(step.amount as int),
                    _ => 0int,
                });
            }
            return None;
        }
        proof {
            assert(step.dir.dx() * step.amount == match step.dir {
                Direction::East => step.amount as int,
                Direction::West => -(step.amount as int),
                _ => 0int,
            });
            assert(step.dir.dy() * step.amount == match step.dir {
                Direction::South => step.amount as int,
                Direction::North => -(step.amount as int),
                _ => 0int,
            });
        }
        let next = step.dir.add(last, step.amount);
        if next.0 > REACH || next.0 < -REACH || next.1 > REACH || next.1 < -REACH {
            return None;
        }
        out.push(next);
        last = next;
        k += 1;
    }
    assert(out@ =~= corners_of(plan@));
    Some(out)
}

/// Twice the area of one side is small where its corners are within
/// reach.
proof fn lemma_side_bounds(side: (Corner, Corner))
    requires
        -REACH <= side.0.0 <= REACH,
        -REACH <= side.0.1 <= REACH,
        -REACH <= side.1.0 <= REACH,
        -REACH <= side.1.1 <= REACH,
    ensures
        -0x4000_0000_0000_0000 <= side_area(side) <= 0x4000_0000_0000_0000,
        0 <= side_length(side) <= 0x1_0000_0000,
{
    let a = side.1.0 + side.0.0;
    let b = side.1.1 - side.0.1;
    assert(-0x4000_0000_0000_0000 <= a * b <= 0x4000_0000_0000_0000) by (nonlinear_arith)
        requires
            -0x8000_0000 <= a <= 0x8000_0000,
            -0x8000_0000 <= b <= 0x8000_0000,
    ;
}

/// The volume of the lagoon that `input` digs, or `None` where a corner
/// of the trench lies beyond [`REACH`].
pub fn shoelace_formula(input: Vec<Input>) -> (r: Option<i64>)
    ensures
        match r {
            Some(v) => within_reach(input@) && v == lagoon(input@),
            None => !within_reach(input@) || lagoon(input@) > i64::MAX,
        },
{
    let points = match corners(&input) {
        Some(c) => c,
        None => {
            return None;
        },
    };
    let sides = circular_pairs(&points);
    let ghost model = sides@;
    proof {
        assert forall|k: int| 0 <= k < model.len() implies -REACH <= (#[trigger] model[k]).0.0 <= REACH
            && -REACH <= model[k].0.1 <= REACH && -REACH <= model[k].1.0 <= REACH && -REACH
            <= model[k].1.1 <= REACH by {
            let n = points@.len() as int;
            let j = (k + 1) % n;
            vstd::arithmetic::div_mod::lemma_mod_bound(k + 1, n);
            assert(model[k] == (points@[k], points@[j]));
            assert(points@[k] == (
                corner_after(input@, k + 1).0 as i64,
                corner_after(input@, k + 1).1 as i64,
            ));
            assert(points@[j] == (
                corner_after(input@, j + 1).0 as i64,
                corner_after(input@, j + 1).1 as i64,
            ));
        }
    }
    let mut area: i128 = 0;
    let mut border: i128 = 0;
    let mut k: usize = 0;
    while k < sides.len()
        invariant
            k <= sides@.len(),
            model == sides@,
            forall|j: int|
                0 <= j < model.len() ==> -REACH <= (#[trigger] model[j]).0.0 <= REACH && -REACH
                    <= model[j].0.1 <= REACH && -REACH <= model[j].1.0 <= REACH && -REACH
                    <= model[j].1.1 <= REACH,
            area == sum_area(model.subrange(0, k as int)),
            border == sum_border(model.subrange(0, k as int)),
            -0x4000_0000_0000_0000 * k <= area <= 0x4000_0000_0000_0000 * k,
            0 <= border <= 0x1_0000_0000 * k,
        decreases sides@.len() - k,
    {
        let (curr, next) = sides[k];
        proof {
            let longer = model.subrange(0, k + 1);
            assert(longer.drop_last() =~= model.subrange(0, k as int));
            assert(longer.last() == model[k as int]);
            lemma_side_bounds(model[k as int]);
        }
        let x = (next.0 as i128) + (curr.0 as i128);
        let y = (next.1 as i128) - (curr.1 as i128);
        area = area + x * y;
        let dx = (curr.0 as i128) - (next.0 as i128);
        let dy = (curr.1 as i128) - (next.1 as i128);
        let ax = if dx < 0 {
            -dx
        } else {
            dx
        };
        let ay = if dy < 0 {
            -dy
        } else {
            dy
        };
        border = border + ax + ay;
        k += 1;
    }
    assert(model.subrange(0, model.len() as int) =~= model);
    let inner = if area < 0 {
        -area
    } else {
        area
    };
    let total = (inner + border) / 2 + 1;
    if total > i64::MAX as i128 {
        None
    } else {
        Some(total as i64)
    }
}

/// The direction that a word of the dig plan names: `U`, `R`, `D` or
/// `L`.
pub open spec fn direction_of(word: Seq<u8>) -> Option<Direction> {
    if word == seq![85u8] {
        Some(Direction::North)
    } else if word == seq![82u8] {
        Some(Direction::East)
    } else if word == seq![68u8] {
        Some(Direction::South)
    } else if word == seq![76u8] {
        Some(Direction::West)
    } else {
        None
    }
}

/// The value of the hexadecimal digit `b`, or `-1`.
pub open spec fn hex_digit(b: u8) -> int {
    if 48 <= b <= 57 {
        b - 48
    } else if 97 <= b <= 102 {
        b - 87
    } else if 65 <= b <= 70 {
        b - 55
    } else {
        -1
    }
}

/// The number that the hexadecimal digits `s` write.
pub open spec fn hex_value(s: Seq<u8>) -> int
    decreases s.len(),
{
    if s.len() == 0 {
        0
    } else {
        hex_value(s.drop_last()) * 16 + hex_digit(s.last())
    }
}

/// The instruction that a line of the dig plan writes in its first two
/// words: a direction and a number of metres.
pub open spec fn plain_instruction(line: Seq<u8>) -> Option<Input> {
    let f = fields_of(line);
    if f.len() < 2 {
        None
    } else {
        match (direction_of(f[0]), signed_text(f[1])) {
            (Some(dir), Some(v)) => if i64::MIN <= v <= i64::MAX {
                Some(Input { dir, amount: v as i64 })
            } else {
                None
            },
            _ => None,
        }
    }
}

/// The instruction that a line of the dig plan hides in its third word,
/// which looks like `(#70c710)`: five hexadecimal digits for the metres
/// and one for the direction, `0` for right, `1` for down, `2` for left
/// and `3` for up.
pub open spec fn coded_instruction(line: Seq<u8>) -> Option<Input> {
    let f = fields_of(line);
    if f.len() < 3 || f[2].len() != 9 {
        None
    } else {
        let code = f[2].subrange(2, 8);
        let turn = hex_digit(code[5]);
        if (forall|k: int| 0 <= k < 5 ==> hex_digit(#[trigger] code[k]) >= 0) && 0 <= turn <= 3 {
            Some(
                Input {
                    dir: if turn == 0 {
                        Direction::East
                    } else if turn == 1 {
                        Direction::South
                    } else if turn == 2 {
                        Direction::West
                    } else {
                        Direction::North
                    },
                    amount: hex_value(code.subrange(0, 5)) as i64,
                },
            )
        } else {
            None
        }
    }
}

/// The instruction that `line` writes, plainly or in code.
pub open spec fn instruction_of(line: Seq<u8>, coded: bool) -> Option<Input> {
    if coded {
        coded_instruction(line)
    } else {
        plain_instruction(line)
    }
}

/// The dig plan that `lines` write, if each line writes an instruction.
pub open spec fn plan_of(lines: Seq<Seq<u8>>, coded: bool) -> Option<Seq<Input>> {
    if forall|k: int| 0 <= k < lines.len() ==> (#[trigger] instruction_of(lines[k], coded)) is Some {
        Some(Seq::new(lines.len(), |k: int| instruction_of(lines[k], coded)->Some_0))
    } else {
        None
    }
}

/// The value of the hexadecimal digit `b`.
pub fn hex(b: u8) -> (r: Option<u8>)
    ensures
        match r {
            Some(v) => v == hex_digit(b) && v < 16,
            None => hex_digit(b) == -1,
        },
{
    if 48 <= b && b <= 57 {
        Some(b - 48)
    } else if 97 <= b && b <= 102 {
        Some(b - 87)
    } else if 65 <= b && b <= 70 {
        Some(b - 55)
    } else {
        None
    }
}

/// The direction that `word` names.
pub fn read_direction(word: &Vec<u8>) -> (r: Option<Direction>)
    ensures
        r == direction_of(word@),
{
    if word.len() != 1 {
        return None;
    }
    let b = word[0];
    assert(word@ =~= seq![b]);
    if b == 85 {
        Some(Direction::North)
    } else if b == 82 {
        Some(Direction::East)
    } else if b == 68 {
        Some(Direction::South)
    } else if b == 76 {
        Some(Direction::West)
    } else {
        assert(seq![b][0] == b);
        assert(seq![85u8][0] == 85 && seq![82u8][0] == 82 && seq![68u8][0] == 68 && seq![76u8][0]
            == 76);
        None
    }
}

/// The instruction that `line` writes, plainly or in code.
pub fn read_instruction(line: &[u8], coded: bool) -> (r: Option<Input>)
    ensures
        r == instruction_of(line@, coded),
{
    let f = split_fields(line);
    if !coded {
        if f.len() < 2 {
            return None;
        }
        assert(f.deep_view()[0] =~= f@[0]@);
        assert(f.deep_view()[1] =~= f@[1]@);
        let dir = read_direction(&f[0]);
        let amount = parse_i64(f[1].as_slice());
        match (dir, amount) {
            (Some(dir), Some(amount)) => Some(Input { dir, amount }),
            _ => None,
        }
    } else {
        if f.len() < 3 {
            return None;
        }
        assert(f.deep_view()[2] =~= f@[2]@);
        let word = &f[2];
        if word.len() != 9 {
            return None;
        }
        let ghost code = word@.subrange(2, 8);
        let mut amount: i64 = 0;
        let mut k: usize = 0;
        while k < 5
            invariant
                k <= 5,
                coded,
                f.deep_view() == fields_of(line@),
                f@.len() >= 3,
                f.deep_view()[2] == word@,
                word@.len() == 9,
                code == word@.subrange(2, 8),
                forall|j: int| 0 <= j < k ==> hex_digit(#[trigger] code[j]) >= 0,
                amount == hex_value(code.subrange(0, k as int)),
                0 <= amount < 0x10_0000,
            decreases 5 - k,
        {
            proof {
                let longer = code.subrange(0, k + 1);
                assert(longer.drop_last() =~= code.subrange(0, k as int));
                assert(longer.last() == word@[k + 2]);
                assert(code[k as int] == word@[k + 2]);
            }
            match hex(word[k + 2]) {
                Some(d) => {
                    proof {
                        lemma_hex_bound(code.subrange(0, k as int));
                    }
                    amount = amount * 16 + d as i64;
                    proof {
                        lemma_hex_bound(code.subrange(0, k + 1));
                        assert forall|j: int| 0 <= j < k + 1 implies hex_digit(
                            #[trigger] code.subrange(0, k + 1)[j],
                        ) >= 0 by {}
                    }
                },
                None => {
                    assert(hex_digit(code[k as int]) < 0);
                    return None;
                },
            }
            k += 1;
        }
        assert(code[5] == word@[7]);
        let dir = match hex(word[7]) {
            Some(0) => Direction::East,
            Some(1) => Direction::South,
            Some(2) => Direction::West,
            Some(3) => Direction::North,
            _ => {
                return None;
            },
        };
        Some(Input { dir, amount })
    }
}

/// Hexadecimal digits write a number below sixteen to the power of their
/// count.
proof fn lemma_hex_bound(s: Seq<u8>)
    requires
        s.len() <= 5,
        forall|j: int| 0 <= j < s.len() ==> hex_digit(#[trigger] s[j]) >= 0,
    ensures
        0 <= hex_value(s),
        s.len() == 0 ==> hex_value(s) == 0,
        s.len() == 1 ==> hex_value(s) < 0x10,
        s.len() == 2 ==> hex_value(s) < 0x100,
        s.len() == 3 ==> hex_value(s) < 0x1000,
        s.len() == 4 ==> hex_value(s) < 0x1_0000,
        s.len() == 5 ==> hex_value(s) < 0x10_0000,
    decreases s.len(),
{
    if s.len() > 0 {
        assert forall|j: int| 0 <= j < s.drop_last().len() implies hex_digit(
            #[trigger] s.drop_last()[j],
        ) >= 0 by {
            assert(s.drop_last()[j] == s[j]);
        }
        lemma_hex_bound(s.drop_last());
        assert(hex_digit(s.last()) >= 0);
    }
}

/// The dig plan that `bytes` write, line by line.
pub fn read_plan(bytes: &[u8], coded: bool) -> (r: Option<Vec<Input>>)
    ensures
        match r {
            Some(plan) => plan_of(lines_of(bytes@), coded) == Some(plan@),
            None => plan_of(lines_of(bytes@), coded) is None,
        },
{
    let lines = split_lines(bytes);
    let ghost model = lines.deep_view();
    let mut out: Vec<Input> = Vec::new();
    let mut k: usize = 0;
    while k < lines.len()
        invariant
            k <= lines@.len(),
            model == lines.deep_view(),
            model == lines_of(bytes@),
            out@.len() == k,
            forall|j: int| 0 <= j < k ==> (#[trigger] instruction_of(model[j], coded)) is Some,
            forall|j: int| 0 <= j < k ==> #[trigger] out@[j] == instruction_of(model[j], coded)->Some_0,
        decreases lines@.len() - k,
    {
        assert(model[k as int] =~= lines@[k as int]@);
        match read_instruction(lines[k].as_slice(), coded) {
            Some(step) => {
                out.push(step);
            },
            None => {
                assert(instruction_of(model[k as int], coded) is None);
                return None;
            },
        }
        k += 1;
    }
    assert(out@ =~= Seq::new(model.len(), |j: int| instruction_of(model[j], coded)->Some_0));
    Some(out)
}

/// What the dig plan written in `text` comes to: the volume of the
/// lagoon; nothing where a line writes no instruction, a corner of the
/// trench lies beyond [`REACH`], or the volume does not fit 64 bits.
pub open spec fn dug(text: Seq<u8>, coded: bool) -> Option<i64> {
    match plan_of(lines_of(text), coded) {
        Some(plan) => if within_reach(plan) && lagoon(plan) <= i64::MAX {
            Some(lagoon(plan) as i64)
        } else {
            None
        },
        None => None,
    }
}

/// The volume of the lagoon dug by the plain instructions of `input`.
pub fn part_one(input: &str) -> (r: Option<i64>)
    ensures
        r == dug(input.spec_bytes(), false),
{
    match read_plan(input.as_bytes(), false) {
        Some(plan) => shoelace_formula(plan),
        None => None,
    }
}

/// The volume of the lagoon dug by the coded instructions of `input`.
pub fn part_two(input: &str) -> (r: Option<i64>)
    ensures
        r == dug(input.spec_bytes(), true),
{
    match read_plan(input.as_bytes(), true) {
        Some(plan) => shoelace_formula(plan),
        None => None,
    }
}

} // verus!
