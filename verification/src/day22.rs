//! Sand slabs: bricks fall until each rests on the ground or on another
//! brick; which bricks can be taken out without another one falling.

use crate::patterns::{find_all, group_number, group_value, regex_matches, spans, Span};
use crate::text::{lines_of, split_lines};
use vstd::prelude::*;
use vstd::string::StringSliceAdditionalSpecFns;

verus! {

/// A cube of space.
#[derive(Clone, Copy, Debug, PartialEq, Eq, Structural)]
pub struct Coord {
    pub x: usize,
    pub y: usize,
    pub z: usize,
}

/// A brick: all cubes from `start` to `end`.
#[derive(Clone, Copy, Debug, PartialEq, Eq, Structural)]
pub struct Brick {
    pub start: Coord,
    pub end: Coord,
}

/// Largest coordinate a brick may have.
pub const MAX_COORD: usize = 0xFFFF_FFFF;

/// Whether `b` holds a cube and floats above the ground.
pub open spec fn brick_ok(b: Brick) -> bool {
    &&& b.start.x <= b.end.x <= MAX_COORD
    &&& b.start.y <= b.end.y <= MAX_COORD
    &&& 1 <= b.start.z <= b.end.z <= MAX_COORD
}

/// Whether every brick of `bricks` holds a cube and floats above the
/// ground.
pub open spec fn bricks_ok(bricks: Seq<Brick>) -> bool {
    forall|i: int| 0 <= i < bricks.len() ==> brick_ok(#[trigger] bricks[i])
}

/// Whether the cube at `x`, `y`, `z` belongs to `b`.
pub open spec fn in_brick(b: Brick, x: int, y: int, z: int) -> bool {
    b.start.x <= x <= b.end.x && b.start.y <= y <= b.end.y && b.start.z <= z <= b.end.z
}

/// Whether some cube of `a` lies right above a cube of `b`.
pub open spec fn rests_on(a: Brick, b: Brick) -> bool {
    exists|x: int, y: int, z: int| #[trigger] in_brick(a, x, y, z) && in_brick(b, x, y, z - 1)
}

/// Whether brick `i` cannot fall: it touches the ground, or rests on
/// another brick.
pub open spec fn supported(bricks: Seq<Brick>, i: int) -> bool {
    bricks[i].start.z == 1 || exists|j: int|
        0 <= j < bricks.len() && j != i && #[trigger] rests_on(bricks[i], bricks[j])
}

/// `b` one cube lower.
pub open spec fn lowered(b: Brick) -> Brick {
    Brick {
        start: Coord { x: b.start.x, y: b.start.y, z: (b.start.z - 1) as usize },
        end: Coord { x: b.end.x, y: b.end.y, z: (b.end.z - 1) as usize },
    }
}

/// The bricks after one round of falling for the first `upto` of them:
/// each in turn drops by one cube unless it is supported by the bricks as
/// they then lie.
pub open spec fn round_upto(bricks: Seq<Brick>, upto: int) -> Seq<Brick>
    decreases upto,
{
    if upto <= 0 {
        bricks
    } else {
        let before = round_upto(bricks, upto - 1);
        if supported(before, upto - 1) {
            before
        } else {
            before.update(upto - 1, lowered(before[upto - 1]))
        }
    }
}

/// Which of the first `upto` bricks dropped in one round of falling.
pub open spec fn dropped_upto(bricks: Seq<Brick>, upto: int) -> Seq<usize>
    decreases upto,
{
    if upto <= 0 {
        Seq::empty()
    } else {
        let before = round_upto(bricks, upto - 1);
        if supported(before, upto - 1) {
            dropped_upto(bricks, upto - 1)
        } else {
            dropped_upto(bricks, upto - 1).push((upto - 1) as usize)
        }
    }
}

/// The bricks after `n` rounds of falling.
pub open spec fn after_rounds(bricks: Seq<Brick>, n: nat) -> Seq<Brick>
    decreases n,
{
    if n == 0 {
        bricks
    } else {
        round_upto(after_rounds(bricks, (n - 1) as nat), bricks.len() as int)
    }
}

/// Whether no brick drops in a round of falling.
pub open spec fn at_rest(bricks: Seq<Brick>) -> bool {
    dropped_upto(bricks, bricks.len() as int).len() == 0
}

/// The summed height of the lower ends of the first `upto` bricks.
pub open spec fn height_upto(bricks: Seq<Brick>, upto: int) -> int
    decreases upto,
{
    if upto <= 0 {
        0
    } else {
        height_upto(bricks, upto - 1) + bricks[upto - 1].start.z
    }
}

impl Coord {
    /// Moves the cube down by one.
    pub fn down(&mut self)
        requires
            old(self).z >= 1,
        ensures
            *final(self) == (Coord { x: old(self).x, y: old(self).y, z: (old(self).z - 1) as usize }),
    {
        self.z -= 1;
    }
}

impl Brick {
    /// Moves the brick down by one.
    pub fn down(&mut self)
        requires
            old(self).start.z >= 1,
            old(self).end.z >= 1,
        ensures
            *final(self) == lowered(*old(self)),
    {
        self.start.down();
        self.end.down();
    }

    /// Whether `coord` belongs to the brick.
    pub fn contains(&self, coord: &Coord) -> (r: bool)
        ensures
            r == in_brick(*self, coord.x as int, coord.y as int, coord.z as int),
    {
        self.start.x <= coord.x && coord.x <= self.end.x && self.start.y <= coord.y && coord.y
            <= self.end.y && self.start.z <= coord.z && coord.z <= self.end.z
    }

    /// Whether some cube of the brick lies right above a cube of `other`.
    pub fn lies_on(&self, other: &Brick) -> (r: bool)
        requires
            brick_ok(*self),
        ensures
            r == rests_on(*self, *other),
    {
        let x_lo = if self.start.x >= other.start.x {
            self.start.x
        } else {
            other.start.x
        };
        let x_hi = if self.end.x <= other.end.x {
            self.end.x
        } else {
            other.end.x
        };
        let y_lo = if self.start.y >= other.start.y {
            self.start.y
        } else {
            other.start.y
        };
        let y_hi = if self.end.y <= other.end.y {
            self.end.y
        } else {
            other.end.y
        };
        // the heights of this brick, and those right above the other
        let z_lo = if self.start.z as u128 >= other.start.z as u128 + 1 {
            self.start.z as u128
        } else {
            other.start.z as u128 + 1
        };
        let z_hi = if self.end.z as u128 <= other.end.z as u128 + 1 {
            self.end.z as u128
        } else {
            other.end.z as u128 + 1
        };
        let r = x_lo <= x_hi && y_lo <= y_hi && z_lo <= z_hi;
        proof {
            if r {
                assert(in_brick(*self, x_lo as int, y_lo as int, z_lo as int));
                assert(in_brick(*other, x_lo as int, y_lo as int, z_lo - 1));
            }
        }
        r
    }
}

/// Whether brick `i` cannot fall.
pub fn is_supported(bricks: &Vec<Brick>, i: usize) -> (r: bool)
    requires
        i < bricks@.len(),
        bricks_ok(bricks@),
    ensures
        r == supported(bricks@, i as int),
{
    let brick = bricks[i];
    if brick.start.z == 1 {
        return true;
    }
    let mut j: usize = 0;
    while j < bricks.len()
        invariant
            j <= bricks@.len(),
            i < bricks@.len(),
            brick == bricks@[i as int],
            bricks_ok(bricks@),
            forall|k: int| 0 <= k < j && k != i ==> !#[trigger] rests_on(brick, bricks@[k]),
        decreases bricks@.len() - j,
    {
        if j != i && brick.lies_on(&bricks[j]) {
            return true;
        }
        j += 1;
    }
    false
}

/// A round of falling keeps bricks whole and above the ground, and takes
/// from their summed height what it drops.
pub proof fn lemma_round(bricks: Seq<Brick>, upto: int)
    requires
        bricks_ok(bricks),
        0 <= upto <= bricks.len(),
    ensures
        bricks_ok(round_upto(bricks, upto)),
        round_upto(bricks, upto).len() == bricks.len(),
        forall|k: int| upto <= k < bricks.len() ==> #[trigger] round_upto(bricks, upto)[k] == bricks[k],
        height_upto(round_upto(bricks, upto), bricks.len() as int) + dropped_upto(bricks, upto).len()
            == height_upto(bricks, bricks.len() as int),
        height_upto(bricks, bricks.len() as int) >= 0,
    decreases upto,
{
    lemma_height_sign(bricks, bricks.len() as int);
    if upto > 0 {
        lemma_round(bricks, upto - 1);
        let before = round_upto(bricks, upto - 1);
        if !supported(before, upto - 1) {
            let after = before.update(upto - 1, lowered(before[upto - 1]));
            assert(brick_ok(before[upto - 1]));
            assert(before[upto - 1].start.z >= 2);
            assert forall|i: int| 0 <= i < after.len() implies brick_ok(#[trigger] after[i]) by {
                if i != upto - 1 {
                    assert(after[i] == before[i]);
                }
            }
            lemma_height_update(before, upto - 1, lowered(before[upto - 1]), bricks.len() as int);
        }
    }
}

/// Heights are never negative.
proof fn lemma_height_sign(bricks: Seq<Brick>, upto: int)
    ensures
        height_upto(bricks, upto) >= 0,
    decreases upto,
{
    if upto > 0 {
        lemma_height_sign(bricks, upto - 1);
    }
}

/// Replacing one brick changes the summed height by the difference of
/// the two.
proof fn lemma_height_update(bricks: Seq<Brick>, at: int, b: Brick, upto: int)
    requires
        0 <= at < bricks.len(),
        0 <= upto <= bricks.len(),
    ensures
        height_upto(bricks.update(at, b), upto) == height_upto(bricks, upto) + if at < upto {
            b.start.z - bricks[at].start.z
        } else {
            0
        },
    decreases upto,
{
    if upto > 0 {
        lemma_height_update(bricks, at, b, upto - 1);
    }
}

/// One round of falling: each brick in turn drops by one cube unless it
/// is supported. Returns the numbers of the bricks that dropped.
pub fn compress(bricks: &mut Vec<Brick>) -> (r: Vec<usize>)
    requires
        bricks_ok(old(bricks)@),
    ensures
        final(bricks)@ == round_upto(old(bricks)@, old(bricks)@.len() as int),
        r@ == dropped_upto(old(bricks)@, old(bricks)@.len() as int),
        bricks_ok(final(bricks)@),
        final(bricks)@.len() == old(bricks)@.len(),
        height_upto(final(bricks)@, final(bricks)@.len() as int) + r@.len() == height_upto(
            old(bricks)@,
            old(bricks)@.len() as int,
        ),
{
    let ghost start = bricks@;
    let n = bricks.len();
    let mut changed: Vec<usize> = Vec::new();
    let mut i: usize = 0;
    while i < n
        invariant
            i <= n,
            n == start.len(),
            start == old(bricks)@,
            bricks_ok(start),
            bricks@ == round_upto(start, i as int),
            changed@ == dropped_upto(start, i as int),
        decreases n - i,
    {
        proof {
            lemma_round(start, i as int);
        }
        if !is_supported(bricks, i) {
            let mut brick = bricks[i];
            brick.down();
            bricks.set(i, brick);
            changed.push(i);
        }
        i += 1;
    }
    proof {
        lemma_round(start, n as int);
    }
    changed
}

/// Lets the bricks fall until they rest. Returns the number of rounds in
/// which a brick dropped.
pub fn compress_fully(bricks: &mut Vec<Brick>) -> (r: u64)
    requires
        bricks_ok(old(bricks)@),
        old(bricks)@.len() <= MAX_COORD,
    ensures
        final(bricks)@ == after_rounds(old(bricks)@, r as nat),
        at_rest(final(bricks)@),
        bricks_ok(final(bricks)@),
        final(bricks)@.len() == old(bricks)@.len(),
        forall|k: nat| k < r ==> !at_rest(#[trigger] after_rounds(old(bricks)@, k)),
        r == rounds_to_rest(old(bricks)@),
        final(bricks)@ == settled(old(bricks)@),
{
    let ghost start = bricks@;
    let mut rounds: u64 = 0;
    proof {
        lemma_height_bound(start, start.len() as int);
        lemma_height_sign(start, start.len() as int);
        assert(start.len() * MAX_COORD <= 0xFFFF_FFFF * 0xFFFF_FFFF) by (nonlinear_arith)
            requires
                0 <= start.len() <= 0xFFFF_FFFF,
                MAX_COORD == 0xFFFF_FFFF,
        ;
    }
    loop
        invariant
            start == old(bricks)@,
            bricks_ok(bricks@),
            bricks@.len() == start.len(),
            bricks@ == after_rounds(start, rounds as nat),
            forall|k: nat| k < rounds ==> !at_rest(#[trigger] after_rounds(start, k)),
            height_upto(bricks@, bricks@.len() as int) + rounds <= height_upto(
                start,
                start.len() as int,
            ),
            height_upto(start, start.len() as int) <= 0xFFFF_FFFF * 0xFFFF_FFFF,
            height_upto(bricks@, bricks@.len() as int) >= 0,
        decreases height_upto(bricks@, bricks@.len() as int),
    {
        let ghost before = bricks@;
        let ghost here = *bricks;
        proof {
            lemma_height_sign(before, before.len() as int);
        }
        let mut trial: Vec<Brick> = Vec::new();
        let mut k: usize = 0;
        while k < bricks.len()
            invariant
                k <= bricks@.len(),
                trial@ == bricks@.subrange(0, k as int),
            decreases bricks@.len() - k,
        {
            trial.push(bricks[k]);
            assert(trial@ =~= bricks@.subrange(0, k + 1));
            k += 1;
        }
        assert(trial@ =~= before);
        let changed = compress(&mut trial);
        if changed.len() == 0 {
            proof {
                lemma_rest_once(start, rounds as nat);
            }
            return rounds;
        }
        proof {
            lemma_height_sign(trial@, trial@.len() as int);
        }
        *bricks = trial;
        rounds = rounds + 1;
    }
}

/// The summed height of bricks is bounded by their number.
proof fn lemma_height_bound(bricks: Seq<Brick>, upto: int)
    requires
        bricks_ok(bricks),
        0 <= upto <= bricks.len(),
    ensures
        height_upto(bricks, upto) <= upto * MAX_COORD,
    decreases upto,
{
    if upto > 0 {
        lemma_height_bound(bricks, upto - 1);
        assert(brick_ok(bricks[upto - 1]));
        assert((upto - 1) * MAX_COORD + MAX_COORD == upto * MAX_COORD) by (nonlinear_arith);
    } else {
        assert(0 * MAX_COORD == 0) by (nonlinear_arith);
    }
}

/// Whether brick `i` drops in one of the first `rounds` rounds of
/// falling.
pub open spec fn fell(bricks: Seq<Brick>, i: usize, rounds: nat) -> bool {
    exists|n: nat|
        n < rounds && #[trigger] dropped_upto(after_rounds(bricks, n), bricks.len() as int).contains(
            i,
        )
}

/// How many of the first `upto` bricks drop in one of the first `rounds`
/// rounds of falling.
pub open spec fn fallen_upto(bricks: Seq<Brick>, rounds: nat, upto: int) -> int
    decreases upto,
{
    if upto <= 0 {
        0
    } else {
        fallen_upto(bricks, rounds, upto - 1) + if fell(bricks, (upto - 1) as usize, rounds) {
            1int
        } else {
            0int
        }
    }
}

/// The number of rounds of falling after which `bricks` rest.
pub open spec fn rounds_to_rest(bricks: Seq<Brick>) -> nat {
    choose|n: nat|
        at_rest(after_rounds(bricks, n)) && forall|k: nat|
            k < n ==> !at_rest(#[trigger] after_rounds(bricks, k))
}

/// The bricks rest after one number of rounds only.
pub proof fn lemma_rest_once(bricks: Seq<Brick>, n: nat)
    requires
        at_rest(after_rounds(bricks, n)),
        forall|k: nat| k < n ==> !at_rest(#[trigger] after_rounds(bricks, k)),
    ensures
        rounds_to_rest(bricks) == n,
{
    let c = rounds_to_rest(bricks);
    if c < n {
        assert(!at_rest(after_rounds(bricks, c)));
    }
    if n < c {
        assert(!at_rest(after_rounds(bricks, n)));
    }
}

/// The bricks once they rest.
pub open spec fn settled(bricks: Seq<Brick>) -> Seq<Brick> {
    after_rounds(bricks, rounds_to_rest(bricks))
}

/// Lets the bricks fall until they rest. Returns the number of bricks
/// that dropped on the way.
pub fn compress_fully_count(bricks: &mut Vec<Brick>) -> (r: usize)
    requires
        bricks_ok(old(bricks)@),
        old(bricks)@.len() <= MAX_COORD,
    ensures
        final(bricks)@ == settled(old(bricks)@),
        r == fallen_upto(old(bricks)@, rounds_to_rest(old(bricks)@), old(bricks)@.len() as int),
{
    let ghost start = bricks@;
    let n = bricks.len();
    let mut moved: Vec<bool> = Vec::new();
    let mut k: usize = 0;
    while k < n
        invariant
            k <= n,
            moved@.len() == k,
            forall|i: int| 0 <= i < k ==> !#[trigger] moved@[i],
        decreases n - k,
    {
        moved.push(false);
        k += 1;
    }
    let ghost mut rounds: nat = 0;
    proof {
        lemma_height_sign(start, start.len() as int);
    }
    loop
        invariant
            n == start.len(),
            start == old(bricks)@,
            bricks_ok(bricks@),
            bricks@.len() == n,
            bricks@ == after_rounds(start, rounds),
            forall|k: nat| k < rounds ==> !at_rest(#[trigger] after_rounds(start, k)),
            moved@.len() == n,
            forall|i: int| 0 <= i < n ==> #[trigger] moved@[i] == fell(start, i as usize, rounds),
            height_upto(bricks@, bricks@.len() as int) >= 0,
        ensures
            rounds_to_rest(start) == rounds,
        decreases height_upto(bricks@, bricks@.len() as int),
    {
        let ghost before = bricks@;
        let changes = compress(bricks);
        proof {
            lemma_height_sign(bricks@, bricks@.len() as int);
        }
        if changes.len() == 0 {
            proof {
                assert(bricks@ == round_upto(before, before.len() as int));
                lemma_round_quiet(before, before.len() as int);
                lemma_rest_once(start, rounds);
            }
            break ;
        }
        let ghost old_moved = moved@;
        let mut c: usize = 0;
        while c < changes.len()
            invariant
                c <= changes@.len(),
                moved@.len() == n,
                old_moved.len() == n,
                n == start.len(),
                changes@ == dropped_upto(before, n as int),
                forall|i: int|
                    0 <= i < n ==> #[trigger] moved@[i] == (old_moved[i] || changes@.subrange(
                        0,
                        c as int,
                    ).contains(i as usize)),
            decreases changes@.len() - c,
        {
            let at = changes[c];
            proof {
                lemma_dropped_bound(before, n as int, c as int);
            }
            let ghost prior = moved@;
            moved.set(at, true);
            proof {
                let shorter = changes@.subrange(0, c as int);
                let longer = changes@.subrange(0, c + 1);
                assert(longer =~= shorter.push(at));
                assert forall|i: int| 0 <= i < n implies #[trigger] moved@[i] == (old_moved[i]
                    || longer.contains(i as usize)) by {
                    if longer.contains(i as usize) {
                        let q = choose|q: int| 0 <= q < longer.len() && longer[q] == i as usize;
                        if q < shorter.len() {
                            assert(shorter[q] == i as usize);
                            assert(shorter.contains(i as usize));
                        }
                    }
                    if shorter.contains(i as usize) {
                        let q = choose|q: int| 0 <= q < shorter.len() && shorter[q] == i as usize;
                        assert(longer[q] == i as usize);
                    }
                    if i == at {
                        assert(longer[c as int] == at);
                    }
                }
            }
            c += 1;
        }
        proof {
            assert(changes@.subrange(0, changes@.len() as int) =~= changes@);
            assert(!at_rest(after_rounds(start, rounds)));
            assert forall|i: int| 0 <= i < n implies #[trigger] moved@[i] == fell(
                start,
                i as usize,
                rounds + 1,
            ) by {
                let ix = i as usize;
                if fell(start, ix, rounds + 1) {
                    let r2 = choose|r2: nat|
                        r2 < rounds + 1 && #[trigger] dropped_upto(
                            after_rounds(start, r2),
                            start.len() as int,
                        ).contains(ix);
                    if r2 < rounds {
                        assert(fell(start, ix, rounds));
                    }
                }
                if fell(start, ix, rounds) {
                    let r2 = choose|r2: nat|
                        r2 < rounds && #[trigger] dropped_upto(
                            after_rounds(start, r2),
                            start.len() as int,
                        ).contains(ix);
                    assert(r2 < rounds + 1);
                }
                if changes@.contains(ix) {
                    assert(dropped_upto(after_rounds(start, rounds), start.len() as int).contains(ix));
                }
            }
            rounds = rounds + 1;
        }
    }
    let mut total: usize = 0;
    let mut i: usize = 0;
    while i < n
        invariant
            i <= n,
            moved@.len() == n,
            n == start.len(),
            forall|k: int| 0 <= k < n ==> #[trigger] moved@[k] == fell(start, k as usize, rounds),
            total == fallen_upto(start, rounds, i as int),
            total <= i,
        decreases n - i,
    {
        if moved[i] {
            total += 1;
        }
        i += 1;
    }
    total
}

/// A round in which no brick drops leaves the bricks as they lie.
pub proof fn lemma_round_quiet(bricks: Seq<Brick>, upto: int)
    requires
        0 <= upto <= bricks.len(),
        dropped_upto(bricks, upto).len() == 0,
    ensures
        round_upto(bricks, upto) == bricks,
    decreases upto,
{
    if upto > 0 {
        let before = round_upto(bricks, upto - 1);
        if supported(before, upto - 1) {
            lemma_round_quiet(bricks, upto - 1);
        }
    }
}

/// What drops in a round is a brick.
pub proof fn lemma_dropped_bound(bricks: Seq<Brick>, upto: int, c: int)
    requires
        0 <= upto,
        0 <= c < dropped_upto(bricks, upto).len(),
    ensures
        dropped_upto(bricks, upto)[c] < upto,
    decreases upto,
{
    if upto > 0 {
        let before = dropped_upto(bricks, upto - 1);
        if c < before.len() {
            lemma_dropped_bound(bricks, upto - 1, c);
        }
    }
}

/// The expression for a brick: groups 1 to 3 hold its first cube,
/// groups 4 to 6 its last.
pub open spec fn brick_pattern() -> Seq<char> {
    "(?<x1>\\d+),(?<y1>\\d+),(?<z1>\\d+)~(?<x2>\\d+),(?<y2>\\d+),(?<z2>\\d+)"@
}

/// The brick that the first of the matches `found` writes in `line`;
/// nothing where there is no match, a number exceeds [`MAX_COORD`], or
/// the brick would hold no cube or lie in the ground.
pub open spec fn brick_from(line: Seq<u8>, found: Seq<Seq<Span>>) -> Option<Brick> {
    if found.len() == 0 {
        None
    } else {
        match (
            group_value(line, found[0], 1, MAX_COORD as u64),
            group_value(line, found[0], 2, MAX_COORD as u64),
            group_value(line, found[0], 3, MAX_COORD as u64),
            group_value(line, found[0], 4, MAX_COORD as u64),
            group_value(line, found[0], 5, MAX_COORD as u64),
            group_value(line, found[0], 6, MAX_COORD as u64),
        ) {
            (Some(x1), Some(y1), Some(z1), Some(x2), Some(y2), Some(z2)) => {
                let brick = Brick {
                    start: Coord { x: x1 as usize, y: y1 as usize, z: z1 as usize },
                    end: Coord { x: x2 as usize, y: y2 as usize, z: z2 as usize },
                };
                if brick_ok(brick) {
                    Some(brick)
                } else {
                    None
                }
            },
            _ => None,
        }
    }
}

/// The brick that `line` writes.
pub open spec fn brick_of(line: Seq<u8>) -> Option<Brick> {
    match regex_matches(brick_pattern(), line) {
        Some(found) => brick_from(line, found),
        None => None,
    }
}

/// The bricks that `lines` write, if each writes one and they are at most
/// [`MAX_COORD`].
pub open spec fn bricks_of(lines: Seq<Seq<u8>>) -> Option<Seq<Brick>> {
    if lines.len() <= MAX_COORD && forall|k: int|
        0 <= k < lines.len() ==> (#[trigger] brick_of(lines[k])) is Some {
        Some(Seq::new(lines.len(), |k: int| brick_of(lines[k])->Some_0))
    } else {
        None
    }
}

/// The brick that the first of the matches `found` writes in `line`.
pub fn read_brick_from(line: &[u8], found: &Vec<Vec<Span>>) -> (r: Option<Brick>)
    ensures
        r == brick_from(line@, spans(found)),
{
    if found.len() == 0 {
        return None;
    }
    assert(spans(found)[0] == found@[0]@);
    let groups = &found[0];
    let limit = MAX_COORD as u64;
    match (
        group_number(line, groups, 1, limit),
        group_number(line, groups, 2, limit),
        group_number(line, groups, 3, limit),
        group_number(line, groups, 4, limit),
        group_number(line, groups, 5, limit),
        group_number(line, groups, 6, limit),
    ) {
        (Some(x1), Some(y1), Some(z1), Some(x2), Some(y2), Some(z2)) => {
            let start = Coord { x: x1 as usize, y: y1 as usize, z: z1 as usize };
            let end = Coord { x: x2 as usize, y: y2 as usize, z: z2 as usize };
            if start.x <= end.x && start.y <= end.y && 1 <= start.z && start.z <= end.z {
                Some(Brick { start, end })
            } else {
                None
            }
        },
        _ => None,
    }
}

/// The brick that `line` writes.
pub fn read_brick(line: &[u8]) -> (r: Option<Brick>)
    ensures
        r == brick_of(line@),
{
    match find_all(
        "(?<x1>\\d+),(?<y1>\\d+),(?<z1>\\d+)~(?<x2>\\d+),(?<y2>\\d+),(?<z2>\\d+)",
        line,
    ) {
        Some(found) => read_brick_from(line, &found),
        None => None,
    }
}

/// The bricks that `bytes` write, line by line.
pub fn parse(bytes: &[u8]) -> (r: Option<Vec<Brick>>)
    ensures
        match r {
            Some(b) => bricks_of(lines_of(bytes@)) == Some(b@) && bricks_ok(b@) && b@.len()
                <= MAX_COORD,
            None => bricks_of(lines_of(bytes@)) is None,
        },
{
    let lines = split_lines(bytes);
    let ghost model = lines.deep_view();
    if lines.len() > MAX_COORD {
        return None;
    }
    let mut out: Vec<Brick> = Vec::new();
    let mut k: usize = 0;
    while k < lines.len()
        invariant
            k <= lines@.len(),
            lines@.len() <= MAX_COORD,
            model == lines.deep_view(),
            model == lines_of(bytes@),
            out@.len() == k,
            forall|j: int| 0 <= j < k ==> (#[trigger] brick_of(model[j])) is Some,
            forall|j: int| 0 <= j < k ==> #[trigger] out@[j] == brick_of(model[j])->Some_0,
        decreases lines@.len() - k,
    {
        assert(model[k as int] =~= lines@[k as int]@);
        match read_brick(lines[k].as_slice()) {
            Some(b) => {
                out.push(b);
            },
            None => {
                assert(brick_of(model[k as int]) is None);
                return None;
            },
        }
        k += 1;
    }
    assert(out@ =~= Seq::new(model.len(), |j: int| brick_of(model[j])->Some_0));
    assert forall|j: int| 0 <= j < out@.len() implies brick_ok(#[trigger] out@[j]) by {
        assert(brick_of(model[j]) is Some);
    }
    Some(out)
}

/// Whether, with brick `i` taken out, the bricks stay as they lie.
pub open spec fn spare(bricks: Seq<Brick>, i: int) -> bool {
    at_rest(bricks.remove(i))
}

/// How many of the first `upto` bricks can each be taken out without
/// another brick dropping.
pub open spec fn spare_upto(bricks: Seq<Brick>, upto: int) -> int
    decreases upto,
{
    if upto <= 0 {
        0
    } else {
        spare_upto(bricks, upto - 1) + if spare(bricks, upto - 1) {
            1int
        } else {
            0int
        }
    }
}

/// How many bricks drop in all when each of the first `upto` bricks is
/// taken out in its turn.
pub open spec fn chain_upto(bricks: Seq<Brick>, upto: int) -> int
    decreases upto,
{
    if upto <= 0 {
        0
    } else {
        chain_upto(bricks, upto - 1) + fallen_upto(
            bricks.remove(upto - 1),
            rounds_to_rest(bricks.remove(upto - 1)),
            bricks.len() - 1,
        )
    }
}

/// `bricks` without brick `i`.
pub fn without(bricks: &Vec<Brick>, i: usize) -> (r: Vec<Brick>)
    requires
        i < bricks@.len(),
    ensures
        r@ == bricks@.remove(i as int),
{
    let mut out: Vec<Brick> = Vec::new();
    let mut k: usize = 0;
    while k < bricks.len()
        invariant
            k <= bricks@.len(),
            i < bricks@.len(),
            out@ == if k <= i {
                bricks@.subrange(0, k as int)
            } else {
                bricks@.subrange(0, i as int) + bricks@.subrange(i + 1, k as int)
            },
        decreases bricks@.len() - k,
    {
        if k != i {
            out.push(bricks[k]);
        }
        proof {
            if k < i {
                assert(out@ =~= bricks@.subrange(0, k + 1));
            } else if k == i {
                assert(out@ =~= bricks@.subrange(0, i as int) + bricks@.subrange(i + 1, k + 1));
            } else {
                assert(out@ =~= bricks@.subrange(0, i as int) + bricks@.subrange(i + 1, k + 1));
            }
        }
        k += 1;
    }
    assert(out@ =~= bricks@.remove(i as int));
    out
}

/// Taking a brick out leaves bricks that hold cubes and float above the
/// ground.
pub proof fn lemma_remove_ok(bricks: Seq<Brick>, i: int)
    requires
        bricks_ok(bricks),
        0 <= i < bricks.len(),
    ensures
        bricks_ok(bricks.remove(i)),
{
    let rest = bricks.remove(i);
    assert forall|k: int| 0 <= k < rest.len() implies brick_ok(#[trigger] rest[k]) by {
        if k < i {
            assert(rest[k] == bricks[k]);
        } else {
            assert(rest[k] == bricks[k + 1]);
        }
    }
}

/// The number of bricks that can each be taken out of the settled pile
/// written in `input` without another brick dropping.
pub fn part_one(input: &str) -> (r: Option<usize>)
    ensures
        r == match bricks_of(lines_of(input.spec_bytes())) {
            Some(b) => Some(spare_upto(settled(b), b.len() as int) as usize),
            None => None,
        },
{
    let mut bricks = match parse(input.as_bytes()) {
        Some(b) => b,
        None => {
            return None;
        },
    };
    let ghost start = bricks@;
    compress_fully(&mut bricks);
    let ghost pile = bricks@;
    let n = bricks.len();
    let mut removable: usize = 0;
    let mut i: usize = 0;
    while i < n
        invariant
            i <= n,
            n == pile.len(),
            bricks@ == pile,
            bricks_ok(pile),
            removable == spare_upto(pile, i as int),
            removable <= i,
        decreases n - i,
    {
        let mut rest = without(&bricks, i);
        proof {
            lemma_remove_ok(pile, i as int);
        }
        let dropped = compress(&mut rest);
        if dropped.len() == 0 {
            removable += 1;
        }
        i += 1;
    }
    Some(removable)
}

/// The number of bricks that drop in all when each brick of the settled
/// pile written in `input` is taken out in its turn.
pub fn part_two(input: &str) -> (r: Option<u64>)
    ensures
        r == match bricks_of(lines_of(input.spec_bytes())) {
            Some(b) => Some(chain_upto(settled(b), b.len() as int) as u64),
            None => None,
        },
{
    let mut bricks = match parse(input.as_bytes()) {
        Some(b) => b,
        None => {
            return None;
        },
    };
    compress_fully(&mut bricks);
    let ghost pile = bricks@;
    let n = bricks.len();
    let mut total: u64 = 0;
    let mut i: usize = 0;
    while i < n
        invariant
            i <= n,
            n == pile.len(),
            n <= MAX_COORD,
            bricks@ == pile,
            bricks_ok(pile),
            total == chain_upto(pile, i as int),
            total <= i * MAX_COORD,
        decreases n - i,
    {
        let mut rest = without(&bricks, i);
        proof {
            lemma_remove_ok(pile, i as int);
            assert(i * MAX_COORD + MAX_COORD == (i + 1) * MAX_COORD) by (nonlinear_arith);
            assert((i + 1) * MAX_COORD <= 0xFFFF_FFFF * 0xFFFF_FFFF) by (nonlinear_arith)
                requires
                    0 <= i < 0xFFFF_FFFF,
                    MAX_COORD == 0xFFFF_FFFF,
            ;
            lemma_fallen_bound(rest@, rounds_to_rest(rest@), rest@.len() as int);
        }
        let fallen = compress_fully_count(&mut rest);
        total = total + fallen as u64;
        i += 1;
    }
    Some(total)
}

/// At most as many bricks drop as were counted over.
pub proof fn lemma_fallen_bound(bricks: Seq<Brick>, rounds: nat, upto: int)
    requires
        0 <= upto,
    ensures
        0 <= fallen_upto(bricks, rounds, upto) <= upto,
    decreases upto,
{
    if upto > 0 {
        lemma_fallen_bound(bricks, rounds, upto - 1);
    }
}

} // verus!
