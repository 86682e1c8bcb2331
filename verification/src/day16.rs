//! The floor will be lava: a beam of light is bent and split by mirrors,
//! and the tiles it passes through are counted.

use crate::grid::{
    cell_at, height_of, in_bounds, rectangular, shifted, width_of, Cells, Coordinate, Direction,
    Grid,
};
use crate::pathfinder::lemma_bounded_set_len;
use crate::text::{lines_of, split_lines};
use std::collections::HashSet;
use vstd::prelude::*;
use vstd::string::StringSliceAdditionalSpecFns;

verus! {

broadcast use vstd::std_specs::hash::group_hash_axioms;

/// A beam of light passing through `pos` in direction `dir`.
#[derive(Clone, Copy, Debug, PartialEq, Eq, Structural)]
pub struct Beam {
    pub pos: Coordinate,
    pub dir: Direction,
}

/// One more than the largest key of a beam on a grid.
pub const BEAM_KEYS: u64 = 0x4_0000_0000;

/// The directions in which light that travels in direction `d` leaves a
/// tile holding `m`: mirrors `/` and `\` bend it, splitters `|` and `-`
/// split it when hit on the flat side, anything else lets it pass.
pub open spec fn turns(d: Direction, m: u8) -> Seq<Direction> {
    if m == 47 {
        match d {
            Direction::North => seq![Direction::East],
            Direction::East => seq![Direction::North],
            Direction::South => seq![Direction::West],
            Direction::West => seq![Direction::South],
        }
    } else if m == 92 {
        match d {
            Direction::North => seq![Direction::West],
            Direction::East => seq![Direction::South],
            Direction::South => seq![Direction::East],
            Direction::West => seq![Direction::North],
        }
    } else if m == 124 && (d == Direction::East || d == Direction::West) {
        seq![Direction::North, Direction::South]
    } else if m == 45 && (d == Direction::North || d == Direction::South) {
        seq![Direction::East, Direction::West]
    } else {
        seq![d]
    }
}

/// Whether the beam `t` directly continues the beam `s`.
pub open spec fn beam_step(g: Cells, s: Beam, t: Beam) -> bool {
    &&& in_bounds(g, s.pos.x as int, s.pos.y as int)
    &&& turns(s.dir, cell_at(g, s.pos.x as int, s.pos.y as int)).contains(t.dir)
    &&& in_bounds(g, s.pos.x + t.dir.dx(), s.pos.y + t.dir.dy())
    &&& t.pos == shifted(s.pos, t.dir)
}

/// A chain of beams that begins with `init` on the grid.
pub open spec fn beam_path(g: Cells, init: Beam, p: Seq<Beam>) -> bool {
    &&& p.len() >= 1
    &&& p[0] == init
    &&& in_bounds(g, init.pos.x as int, init.pos.y as int)
    &&& forall|i: int| 1 <= i < p.len() ==> beam_step(g, p[i - 1], #[trigger] p[i])
}

/// Whether light that enters as `init` also travels as `s`.
pub open spec fn lit(g: Cells, init: Beam, s: Beam) -> bool {
    exists|p: Seq<Beam>| #[trigger] beam_path(g, init, p) && p.last() == s
}

/// Whether light that enters as `init` passes through the tile at `c`.
pub open spec fn energized(g: Cells, init: Beam, c: Coordinate) -> bool {
    exists|d: Direction| #[trigger] lit(g, init, Beam { pos: c, dir: d })
}

/// How many of the first `upto` tiles of row `y` are energized.
pub open spec fn energized_in_row(g: Cells, init: Beam, y: int, upto: int) -> int
    decreases upto,
{
    if upto <= 0 {
        0
    } else {
        energized_in_row(g, init, y, upto - 1) + if energized(
            g,
            init,
            Coordinate { x: (upto - 1) as usize, y: y as usize },
        ) {
            1int
        } else {
            0int
        }
    }
}

/// How many tiles of the first `upto` rows are energized.
pub open spec fn energized_upto(g: Cells, init: Beam, upto: int) -> int
    decreases upto,
{
    if upto <= 0 {
        0
    } else {
        energized_upto(g, init, upto - 1) + energized_in_row(g, init, upto - 1, width_of(g))
    }
}

/// How many tiles light that enters as `init` energizes.
pub open spec fn energized_count(g: Cells, init: Beam) -> int {
    energized_upto(g, init, height_of(g))
}

/// The number under which a beam is filed.
pub open spec fn beam_key(s: Beam) -> int {
    (s.pos.y * 65536 + s.pos.x) * 4 + s.dir.spec_index()
}

impl Direction {
    /// The directions in which light that travels in direction `self`
    /// leaves a tile holding `current_mirror`.
    pub fn next(&self, current_mirror: u8) -> (r: Vec<Direction>)
        ensures
            r@ == turns(*self, current_mirror),
            1 <= r@.len() <= 2,
    {
        let d = *self;
        if current_mirror == 47 {
            match d {
                Direction::North => vec![Direction::East],
                Direction::East => vec![Direction::North],
                Direction::South => vec![Direction::West],
                Direction::West => vec![Direction::South],
            }
        } else if current_mirror == 92 {
            match d {
                Direction::North => vec![Direction::West],
                Direction::East => vec![Direction::South],
                Direction::South => vec![Direction::East],
                Direction::West => vec![Direction::North],
            }
        } else if current_mirror == 124 && (d == Direction::East || d == Direction::West) {
            vec![Direction::North, Direction::South]
        } else if current_mirror == 45 && (d == Direction::North || d == Direction::South) {
            vec![Direction::East, Direction::West]
        } else {
            vec![d]
        }
    }

    /// The position one step in direction `self` from column `current_x`,
    /// row `current_y`, or `None` where that step crosses the edge of a
    /// field whose last column is `bounds_x` and whose last row is
    /// `bounds_y`.
    pub fn offset(&self, current_x: usize, current_y: usize, bounds_x: usize, bounds_y: usize) -> (r:
        Option<(usize, usize)>)
        ensures
            r is Some <==> match *self {
                Direction::North => current_y > 0,
                Direction::East => current_x < bounds_x,
                Direction::South => current_y < bounds_y,
                Direction::West => current_x > 0,
            },
            r is Some ==> r->Some_0.0 == current_x + self.dx() && r->Some_0.1 == current_y
                + self.dy(),
    {
        match self {
            Direction::North => if current_y == 0 {
                None
            } else {
                Some((current_x, current_y - 1))
            },
            Direction::East => if current_x >= bounds_x {
                None
            } else {
                Some((current_x + 1, current_y))
            },
            Direction::South => if current_y >= bounds_y {
                None
            } else {
                Some((current_x, current_y + 1))
            },
            Direction::West => if current_x == 0 {
                None
            } else {
                Some((current_x - 1, current_y))
            },
        }
    }
}

/// Beams on one grid have different keys.
proof fn lemma_beam_key(g: Cells, s: Beam, t: Beam)
    requires
        rectangular(g),
        in_bounds(g, s.pos.x as int, s.pos.y as int),
        in_bounds(g, t.pos.x as int, t.pos.y as int),
    ensures
        0 <= beam_key(s) < BEAM_KEYS,
        beam_key(s) == beam_key(t) ==> s == t,
{
    if beam_key(s) == beam_key(t) {
        assert(s.dir.spec_index() == t.dir.spec_index());
        assert(s.dir == t.dir);
    }
}

/// The number under which `s` is filed.
fn key_of_beam(grid: &Grid, s: Beam) -> (k: u64)
    requires
        in_bounds(grid@, s.pos.x as int, s.pos.y as int),
    ensures
        k == beam_key(s),
        k < BEAM_KEYS,
{
    proof {
        use_type_invariant(grid);
        grid.lemma_rectangular();
    }
    ((s.pos.y as u64) * 65536 + (s.pos.x as u64)) * 4 + (s.dir.index() as u64)
}

/// What the search keeps true: everything filed or waiting is lit, the
/// entering beam is filed or waiting, and so is every beam that directly
/// continues a filed one.
spec fn trace_inv(g: Cells, init: Beam, seen: Set<u64>, stack: Seq<Beam>) -> bool {
    &&& seen.finite()
    &&& forall|k: u64| #[trigger] seen.contains(k) ==> k < BEAM_KEYS
    &&& forall|i: int|
        0 <= i < stack.len() ==> lit(g, init, #[trigger] stack[i]) && in_bounds(
            g,
            stack[i].pos.x as int,
            stack[i].pos.y as int,
        )
    &&& forall|s: Beam|
        in_bounds(g, s.pos.x as int, s.pos.y as int) && #[trigger] seen.contains(beam_key(s) as u64)
            ==> lit(g, init, s)
    &&& forall|s: Beam, t: Beam|
        seen.contains(beam_key(s) as u64) && #[trigger] beam_step(g, s, t) ==> seen.contains(
            beam_key(t) as u64,
        ) || stack.contains(t)
    &&& seen.contains(beam_key(init) as u64) || stack.contains(init)
}

/// A lit beam stays lit when continued.
proof fn lemma_lit_step(g: Cells, init: Beam, s: Beam, t: Beam)
    requires
        lit(g, init, s),
        beam_step(g, s, t),
    ensures
        lit(g, init, t),
{
    let p = choose|p: Seq<Beam>| #[trigger] beam_path(g, init, p) && p.last() == s;
    let q = p.push(t);
    assert forall|i: int| 1 <= i < q.len() implies beam_step(g, q[i - 1], #[trigger] q[i]) by {
        if i < p.len() {
            assert(beam_step(g, p[i - 1], p[i]));
        }
    }
    assert(beam_path(g, init, q) && q.last() == t);
}

/// With nothing left waiting, every beam of a chain from `init` is filed.
proof fn lemma_trace_complete(g: Cells, init: Beam, seen: Set<u64>, p: Seq<Beam>)
    requires
        trace_inv(g, init, seen, Seq::empty()),
        beam_path(g, init, p),
    ensures
        seen.contains(beam_key(p.last()) as u64),
    decreases p.len(),
{
    if p.len() == 1 {
        assert(!Seq::<Beam>::empty().contains(init));
    } else {
        let q = p.drop_last();
        assert forall|i: int| 1 <= i < q.len() implies beam_step(g, q[i - 1], #[trigger] q[i]) by {
            assert(beam_step(g, p[i - 1], p[i]));
        }
        lemma_trace_complete(g, init, seen, q);
        assert(beam_step(g, p[p.len() - 2], p[p.len() - 1]));
        assert(!Seq::<Beam>::empty().contains(p.last()));
    }
}

/// The beams that light entering as `init` travels as, filed by key.
fn trace(grid: &Grid, init: Beam) -> (seen: HashSet<u64>)
    ensures
        forall|s: Beam|
            in_bounds(grid@, s.pos.x as int, s.pos.y as int) ==> (#[trigger] seen@.contains(
                beam_key(s) as u64,
            ) <==> lit(grid@, init, s)),
{
    let mut seen: HashSet<u64> = HashSet::new();
    let mut stack: Vec<Beam> = Vec::new();
    let ghost g = grid@;
    proof {
        use_type_invariant(grid);
        grid.lemma_rectangular();
    }
    if grid.get(init.pos).is_none() {
        proof {
            assert forall|s: Beam| !lit(g, init, s) by {
                if lit(g, init, s) {
                    let p = choose|p: Seq<Beam>| #[trigger] beam_path(g, init, p) && p.last() == s;
                }
            }
        }
        return seen;
    }
    stack.push(init);
    proof {
        let p = seq![init];
        assert(beam_path(g, init, p) && p.last() == init);
        assert(stack@[0] == init);
    }
    while stack.len() > 0
        invariant
            g == grid@,
            rectangular(g),
            trace_inv(g, init, seen@, stack@),
        decreases BEAM_KEYS - seen@.len(), stack@.len(),
    {
        let ghost seen0 = seen@;
        let ghost stack0 = stack@;
        proof {
            lemma_bounded_set_len(seen@, BEAM_KEYS);
        }
        let cur = stack.pop().unwrap();
        let ghost rest = stack@;
        assert(rest == stack0.drop_last());
        assert(stack0[stack0.len() - 1] == cur);
        let k = key_of_beam(grid, cur);
        proof {
            assert forall|t: Beam| stack0.contains(t) implies t == cur || rest.contains(t) by {
                let i = choose|i: int| 0 <= i < stack0.len() && stack0[i] == t;
                if i < rest.len() {
                    assert(rest[i] == t);
                }
            }
        }
        if seen.contains(&k) {
            proof {
                assert(trace_inv(g, init, seen@, rest)) by {
                    assert forall|i: int| 0 <= i < rest.len() implies lit(g, init, #[trigger] rest[i])
                        && in_bounds(g, rest[i].pos.x as int, rest[i].pos.y as int) by {
                        assert(rest[i] == stack0[i]);
                    }
                }
            }
        } else {
            seen.insert(k);
            let m = match grid.get(cur.pos) {
                Some(b) => b,
                None => 0,
            };
            let dirs = cur.dir.next(m);
            let w = grid.width();
            let h = grid.height();
            proof {
                assert(seen@ == seen0.insert(k));
                assert forall|i: int| 0 <= i < rest.len() implies lit(g, init, #[trigger] rest[i])
                    && in_bounds(g, rest[i].pos.x as int, rest[i].pos.y as int) by {
                    assert(rest[i] == stack0[i]);
                }
                assert forall|s: Beam|
                    in_bounds(g, s.pos.x as int, s.pos.y as int) && #[trigger] seen@.contains(
                        beam_key(s) as u64,
                    ) implies lit(g, init, s) by {
                    lemma_beam_key(g, s, cur);
                }
                lemma_beam_key(g, cur, cur);
                lemma_bounded_set_len(seen@, BEAM_KEYS);
            }
            let mut j: usize = 0;
            while j < dirs.len()
                invariant
                    j <= dirs@.len(),
                    g == grid@,
                    rectangular(g),
                    w == width_of(g),
                    h == height_of(g),
                    dirs@ == turns(cur.dir, cell_at(g, cur.pos.x as int, cur.pos.y as int)),
                    in_bounds(g, cur.pos.x as int, cur.pos.y as int),
                    lit(g, init, cur),
                    seen@ == seen0.insert(k),
                    k == beam_key(cur),
                    seen@.finite(),
                    seen@.len() == seen0.len() + 1,
                    seen@.len() <= BEAM_KEYS,
                    forall|q: u64| #[trigger] seen@.contains(q) ==> q < BEAM_KEYS,
                    forall|i: int|
                        0 <= i < stack@.len() ==> lit(g, init, #[trigger] stack@[i]) && in_bounds(
                            g,
                            stack@[i].pos.x as int,
                            stack@[i].pos.y as int,
                        ),
                    forall|s: Beam|
                        in_bounds(g, s.pos.x as int, s.pos.y as int) && #[trigger] seen@.contains(
                            beam_key(s) as u64,
                        ) ==> lit(g, init, s),
                    forall|t: Beam| rest.contains(t) ==> stack@.contains(t),
                    forall|t: Beam|
                        #[trigger] beam_step(g, cur, t) && (exists|i: int|
                            0 <= i < j && dirs@[i] == t.dir) ==> stack@.contains(t),
                decreases dirs@.len() - j,
            {
                let d = dirs[j];
                let ghost before = stack@;
                match d.offset(cur.pos.x, cur.pos.y, w - 1, h - 1) {
                    Some((x, y)) => {
                        let t = Beam { pos: Coordinate { x, y }, dir: d };
                        proof {
                            assert(dirs@.contains(d));
                            assert(beam_step(g, cur, t));
                            lemma_lit_step(g, init, cur, t);
                        }
                        stack.push(t);
                        proof {
                            assert(stack@[before.len() as int] == t);
                            assert forall|u: Beam| before.contains(u) implies stack@.contains(u) by {
                                let i = choose|i: int| 0 <= i < before.len() && before[i] == u;
                                assert(stack@[i] == u);
                            }
                            assert forall|u: Beam|
                                #[trigger] beam_step(g, cur, u) && (exists|i: int|
                                    0 <= i < j + 1 && dirs@[i] == u.dir) implies stack@.contains(u) by {
                                let i = choose|i: int| 0 <= i < j + 1 && dirs@[i] == u.dir;
                                if i == j {
                                    assert(u == t);
                                } else {
                                    assert(before.contains(u));
                                }
                            }
                        }
                    },
                    None => {
                        proof {
                            assert forall|u: Beam|
                                #[trigger] beam_step(g, cur, u) && (exists|i: int|
                                    0 <= i < j + 1 && dirs@[i] == u.dir) implies stack@.contains(u) by {
                                let i = choose|i: int| 0 <= i < j + 1 && dirs@[i] == u.dir;
                                if i == j {
                                    assert(false);
                                }
                            }
                        }
                    },
                }
                j += 1;
            }
            proof {
                assert(trace_inv(g, init, seen@, stack@)) by {
                    assert forall|s: Beam, t: Beam|
                        seen@.contains(beam_key(s) as u64) && #[trigger] beam_step(
                            g,
                            s,
                            t,
                        ) implies seen@.contains(beam_key(t) as u64) || stack@.contains(t) by {
                        lemma_beam_key(g, s, cur);
                        if beam_key(s) == beam_key(cur) {
                            assert(s == cur);
                            let i = choose|i: int| 0 <= i < dirs@.len() && dirs@[i] == t.dir;
                        } else {
                            assert(seen0.contains(beam_key(s) as u64));
                            if !seen0.contains(beam_key(t) as u64) {
                                assert(stack0.contains(t));
                            }
                        }
                    }
                }
            }
        }
    }
    proof {
        assert(stack@ =~= Seq::<Beam>::empty());
        assert forall|s: Beam| in_bounds(g, s.pos.x as int, s.pos.y as int) implies (
        #[trigger] seen@.contains(beam_key(s) as u64) <==> lit(g, init, s)) by {
            if lit(g, init, s) {
                let p = choose|p: Seq<Beam>| #[trigger] beam_path(g, init, p) && p.last() == s;
                lemma_trace_complete(g, init, seen@, p);
            }
        }
    }
    seen
}

/// Whether light passes through the tile at `c` in some direction.
fn touched(grid: &Grid, seen: &HashSet<u64>, c: Coordinate) -> (r: bool)
    requires
        in_bounds(grid@, c.x as int, c.y as int),
    ensures
        r == exists|d: Direction| #[trigger]
            seen@.contains(beam_key(Beam { pos: c, dir: d }) as u64),
{
    let mut i: usize = 0;
    while i < 4
        invariant
            i <= 4,
            in_bounds(grid@, c.x as int, c.y as int),
            forall|d: Direction|
                d.spec_index() < i ==> !#[trigger] seen@.contains(
                    beam_key(Beam { pos: c, dir: d }) as u64,
                ),
        decreases 4 - i,
    {
        let d = Direction::from_index(i);
        let k = key_of_beam(grid, Beam { pos: c, dir: d });
        if seen.contains(&k) {
            assert(seen@.contains(beam_key(Beam { pos: c, dir: d }) as u64));
            return true;
        }
        proof {
            assert forall|e: Direction| e.spec_index() < i + 1 implies !#[trigger] seen@.contains(
                beam_key(Beam { pos: c, dir: e }) as u64,
            ) by {
                if e.spec_index() == i {
                    assert(e == d);
                }
            }
        }
        i += 1;
    }
    false
}

/// A row holds at most as many energized tiles as were counted over.
proof fn lemma_row_count(g: Cells, init: Beam, y: int, upto: int)
    requires
        0 <= upto,
    ensures
        0 <= energized_in_row(g, init, y, upto) <= upto,
    decreases upto,
{
    if upto > 0 {
        lemma_row_count(g, init, y, upto - 1);
    }
}

/// The rows counted over hold at most as many energized tiles as cells.
proof fn lemma_rows_count(g: Cells, init: Beam, upto: int)
    requires
        0 <= upto,
        0 <= width_of(g),
    ensures
        0 <= energized_upto(g, init, upto) <= upto * width_of(g),
    decreases upto,
{
    if upto > 0 {
        lemma_rows_count(g, init, upto - 1);
        lemma_row_count(g, init, upto - 1, width_of(g));
        assert((upto - 1) * width_of(g) + width_of(g) == upto * width_of(g)) by (nonlinear_arith);
    } else {
        assert(0 * width_of(g) == 0);
    }
}

/// The number of tiles energized by light that enters the grid at column
/// `initial_x`, row `initial_y`, travelling in direction `initial_dir`.
pub fn search(grid: &Grid, initial_x: usize, initial_y: usize, initial_dir: Direction) -> (r: u64)
    ensures
        r == energized_count(
            grid@,
            Beam { pos: Coordinate { x: initial_x, y: initial_y }, dir: initial_dir },
        ),
        r <= 4294836225,
{
    let init = Beam { pos: Coordinate { x: initial_x, y: initial_y }, dir: initial_dir };
    let seen = trace(grid, init);
    let w = grid.width();
    let h = grid.height();
    let ghost g = grid@;
    proof {
        use_type_invariant(grid);
        grid.lemma_rectangular();
    }
    let mut total: u64 = 0;
    let mut y: usize = 0;
    while y < h
        invariant
            y <= h,
            g == grid@,
            rectangular(g),
            w == width_of(g),
            h == height_of(g),
            total == energized_upto(g, init, y as int),
            forall|s: Beam|
                in_bounds(g, s.pos.x as int, s.pos.y as int) ==> (#[trigger] seen@.contains(
                    beam_key(s) as u64,
                ) <==> lit(g, init, s)),
        decreases h - y,
    {
        let mut row: u64 = 0;
        let mut x: usize = 0;
        while x < w
            invariant
                x <= w,
                y < h,
                g == grid@,
                rectangular(g),
                w == width_of(g),
                h == height_of(g),
                row == energized_in_row(g, init, y as int, x as int),
                row <= x,
                forall|s: Beam|
                    in_bounds(g, s.pos.x as int, s.pos.y as int) ==> (#[trigger] seen@.contains(
                        beam_key(s) as u64,
                    ) <==> lit(g, init, s)),
            decreases w - x,
        {
            let c = Coordinate { x, y };
            let hit = touched(grid, &seen, c);
            proof {
                if hit {
                    let d = choose|d: Direction| #[trigger]
                        seen@.contains(beam_key(Beam { pos: c, dir: d }) as u64);
                    assert(lit(g, init, Beam { pos: c, dir: d }));
                    assert(energized(g, init, c));
                } else {
                    if energized(g, init, c) {
                        let d = choose|d: Direction| #[trigger] lit(g, init, Beam { pos: c, dir: d });
                        assert(seen@.contains(beam_key(Beam { pos: c, dir: d }) as u64));
                    }
                }
            }
            if hit {
                row += 1;
            }
            x += 1;
        }
        proof {
            lemma_rows_count(g, init, y as int);
            lemma_rows_count(g, init, y as int + 1);
            assert(y * w <= 65535 * 65535 && (y + 1) * w <= 65535 * 65535) by (nonlinear_arith)
                requires
                    0 <= y < 65535,
                    0 <= w <= 65535,
            ;
        }
        total = total + row;
        y += 1;
    }
    proof {
        lemma_rows_count(g, init, h as int);
        assert(h * w <= 65535 * 65535) by (nonlinear_arith)
            requires
                0 <= h <= 65535,
                0 <= w <= 65535,
        ;
    }
    total
}

/// The beams that may enter the grid from outside: at each tile of the
/// edge, heading inwards.
pub open spec fn enters_at_edge(g: Cells, b: Beam) -> bool {
    &&& in_bounds(g, b.pos.x as int, b.pos.y as int)
    &&& match b.dir {
        Direction::East => b.pos.x == 0,
        Direction::West => b.pos.x == width_of(g) - 1,
        Direction::South => b.pos.y == 0,
        Direction::North => b.pos.y == height_of(g) - 1,
    }
}

/// `m` is the largest number of tiles that light entering at the edge can
/// energize.
pub open spec fn is_brightest(g: Cells, m: int) -> bool {
    &&& exists|b: Beam| #[trigger] enters_at_edge(g, b) && energized_count(g, b) == m
    &&& forall|b: Beam| #[trigger] enters_at_edge(g, b) ==> energized_count(g, b) <= m
}

/// The largest number of tiles that light entering at the edge of `grid`
/// can energize.
pub fn brightest(grid: &Grid) -> (r: u64)
    ensures
        is_brightest(grid@, r as int),
{
    let w = grid.width();
    let h = grid.height();
    let ghost g = grid@;
    let mut best = search(grid, 0, 0, Direction::East);
    let ghost mut arg = Beam { pos: Coordinate { x: 0, y: 0 }, dir: Direction::East };
    let mut row: usize = 0;
    while row < h
        invariant
            row <= h,
            g == grid@,
            w == width_of(g),
            h == height_of(g),
            1 <= w,
            1 <= h,
            enters_at_edge(g, arg),
            energized_count(g, arg) == best,
            forall|b: Beam|
                #[trigger] enters_at_edge(g, b) && b.pos.y < row && (b.dir == Direction::East
                    || b.dir == Direction::West) ==> energized_count(g, b) <= best,
        decreases h - row,
    {
        let east = search(grid, 0, row, Direction::East);
        if east > best {
            best = east;
            proof {
                arg = Beam { pos: Coordinate { x: 0, y: row }, dir: Direction::East };
            }
        }
        let west = search(grid, w - 1, row, Direction::West);
        if west > best {
            best = west;
            proof {
                arg = Beam { pos: Coordinate { x: (w - 1) as usize, y: row }, dir: Direction::West };
            }
        }
        proof {
            assert forall|b: Beam|
                #[trigger] enters_at_edge(g, b) && b.pos.y < row + 1 && (b.dir == Direction::East
                    || b.dir == Direction::West) implies energized_count(g, b) <= best by {
                if b.pos.y == row {
                    if b.dir == Direction::East {
                        assert(b == Beam { pos: Coordinate { x: 0, y: row }, dir: Direction::East });
                    } else {
                        assert(b == Beam {
                            pos: Coordinate { x: (w - 1) as usize, y: row },
                            dir: Direction::West,
                        });
                    }
                }
            }
        }
        row += 1;
    }
    let mut col: usize = 0;
    while col < w
        invariant
            col <= w,
            g == grid@,
            w == width_of(g),
            h == height_of(g),
            1 <= w,
            1 <= h,
            enters_at_edge(g, arg),
            energized_count(g, arg) == best,
            forall|b: Beam|
                #[trigger] enters_at_edge(g, b) && (b.dir == Direction::East || b.dir
                    == Direction::West) ==> energized_count(g, b) <= best,
            forall|b: Beam|
                #[trigger] enters_at_edge(g, b) && b.pos.x < col && (b.dir == Direction::South
                    || b.dir == Direction::North) ==> energized_count(g, b) <= best,
        decreases w - col,
    {
        let south = search(grid, col, 0, Direction::South);
        if south > best {
            best = south;
            proof {
                arg = Beam { pos: Coordinate { x: col, y: 0 }, dir: Direction::South };
            }
        }
        let north = search(grid, col, h - 1, Direction::North);
        if north > best {
            best = north;
            proof {
                arg = Beam { pos: Coordinate { x: col, y: (h - 1) as usize }, dir: Direction::North };
            }
        }
        proof {
            assert forall|b: Beam|
                #[trigger] enters_at_edge(g, b) && b.pos.x < col + 1 && (b.dir == Direction::South
                    || b.dir == Direction::North) implies energized_count(g, b) <= best by {
                if b.pos.x == col {
                    if b.dir == Direction::South {
                        assert(b == Beam { pos: Coordinate { x: col, y: 0 }, dir: Direction::South });
                    } else {
                        assert(b == Beam {
                            pos: Coordinate { x: col, y: (h - 1) as usize },
                            dir: Direction::North,
                        });
                    }
                }
            }
        }
        col += 1;
    }
    best
}

/// The number of tiles energized by light that enters the contraption
/// written in `input` at the top-left tile, heading east; `None` where
/// the text is no rectangle.
pub fn part_one(input: &str) -> (r: Option<u64>)
    ensures
        match r {
            Some(n) => rectangular(lines_of(input.spec_bytes())) && n == energized_count(
                lines_of(input.spec_bytes()),
                Beam { pos: Coordinate { x: 0, y: 0 }, dir: Direction::East },
            ),
            None => !rectangular(lines_of(input.spec_bytes())),
        },
{
    match Grid::from_rows(split_lines(input.as_bytes())) {
        Ok(grid) => Some(search(&grid, 0, 0, Direction::East)),
        Err(_) => None,
    }
}

/// The largest number of tiles that light entering at the edge of the
/// contraption written in `input` can energize; `None` where the text is
/// no rectangle.
pub fn part_two(input: &str) -> (r: Option<u64>)
    ensures
        match r {
            Some(n) => rectangular(lines_of(input.spec_bytes())) && is_brightest(
                lines_of(input.spec_bytes()),
                n as int,
            ),
            None => !rectangular(lines_of(input.spec_bytes())),
        },
{
    match Grid::from_rows(split_lines(input.as_bytes())) {
        Ok(grid) => Some(brightest(&grid)),
        Err(_) => None,
    }
}

} // verus!
