//! Pipe maze: one loop of pipe runs through the field from the start
//! tile and back; how long it is, and how many tiles it encloses.

use crate::grid::{
    cell_at, first_cell, height_of, in_bounds, lacks, rectangular, shifted, width_of, Cells,
    Coordinate, Direction, Grid,
};
use crate::text::{lines_of, split_lines};
use vstd::prelude::*;
use vstd::string::StringSliceAdditionalSpecFns;

verus! {

/// The byte of the start tile.
pub const START: u8 = 83;

/// The two ways out of the pipe written as `b`, in the order in which
/// they are tried.
pub open spec fn openings(b: u8) -> Option<(Direction, Direction)> {
    if b == 124 {
        Some((Direction::North, Direction::South))
    } else if b == 45 {
        Some((Direction::West, Direction::East))
    } else if b == 76 {
        Some((Direction::North, Direction::East))
    } else if b == 74 {
        Some((Direction::North, Direction::West))
    } else if b == 55 {
        Some((Direction::West, Direction::South))
    } else if b == 70 {
        Some((Direction::South, Direction::East))
    } else {
        None
    }
}

/// The way on through the pipe written as `b` for a walker who came in
/// moving towards `dir`: the first way out that does not lead back.
pub open spec fn way_on(b: u8, dir: Direction) -> Option<Direction> {
    match openings(b) {
        Some((first, second)) => if first != dir.spec_opposite() {
            Some(first)
        } else {
            Some(second)
        },
        None => None,
    }
}

/// Whether a step towards `dir` from `pos` enters a pipe that opens
/// towards where the step came from.
pub open spec fn joins(g: Cells, pos: Coordinate, dir: Direction) -> bool {
    in_bounds(g, pos.x + dir.dx(), pos.y + dir.dy()) && match openings(
        cell_at(g, pos.x + dir.dx(), pos.y + dir.dy()),
    ) {
        Some((first, second)) => first == dir.spec_opposite() || second == dir.spec_opposite(),
        None => false,
    }
}

/// The direction in which the walk leaves `pos`: the first of south,
/// north, east and west that joins a pipe.
pub open spec fn first_way(g: Cells, pos: Coordinate) -> Option<Direction> {
    if joins(g, pos, Direction::South) {
        Some(Direction::South)
    } else if joins(g, pos, Direction::North) {
        Some(Direction::North)
    } else if joins(g, pos, Direction::East) {
        Some(Direction::East)
    } else if joins(g, pos, Direction::West) {
        Some(Direction::West)
    } else {
        None
    }
}

/// Where the walker stands and which way he is heading.
pub struct Walker {
    pub pos: Coordinate,
    pub dir: Direction,
}

/// The walker after `k` steps from `from`; nothing once he has stepped
/// off the field, onto ground, or onto the start tile.
pub open spec fn walker_after(g: Cells, from: Walker, k: nat) -> Option<Walker>
    decreases k,
{
    if k == 0 {
        Some(from)
    } else {
        match walker_after(g, from, (k - 1) as nat) {
            None => None,
            Some(w) => {
                if in_bounds(g, w.pos.x + w.dir.dx(), w.pos.y + w.dir.dy()) {
                    let next = shifted(w.pos, w.dir);
                    match way_on(cell_at(g, next.x as int, next.y as int), w.dir) {
                        Some(d) => Some(Walker { pos: next, dir: d }),
                        None => None,
                    }
                } else {
                    None
                }
            },
        }
    }
}

/// The walker comes home with step `k`: after `k - 1` steps through
/// pipes, the next step enters the start tile.
pub open spec fn home_at(g: Cells, from: Walker, k: nat) -> bool {
    k >= 1 && match walker_after(g, from, (k - 1) as nat) {
        Some(w) => in_bounds(g, w.pos.x + w.dir.dx(), w.pos.y + w.dir.dy()) && cell_at(
            g,
            w.pos.x + w.dir.dx(),
            w.pos.y + w.dir.dy(),
        ) == START,
        None => false,
    }
}

/// The most steps a walk is followed for.
pub open spec fn step_limit(g: Cells) -> nat {
    (4 * width_of(g) * height_of(g)) as nat
}

/// The way on through the pipe written as `b`.
pub fn next_dir(b: u8, dir: Direction) -> (r: Option<Direction>)
    ensures
        r == way_on(b, dir),
{
    let pair = if b == 124 {
        Some((Direction::North, Direction::South))
    } else if b == 45 {
        Some((Direction::West, Direction::East))
    } else if b == 76 {
        Some((Direction::North, Direction::East))
    } else if b == 74 {
        Some((Direction::North, Direction::West))
    } else if b == 55 {
        Some((Direction::West, Direction::South))
    } else if b == 70 {
        Some((Direction::South, Direction::East))
    } else {
        None
    };
    match pair {
        Some((first, second)) => if first != dir.opposite() {
            Some(first)
        } else {
            Some(second)
        },
        None => None,
    }
}

/// Whether a step towards `dir` from `pos` enters a pipe that opens
/// towards where the step came from.
pub fn connects(grid: &Grid, pos: Coordinate, dir: Direction) -> (r: bool)
    ensures
        r == joins(grid@, pos, dir),
{
    match grid.neighbor(pos, dir) {
        None => false,
        Some(n) => {
            let b = match grid.get(n) {
                Some(b) => b,
                None => 0,
            };
            let back = dir.opposite();
            if b == 124 {
                back == Direction::North || back == Direction::South
            } else if b == 45 {
                back == Direction::West || back == Direction::East
            } else if b == 76 {
                back == Direction::North || back == Direction::East
            } else if b == 74 {
                back == Direction::North || back == Direction::West
            } else if b == 55 {
                back == Direction::West || back == Direction::South
            } else if b == 70 {
                back == Direction::South || back == Direction::East
            } else {
                false
            }
        },
    }
}

/// The direction in which the walk leaves `pos`.
pub fn get_dir(grid: &Grid, pos: Coordinate) -> (r: Option<Direction>)
    ensures
        r == first_way(grid@, pos),
{
    if connects(grid, pos, Direction::South) {
        Some(Direction::South)
    } else if connects(grid, pos, Direction::North) {
        Some(Direction::North)
    } else if connects(grid, pos, Direction::East) {
        Some(Direction::East)
    } else if connects(grid, pos, Direction::West) {
        Some(Direction::West)
    } else {
        None
    }
}

/// Whether `marks` has the shape of `g`.
pub open spec fn shaped(g: Cells, marks: Seq<Seq<bool>>) -> bool {
    &&& marks.len() == height_of(g)
    &&& forall|y: int| 0 <= y < marks.len() ==> (#[trigger] marks[y]).len() == width_of(g)
}

/// The model of a field of marks.
pub open spec fn marks_view(marks: &Vec<Vec<bool>>) -> Seq<Seq<bool>> {
    Seq::new(marks@.len(), |y: int| marks@[y]@)
}

/// Whether the walker stands on `c` after fewer than `k` steps.
pub open spec fn trodden(g: Cells, from: Walker, c: Coordinate, k: nat) -> bool {
    exists|j: nat| j < k && #[trigger] walker_after(g, from, j) is Some && walker_after(g, from, j)->Some_0.pos == c
}

/// A field without marks.
pub fn blank_marks(grid: &Grid) -> (marks: Vec<Vec<bool>>)
    ensures
        shaped(grid@, marks_view(&marks)),
        forall|x: int, y: int| in_bounds(grid@, x, y) ==> !#[trigger] marks_view(&marks)[y][x],
{
    let w = grid.width();
    let h = grid.height();
    let mut marks: Vec<Vec<bool>> = Vec::new();
    let mut y: usize = 0;
    while y < h
        invariant
            y <= h,
            w == width_of(grid@),
            h == height_of(grid@),
            marks@.len() == y,
            forall|j: int| 0 <= j < y ==> (#[trigger] marks@[j])@.len() == w,
            forall|i: int, j: int| 0 <= i < w && 0 <= j < y ==> !#[trigger] marks@[j]@[i],
        decreases h - y,
    {
        let mut row: Vec<bool> = Vec::new();
        let mut x: usize = 0;
        while x < w
            invariant
                x <= w,
                row@.len() == x,
                forall|i: int| 0 <= i < x ==> !#[trigger] row@[i],
            decreases w - x,
        {
            row.push(false);
            x += 1;
        }
        marks.push(row);
        y += 1;
    }
    marks
}

/// The number of the step with which the walker from `start` comes home,
/// and the tiles he treads on the way; `None` where he has no way to
/// leave, strays from the pipes, or is not home within four steps for
/// each tile of the field.
pub fn walk_loop(grid: &Grid, start: Coordinate) -> (r: Option<(u64, Vec<Vec<bool>>)>)
    requires
        in_bounds(grid@, start.x as int, start.y as int),
    ensures
        match r {
            Some((k, marks)) => first_way(grid@, start) is Some && home_at(
                grid@,
                Walker { pos: start, dir: first_way(grid@, start)->Some_0 },
                k as nat,
            ) && 1 <= k <= step_limit(grid@) && shaped(grid@, marks_view(&marks)) && forall|
                x: int,
                y: int,
            |
                in_bounds(grid@, x, y) ==> #[trigger] marks_view(&marks)[y][x] == trodden(
                    grid@,
                    Walker { pos: start, dir: first_way(grid@, start)->Some_0 },
                    Coordinate { x: x as usize, y: y as usize },
                    k as nat,
                ),
            None => first_way(grid@, start) is None || forall|k: nat|
                1 <= k <= step_limit(grid@) ==> !#[trigger] home_at(
                    grid@,
                    Walker { pos: start, dir: first_way(grid@, start)->Some_0 },
                    k,
                ),
        },
{
    let first = match get_dir(grid, start) {
        Some(d) => d,
        None => {
            return None;
        },
    };
    let ghost g = grid@;
    let ghost from = Walker { pos: start, dir: first };
    let w = grid.width() as u64;
    let h = grid.height() as u64;
    proof {
        use_type_invariant(grid);
        grid.lemma_rectangular();
        assert(4 * width_of(g) * height_of(g) <= 4 * 65535 * 65535) by (nonlinear_arith)
            requires
                0 <= width_of(g) <= 65535,
                0 <= height_of(g) <= 65535,
        ;
    }
    let limit: u64 = 4 * w * h;
    let mut marks = blank_marks(grid);
    let mut pos = start;
    let mut dir = first;
    let mut steps: u64 = 0;
    while steps < limit
        invariant
            g == grid@,
            rectangular(g),
            from == (Walker { pos: start, dir: first }),
            first_way(g, start) == Some(first),
            limit == step_limit(g),
            steps <= limit,
            in_bounds(g, pos.x as int, pos.y as int),
            walker_after(g, from, steps as nat) == Some(Walker { pos, dir }),
            forall|k: nat| 1 <= k <= steps ==> !#[trigger] home_at(g, from, k),
            shaped(g, marks_view(&marks)),
            forall|x: int, y: int|
                in_bounds(g, x, y) ==> #[trigger] marks_view(&marks)[y][x] == trodden(
                    g,
                    from,
                    Coordinate { x: x as usize, y: y as usize },
                    steps as nat,
                ),
        decreases limit - steps,
    {
        let ghost old_marks = marks_view(&marks);
        let mut row: Vec<bool> = Vec::new();
        assert(old_marks[pos.y as int] == marks@[pos.y as int]@);
        std::mem::swap(&mut row, &mut marks[pos.y]);
        row.set(pos.x, true);
        marks.set(pos.y, row);
        proof {
            assert(shaped(g, marks_view(&marks))) by {
                assert forall|y: int| 0 <= y < marks_view(&marks).len() implies (
                #[trigger] marks_view(&marks)[y]).len() == width_of(g) by {
                    if y != pos.y {
                        assert(marks_view(&marks)[y] == old_marks[y]);
                    }
                }
            }
            assert forall|x: int, y: int| in_bounds(g, x, y) implies #[trigger] marks_view(&marks)[y][x]
                == trodden(g, from, Coordinate { x: x as usize, y: y as usize }, (steps + 1) as nat) by {
                let c = Coordinate { x: x as usize, y: y as usize };
                if y != pos.y {
                    assert(marks_view(&marks)[y] == old_marks[y]);
                }
                assert(old_marks[y][x] == trodden(g, from, c, steps as nat));
                if c == pos {
                    assert(walker_after(g, from, steps as nat) is Some);
                } else if trodden(g, from, c, (steps + 1) as nat) {
                    let j = choose|j: nat|
                        j < steps + 1 && #[trigger] walker_after(g, from, j) is Some && walker_after(
                            g,
                            from,
                            j,
                        )->Some_0.pos == c;
                    assert(j < steps);
                }
                if trodden(g, from, c, steps as nat) {
                    let j = choose|j: nat|
                        j < steps && #[trigger] walker_after(g, from, j) is Some && walker_after(
                            g,
                            from,
                            j,
                        )->Some_0.pos == c;
                    assert(j < steps + 1);
                }
            }
        }
        steps += 1;
        let next = match grid.neighbor(pos, dir) {
            Some(n) => n,
            None => {
                proof {
                    lemma_walk_ends(g, from, steps as nat, limit as nat);
                }
                return None;
            },
        };
        let b = match grid.get(next) {
            Some(b) => b,
            None => 0,
        };
        if b == START {
            assert(home_at(g, from, steps as nat));
            return Some((steps, marks));
        }
        match next_dir(b, dir) {
            Some(d) => {
                pos = next;
                dir = d;
            },
            None => {
                proof {
                    lemma_walk_ends(g, from, steps as nat, limit as nat);
                }
                return None;
            },
        }
    }
    None
}

/// Once the walker has strayed he does not come home.
pub proof fn lemma_walk_ends(g: Cells, from: Walker, a: nat, limit: nat)
    requires
        walker_after(g, from, a) is None,
        forall|k: nat| 1 <= k <= a ==> !#[trigger] home_at(g, from, k),
    ensures
        forall|k: nat| 1 <= k <= limit ==> !#[trigger] home_at(g, from, k),
{
    assert forall|k: nat| 1 <= k <= limit implies !#[trigger] home_at(g, from, k) by {
        if k > a {
            lemma_stays_lost(g, from, a, (k - 1) as nat);
        }
    }
}

/// A walker who has strayed stays lost.
pub proof fn lemma_stays_lost(g: Cells, from: Walker, a: nat, b: nat)
    requires
        walker_after(g, from, a) is None,
        a <= b,
    ensures
        walker_after(g, from, b) is None,
    decreases b - a,
{
    if a < b {
        lemma_stays_lost(g, from, a, (b - 1) as nat);
    }
}

/// Whether a marked tile holding `b` is a wall that an eye travelling
/// along the upper half of the row must cross: every pipe of the loop but
/// the flat one and the two bends that open downwards.
pub open spec fn crossing(b: u8) -> bool {
    !(b == 45 || b == 55 || b == 70)
}

/// Whether the eye is inside the loop after the first `upto` tiles of row
/// `y`.
pub open spec fn inside_after(g: Cells, marks: Seq<Seq<bool>>, y: int, upto: int) -> bool
    decreases upto,
{
    if upto <= 0 {
        false
    } else {
        let before = inside_after(g, marks, y, upto - 1);
        if marks[y][upto - 1] && crossing(cell_at(g, upto - 1, y)) {
            !before
        } else {
            before
        }
    }
}

/// How many of the first `upto` tiles of row `y` are no part of the loop
/// and lie inside it.
pub open spec fn enclosed_in_row(g: Cells, marks: Seq<Seq<bool>>, y: int, upto: int) -> int
    decreases upto,
{
    if upto <= 0 {
        0
    } else {
        enclosed_in_row(g, marks, y, upto - 1) + if !marks[y][upto - 1] && inside_after(
            g,
            marks,
            y,
            upto - 1,
        ) {
            1int
        } else {
            0int
        }
    }
}

/// How many tiles of the first `upto` rows are no part of the loop and
/// lie inside it.
pub open spec fn enclosed(g: Cells, marks: Seq<Seq<bool>>, upto: int) -> int
    decreases upto,
{
    if upto <= 0 {
        0
    } else {
        enclosed(g, marks, upto - 1) + enclosed_in_row(g, marks, upto - 1, width_of(g))
    }
}

/// The number of tiles that the marked loop encloses.
pub fn count_enclosed(grid: &Grid, marks: &Vec<Vec<bool>>) -> (r: u64)
    requires
        shaped(grid@, marks_view(marks)),
    ensures
        r == enclosed(grid@, marks_view(marks), height_of(grid@)),
{
    let w = grid.width();
    let h = grid.height();
    let ghost g = grid@;
    let ghost m = marks_view(marks);
    let mut total: u64 = 0;
    let mut y: usize = 0;
    while y < h
        invariant
            y <= h,
            g == grid@,
            m == marks_view(marks),
            shaped(g, m),
            w == width_of(g),
            h == height_of(g),
            w <= 65535,
            h <= 65535,
            total == enclosed(g, m, y as int),
            total <= y * 65535,
        decreases h - y,
    {
        let row = &marks[y];
        assert(m[y as int] == row@);
        let mut inside = false;
        let mut count: u64 = 0;
        let mut x: usize = 0;
        while x < w
            invariant
                x <= w,
                y < h,
                g == grid@,
                w == width_of(g),
                h == height_of(g),
                m[y as int] == row@,
                row@.len() == w,
                inside == inside_after(g, m, y as int, x as int),
                count == enclosed_in_row(g, m, y as int, x as int),
                count <= x,
            decreases w - x,
        {
            let b = match grid.get(Coordinate { x, y }) {
                Some(b) => b,
                None => 0,
            };
            if row[x] {
                if !(b == 45 || b == 55 || b == 70) {
                    inside = !inside;
                }
            } else if inside {
                count += 1;
            }
            x += 1;
        }
        total = total + count;
        y += 1;
    }
    total
}

/// The walker who leaves the start tile of `g`.
pub open spec fn first_walker(g: Cells) -> Walker {
    Walker { pos: first_cell(g, START), dir: first_way(g, first_cell(g, START))->Some_0 }
}

/// The number of the step that brings the walker of the field `g` home;
/// nothing where `g` is no rectangle or has no start tile, the walker has
/// no way to leave, or he is not home within the step limit.
pub open spec fn home_step(g: Cells) -> Option<nat> {
    if rectangular(g) && !lacks(g, START) && first_way(g, first_cell(g, START)) is Some && exists|
        k: nat,
    |
        1 <= k <= step_limit(g) && #[trigger] home_at(g, first_walker(g), k) {
        Some(choose|k: nat| 1 <= k <= step_limit(g) && #[trigger] home_at(g, first_walker(g), k))
    } else {
        None
    }
}

/// The walker comes home once.
pub proof fn lemma_home_once(g: Cells, from: Walker, a: nat, b: nat)
    requires
        rectangular(g),
        home_at(g, from, a),
        home_at(g, from, b),
    ensures
        a == b,
{
    if a < b {
        assert(walker_after(g, from, a) is None);
        lemma_stays_lost(g, from, a, (b - 1) as nat);
    }
    if b < a {
        assert(walker_after(g, from, b) is None);
        lemma_stays_lost(g, from, b, (a - 1) as nat);
    }
}

/// The tiles that the walker of `g` treads before step `k`.
pub open spec fn loop_tiles(g: Cells, k: nat) -> Seq<Seq<bool>> {
    Seq::new(
        g.len(),
        |y: int|
            Seq::new(
                g[0].len(),
                |x: int| trodden(g, first_walker(g), Coordinate { x: x as usize, y: y as usize }, k),
            ),
    )
}

/// The loop of the field written in `bytes`: the number of the step that
/// brings the walker home, the tiles trodden, and the field.
pub fn find_loop(bytes: &[u8]) -> (r: Option<(u64, Vec<Vec<bool>>, Grid)>)
    ensures
        match r {
            Some((k, marks, grid)) => home_step(lines_of(bytes@)) == Some(k as nat) && grid@
                == lines_of(bytes@) && marks_view(&marks) == loop_tiles(grid@, k as nat) && k <= 4
                * 65535 * 65535,
            None => home_step(lines_of(bytes@)) is None,
        },
{
    let grid = match Grid::from_rows(split_lines(bytes)) {
        Ok(g) => g,
        Err(_) => {
            return None;
        },
    };
    let start = match grid.find_first(START) {
        Some(s) => s,
        None => {
            return None;
        },
    };
    let ghost g = grid@;
    assert(cell_at(g, start.x as int, start.y as int) == START);
    proof {
        use_type_invariant(&grid);
        grid.lemma_rectangular();
        assert(4 * width_of(g) * height_of(g) <= 4 * 65535 * 65535) by (nonlinear_arith)
            requires
                0 <= width_of(g) <= 65535,
                0 <= height_of(g) <= 65535,
        ;
    }
    match walk_loop(&grid, start) {
        Some((k, marks)) => {
            proof {
                let c = choose|c: nat|
                    1 <= c <= step_limit(g) && #[trigger] home_at(g, first_walker(g), c);
                lemma_home_once(g, first_walker(g), k as nat, c);
                assert(marks_view(&marks) =~= loop_tiles(g, k as nat)) by {
                    assert forall|y: int| 0 <= y < g.len() implies marks_view(&marks)[y] =~= loop_tiles(
                        g,
                        k as nat,
                    )[y] by {
                        assert(marks_view(&marks)[y].len() == width_of(g));
                        assert forall|x: int| 0 <= x < g[0].len() implies marks_view(&marks)[y][x]
                            == loop_tiles(g, k as nat)[y][x] by {
                            assert(in_bounds(g, x, y));
                        }
                    }
                }
            }
            Some((k, marks, grid))
        },
        None => None,
    }
}

/// The number of steps to the tile of the loop farthest from the start:
/// half the length of the loop, cut to 32 bits.
pub fn part_one(input: &str) -> (r: Option<u32>)
    ensures
        r == match home_step(lines_of(input.spec_bytes())) {
            Some(k) => Some(((k / 2) % 0x1_0000_0000) as u32),
            None => None,
        },
{
    match find_loop(input.as_bytes()) {
        Some((k, _, _)) => Some(((k / 2) % 0x1_0000_0000) as u32),
        None => None,
    }
}

/// The number of tiles enclosed by the loop.
pub fn part_two(input: &str) -> (r: Option<u64>)
    ensures
        r == match home_step(lines_of(input.spec_bytes())) {
            Some(k) => Some(
                enclosed(
                    lines_of(input.spec_bytes()),
                    loop_tiles(lines_of(input.spec_bytes()), k),
                    height_of(lines_of(input.spec_bytes())),
                ) as u64,
            ),
            None => None,
        },
{
    match find_loop(input.as_bytes()) {
        Some((_, marks, grid)) => Some(count_enclosed(&grid, &marks)),
        None => None,
    }
}

} // verus!
