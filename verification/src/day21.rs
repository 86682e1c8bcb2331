//! Step counter: which garden plots an elf can stand on after a given
//! number of steps.

use crate::grid::{
    cell_at, count_cells, count_in_row, count_in_rows, first_cell, height_of, in_bounds, lacks,
    lemma_count_cells, passable, rectangular, width_of, Cells, Coordinate, Direction, Grid, WALL,
};
use crate::text::{lines_of, split_lines};
use crate::walks::{free_walk, steps_to, walk_step};
use vstd::prelude::*;
use vstd::string::StringSliceAdditionalSpecFns;

verus! {

/// A position that may lie off the grid: column `x`, row `y`.
#[derive(Clone, Copy, Debug, PartialEq, Eq, Structural, Hash)]
pub struct Coords {
    pub x: isize,
    pub y: isize,
}

/// The byte that marks the starting plot.
pub const START: u8 = 83;

/// The number of steps asked for on the bounded map.
pub const STEPS: usize = 64;

/// `coords` moved back onto a map `w` wide and `h` high by one map width
/// or height: a position up to one map length off the map lands on it.
pub open spec fn wrapped(w: int, h: int, coords: Coords) -> Coords {
    Coords {
        x: (if coords.x < 0 {
            coords.x + w
        } else if coords.x >= w {
            coords.x - w
        } else {
            coords.x as int
        }) as isize,
        y: (if coords.y < 0 {
            coords.y + h
        } else if coords.y >= h {
            coords.y - h
        } else {
            coords.y as int
        }) as isize,
    }
}

/// The plots next to `location` in the first `upto` directions that can
/// be stepped on, each moved back onto the map first where `wrap` is set.
pub open spec fn adjacent_upto(g: Cells, location: Coords, wrap: bool, upto: int) -> Seq<Coords>
    decreases upto,
{
    if upto <= 0 {
        Seq::empty()
    } else {
        let before = adjacent_upto(g, location, wrap, upto - 1);
        let d = Direction::spec_from_index(upto - 1);
        let moved = Coords { x: (location.x + d.dx()) as isize, y: (location.y + d.dy()) as isize };
        let target = if wrap {
            wrapped(width_of(g), height_of(g), moved)
        } else {
            moved
        };
        if passable(g, target.x as int, target.y as int) {
            before.push(target)
        } else {
            before
        }
    }
}

impl Coords {
    /// The position at column `x`, row `y`.
    pub fn new(x: isize, y: isize) -> (c: Coords)
        ensures
            c.x == x,
            c.y == y,
    {
        Coords { x, y }
    }

    /// The sum of two displacements.
    pub fn add(self, rhs: Coords) -> (c: Coords)
        requires
            isize::MIN <= self.x + rhs.x <= isize::MAX,
            isize::MIN <= self.y + rhs.y <= isize::MAX,
        ensures
            c.x == self.x + rhs.x,
            c.y == self.y + rhs.y,
    {
        Coords { x: self.x + rhs.x, y: self.y + rhs.y }
    }
}

impl Grid {
    /// The first plot holding `char_to_find` when the map is read row by
    /// row.
    pub fn get_coords(&self, char_to_find: u8) -> (r: Option<Coords>)
        ensures
            match r {
                Some(c) => !lacks(self@, char_to_find) && c.x == first_cell(self@, char_to_find).x
                    && c.y == first_cell(self@, char_to_find).y,
                None => lacks(self@, char_to_find),
            },
    {
        match self.find_first(char_to_find) {
            Some(c) => {
                let w = self.width();
                let h = self.height();
                assert(cell_at(self@, c.x as int, c.y as int) == char_to_find);
                Some(Coords { x: c.x as isize, y: c.y as isize })
            },
            None => None,
        }
    }

    /// Number of columns.
    pub fn get_max_x(&self) -> (r: isize)
        ensures
            r == width_of(self@),
            1 <= r <= 65535,
    {
        self.width() as isize
    }

    /// Number of rows.
    pub fn get_max_y(&self) -> (r: isize)
        ensures
            r == height_of(self@),
            1 <= r <= 65535,
    {
        self.height() as isize
    }

    /// Whether `coords` is a plot of the map that can be stepped on.
    pub fn check_valid(&self, coords: Coords) -> (r: bool)
        ensures
            r == passable(self@, coords.x as int, coords.y as int),
    {
        if coords.x >= 0 && coords.y >= 0 && coords.x < self.get_max_x() && coords.y
            < self.get_max_y() {
            let c = Coordinate { x: coords.x as usize, y: coords.y as usize };
            match self.get(c) {
                Some(b) => b != WALL,
                None => false,
            }
        } else {
            false
        }
    }

    /// `coords` moved back onto the map by one map width or height.
    pub fn wrap(&self, coords: Coords) -> (r: Coords)
        ensures
            r == wrapped(width_of(self@), height_of(self@), coords),
    {
        let max_x = self.get_max_x();
        let new_x = if coords.x < 0 {
            coords.x + max_x
        } else if coords.x >= max_x {
            coords.x - max_x
        } else {
            coords.x
        };
        let max_y = self.get_max_y();
        let new_y = if coords.y < 0 {
            coords.y + max_y
        } else if coords.y >= max_y {
            coords.y - max_y
        } else {
            coords.y
        };
        Coords::new(new_x, new_y)
    }

    /// The plots next to `location` that can be stepped on, in the order
    /// north, east, south, west; where `wrap` is set, a neighbour off the
    /// map counts as the plot it lands on when moved back by one map
    /// length.
    pub fn get_adjacent(&self, location: Coords, wrap: bool) -> (r: Vec<Coords>)
        requires
            isize::MIN < location.x < isize::MAX,
            isize::MIN < location.y < isize::MAX,
        ensures
            r@ == adjacent_upto(self@, location, wrap, 4),
    {
        let mut out: Vec<Coords> = Vec::new();
        let mut i: usize = 0;
        while i < 4
            invariant
                i <= 4,
                isize::MIN < location.x < isize::MAX,
                isize::MIN < location.y < isize::MAX,
                out@ == adjacent_upto(self@, location, wrap, i as int),
            decreases 4 - i,
        {
            let d = Direction::from_index(i);
            let offset = match d {
                Direction::North => Coords::new(0, -1),
                Direction::East => Coords::new(1, 0),
                Direction::South => Coords::new(0, 1),
                Direction::West => Coords::new(-1, 0),
            };
            let moved = location.add(offset);
            let target = if wrap {
                self.wrap(moved)
            } else {
                moved
            };
            if self.check_valid(target) {
                out.push(target);
            }
            i += 1;
        }
        out
    }
}

/// Some walk of exactly `k` steps leads from `s` to `c`.
pub open spec fn reached_in(g: Cells, s: Coordinate, c: Coordinate, k: int) -> bool {
    exists|w: Seq<Coordinate>| #[trigger] free_walk(g, s, w) && w.len() == k + 1 && w.last() == c
}

/// `k` is the least number of steps in which `c` is reached from `s`.
pub open spec fn nearest(g: Cells, s: Coordinate, c: Coordinate, k: int) -> bool {
    reached_in(g, s, c, k) && forall|j: int| 0 <= j < k ==> !#[trigger] reached_in(g, s, c, j)
}

/// Whether `marks` has the shape of `g`.
pub open spec fn shaped_like<T>(g: Cells, marks: Seq<Seq<T>>) -> bool {
    &&& marks.len() == height_of(g)
    &&& forall|y: int| 0 <= y < marks.len() ==> (#[trigger] marks[y]).len() == width_of(g)
}

/// Whether the plot at `c` can be stepped on and lies next to a marked
/// plot.
pub open spec fn fed(g: Cells, marks: Seq<Seq<bool>>, c: Coordinate) -> bool {
    passable(g, c.x as int, c.y as int) && exists|d: Direction|
        in_bounds(g, c.x + d.dx(), c.y + d.dy()) && #[trigger] marks[c.y + d.dy()][c.x + d.dx()]
}

/// A walk of `k + 1` steps ends with a step from a plot reached in `k`
/// steps, and the other way round.
pub proof fn lemma_reach_step(g: Cells, s: Coordinate, c: Coordinate, k: int)
    requires
        rectangular(g),
        k >= 0,
        passable(g, s.x as int, s.y as int),
        in_bounds(g, c.x as int, c.y as int),
    ensures
        reached_in(g, s, c, k + 1) <==> passable(g, c.x as int, c.y as int) && exists|
            d: Direction,
        |
            in_bounds(g, c.x + d.dx(), c.y + d.dy()) && #[trigger] reached_in(
                g,
                s,
                Coordinate { x: (c.x + d.dx()) as usize, y: (c.y + d.dy()) as usize },
                k,
            ),
{
    if reached_in(g, s, c, k + 1) {
        let w = choose|w: Seq<Coordinate>| #[trigger]
            free_walk(g, s, w) && w.len() == k + 2 && w.last() == c;
        let pre = w.drop_last();
        let n = pre.last();
        assert(walk_step(g, w[k], w[k + 1]));
        let d = choose|d: Direction| #[trigger] steps_to(n, d, c);
        assert forall|i: int| 1 <= i < pre.len() implies walk_step(g, pre[i - 1], #[trigger] pre[i]) by {
            assert(walk_step(g, w[i - 1], w[i]));
        }
        assert(free_walk(g, s, pre) && pre.len() == k + 1 && pre.last() == n);
        assert(in_bounds(g, n.x as int, n.y as int)) by {
            if k >= 1 {
                assert(walk_step(g, w[k - 1], w[k]));
            }
        }
        let back = d.spec_opposite();
        assert(Coordinate { x: (c.x + back.dx()) as usize, y: (c.y + back.dy()) as usize } == n);
        assert(reached_in(
            g,
            s,
            Coordinate { x: (c.x + back.dx()) as usize, y: (c.y + back.dy()) as usize },
            k,
        ));
    }
    if passable(g, c.x as int, c.y as int) && exists|d: Direction|
        in_bounds(g, c.x + d.dx(), c.y + d.dy()) && #[trigger] reached_in(
            g,
            s,
            Coordinate { x: (c.x + d.dx()) as usize, y: (c.y + d.dy()) as usize },
            k,
        ) {
        let d = choose|d: Direction|
            in_bounds(g, c.x + d.dx(), c.y + d.dy()) && #[trigger] reached_in(
                g,
                s,
                Coordinate { x: (c.x + d.dx()) as usize, y: (c.y + d.dy()) as usize },
                k,
            );
        let n = Coordinate { x: (c.x + d.dx()) as usize, y: (c.y + d.dy()) as usize };
        let pre = choose|w: Seq<Coordinate>| #[trigger]
            free_walk(g, s, w) && w.len() == k + 1 && w.last() == n;
        let w = pre.push(c);
        assert(steps_to(n, d.spec_opposite(), c));
        assert forall|i: int| 1 <= i < w.len() implies walk_step(g, w[i - 1], #[trigger] w[i]) by {
            if i < pre.len() {
                assert(walk_step(g, pre[i - 1], pre[i]));
            }
        }
        assert(free_walk(g, s, w) && w.len() == k + 2 && w.last() == c);
    }
}

/// Only the start is reached in no step.
pub proof fn lemma_reach_zero(g: Cells, s: Coordinate, c: Coordinate)
    requires
        in_bounds(g, s.x as int, s.y as int),
    ensures
        reached_in(g, s, c, 0) <==> c == s,
{
    if c == s {
        let w = seq![s];
        assert(free_walk(g, s, w) && w.len() == 1 && w.last() == c);
    }
}

/// Whether a marked plot lies next to `c`.
fn beside_marked(grid: &Grid, marks: &Vec<Vec<bool>>, c: Coordinate) -> (r: bool)
    requires
        shaped_like(grid@, marks.deep_view()),
    ensures
        r == exists|d: Direction|
            in_bounds(grid@, c.x + d.dx(), c.y + d.dy()) && #[trigger] marks.deep_view()[c.y
                + d.dy()][c.x + d.dx()],
{
    let mut i: usize = 0;
    while i < 4
        invariant
            i <= 4,
            shaped_like(grid@, marks.deep_view()),
            forall|d: Direction|
                d.spec_index() < i ==> !(in_bounds(grid@, c.x + d.dx(), c.y + d.dy())
                    && #[trigger] marks.deep_view()[c.y + d.dy()][c.x + d.dx()]),
        decreases 4 - i,
    {
        let d = Direction::from_index(i);
        match grid.neighbor(c, d) {
            Some(n) => {
                assert(marks.deep_view()[n.y as int].len() == width_of(grid@));
                assert(marks.deep_view()[n.y as int] =~= marks@[n.y as int]@);
                if marks[n.y][n.x] {
                    assert(marks.deep_view()[c.y + d.dy()][c.x + d.dx()]);
                    return true;
                }
            },
            None => {},
        }
        proof {
            assert forall|e: Direction| e.spec_index() < i + 1 implies !(in_bounds(
                grid@,
                c.x + e.dx(),
                c.y + e.dy(),
            ) && #[trigger] marks.deep_view()[c.y + e.dy()][c.x + e.dx()]) by {
                if e.spec_index() == i {
                    assert(e == d);
                }
            }
        }
        i += 1;
    }
    false
}

/// The plots that can be stepped on and lie next to a marked plot.
pub fn advance(grid: &Grid, marks: &Vec<Vec<bool>>) -> (next: Vec<Vec<bool>>)
    requires
        shaped_like(grid@, marks.deep_view()),
    ensures
        shaped_like(grid@, next.deep_view()),
        forall|x: int, y: int|
            in_bounds(grid@, x, y) ==> #[trigger] next.deep_view()[y][x] == fed(
                grid@,
                marks.deep_view(),
                Coordinate { x: x as usize, y: y as usize },
            ),
{
    let w = grid.width();
    let h = grid.height();
    let mut next: Vec<Vec<bool>> = Vec::new();
    let mut y: usize = 0;
    while y < h
        invariant
            y <= h,
            w == width_of(grid@),
            h == height_of(grid@),
            shaped_like(grid@, marks.deep_view()),
            next@.len() == y,
            forall|j: int| 0 <= j < y ==> (#[trigger] next@[j])@.len() == w,
            forall|i: int, j: int|
                0 <= i < w && 0 <= j < y ==> #[trigger] next@[j]@[i] == fed(
                    grid@,
                    marks.deep_view(),
                    Coordinate { x: i as usize, y: j as usize },
                ),
        decreases h - y,
    {
        let mut row: Vec<bool> = Vec::new();
        let mut x: usize = 0;
        while x < w
            invariant
                x <= w,
                y < h,
                w == width_of(grid@),
                h == height_of(grid@),
                shaped_like(grid@, marks.deep_view()),
                row@.len() == x,
                forall|i: int|
                    0 <= i < x ==> #[trigger] row@[i] == fed(
                        grid@,
                        marks.deep_view(),
                        Coordinate { x: i as usize, y },
                    ),
            decreases w - x,
        {
            let c = Coordinate { x, y };
            let lit = grid.is_passable(c) && beside_marked(grid, marks, c);
            row.push(lit);
            x += 1;
        }
        next.push(row);
        y += 1;
    }
    proof {
        assert forall|j: int| 0 <= j < next.deep_view().len() implies (#[trigger] next.deep_view()[j]).len()
            == w by {
            assert(next.deep_view()[j] =~= next@[j]@);
        }
        assert forall|i: int, j: int| in_bounds(grid@, i, j) implies #[trigger] next.deep_view()[j][i]
            == fed(grid@, marks.deep_view(), Coordinate { x: i as usize, y: j as usize }) by {
            assert(next.deep_view()[j] =~= next@[j]@);
            assert(next@[j]@[i] == fed(
                grid@,
                marks.deep_view(),
                Coordinate { x: i as usize, y: j as usize },
            ));
        }
    }
    next
}

/// Marks with only the plot at `start` set.
pub fn only_start(grid: &Grid, start: Coordinate) -> (marks: Vec<Vec<bool>>)
    ensures
        shaped_like(grid@, marks.deep_view()),
        forall|x: int, y: int|
            in_bounds(grid@, x, y) ==> #[trigger] marks.deep_view()[y][x] == (x == start.x && y
                == start.y),
{
    let w = grid.width();
    let h = grid.height();
    let mut marks: Vec<Vec<bool>> = Vec::new();
    let mut y: usize = 0;
    while y < h
        invariant
            y <= h,
            w == width_of(grid@),
            h == height_of(grid@),
            marks@.len() == y,
            forall|j: int| 0 <= j < y ==> (#[trigger] marks@[j])@.len() == w,
            forall|i: int, j: int|
                0 <= i < w && 0 <= j < y ==> #[trigger] marks@[j]@[i] == (i == start.x && j
                    == start.y),
        decreases h - y,
    {
        let mut row: Vec<bool> = Vec::new();
        let mut x: usize = 0;
        while x < w
            invariant
                x <= w,
                row@.len() == x,
                forall|i: int| 0 <= i < x ==> #[trigger] row@[i] == (i == start.x && y == start.y),
            decreases w - x,
        {
            row.push(x == start.x && y == start.y);
            x += 1;
        }
        marks.push(row);
        y += 1;
    }
    proof {
        assert forall|j: int| 0 <= j < marks.deep_view().len() implies (
        #[trigger] marks.deep_view()[j]).len() == w by {
            assert(marks.deep_view()[j] =~= marks@[j]@);
        }
        assert forall|i: int, j: int| in_bounds(grid@, i, j) implies #[trigger] marks.deep_view()[j][i]
            == (i == start.x && j == start.y) by {
            assert(marks.deep_view()[j] =~= marks@[j]@);
            assert(marks@[j]@[i] == (i == start.x && j == start.y));
        }
    }
    marks
}

/// Number of marked plots.
fn count_marked(grid: &Grid, marks: &Vec<Vec<bool>>, Ghost(pred): Ghost<
    spec_fn(Coordinate) -> bool,
>) -> (n: u64)
    requires
        shaped_like(grid@, marks.deep_view()),
        forall|x: int, y: int|
            in_bounds(grid@, x, y) ==> #[trigger] marks.deep_view()[y][x] == pred(
                Coordinate { x: x as usize, y: y as usize },
            ),
    ensures
        n == count_cells(grid@, pred),
{
    let w = grid.width();
    let h = grid.height();
    proof {
        use_type_invariant(grid);
        grid.lemma_rectangular();
    }
    let mut total: u64 = 0;
    let mut y: usize = 0;
    while y < h
        invariant
            y <= h,
            w == width_of(grid@),
            h == height_of(grid@),
            rectangular(grid@),
            shaped_like(grid@, marks.deep_view()),
            forall|i: int, j: int|
                in_bounds(grid@, i, j) ==> #[trigger] marks.deep_view()[j][i] == pred(
                    Coordinate { x: i as usize, y: j as usize },
                ),
            total == count_in_rows(pred, w as int, y as int),
        decreases h - y,
    {
        let mut row: u64 = 0;
        let mut x: usize = 0;
        let line = &marks[y];
        assert(marks.deep_view()[y as int] =~= line@);
        assert(marks.deep_view()[y as int].len() == w);
        while x < w
            invariant
                x <= w,
                y < h,
                w == width_of(grid@),
                h == height_of(grid@),
                line@.len() == w,
                marks.deep_view()[y as int] == line@,
                forall|i: int, j: int|
                    in_bounds(grid@, i, j) ==> #[trigger] marks.deep_view()[j][i] == pred(
                        Coordinate { x: i as usize, y: j as usize },
                    ),
                row == count_in_row(pred, y as int, x as int),
                row <= x,
            decreases w - x,
        {
            assert(in_bounds(grid@, x as int, y as int));
            assert(marks.deep_view()[y as int][x as int] == pred(Coordinate { x, y }));
            if line[x] {
                row += 1;
            }
            x += 1;
        }
        proof {
            lemma_count_cells(grid@, pred, y as int);
            lemma_count_cells(grid@, pred, y as int + 1);
        }
        total = total + row;
        y += 1;
    }
    total
}

/// The plots of `g` reached from `s` in exactly `k` steps.
pub open spec fn reached_plots(g: Cells, s: Coordinate, k: int) -> spec_fn(Coordinate) -> bool {
    |c: Coordinate| reached_in(g, s, c, k)
}

/// The number of plots that an elf who starts at `start` can stand on
/// after exactly `steps` steps.
pub fn plots_after(grid: &Grid, start: Coordinate, steps: usize) -> (n: u64)
    requires
        passable(grid@, start.x as int, start.y as int),
    ensures
        n == count_cells(grid@, reached_plots(grid@, start, steps as int)),
{
    proof {
        use_type_invariant(grid);
        grid.lemma_rectangular();
    }
    let mut marks = only_start(grid, start);
    proof {
        assert forall|x: int, y: int| in_bounds(grid@, x, y) implies #[trigger] marks.deep_view()[y][x]
            == reached_in(grid@, start, Coordinate { x: x as usize, y: y as usize }, 0) by {
            lemma_reach_zero(grid@, start, Coordinate { x: x as usize, y: y as usize });
        }
    }
    let mut k: usize = 0;
    while k < steps
        invariant
            k <= steps,
            rectangular(grid@),
            passable(grid@, start.x as int, start.y as int),
            shaped_like(grid@, marks.deep_view()),
            forall|x: int, y: int|
                in_bounds(grid@, x, y) ==> #[trigger] marks.deep_view()[y][x] == reached_in(
                    grid@,
                    start,
                    Coordinate { x: x as usize, y: y as usize },
                    k as int,
                ),
        decreases steps - k,
    {
        let next = advance(grid, &marks);
        proof {
            let old_marks = marks.deep_view();
            assert forall|x: int, y: int| in_bounds(grid@, x, y) implies #[trigger] next.deep_view()[y][x]
                == reached_in(grid@, start, Coordinate { x: x as usize, y: y as usize }, k + 1) by {
                let c = Coordinate { x: x as usize, y: y as usize };
                lemma_reach_step(grid@, start, c, k as int);
                assert(next.deep_view()[y][x] == fed(grid@, old_marks, c));
                if fed(grid@, old_marks, c) {
                    let d = choose|d: Direction|
                        in_bounds(grid@, c.x + d.dx(), c.y + d.dy()) && #[trigger] old_marks[c.y
                            + d.dy()][c.x + d.dx()];
                    assert(reached_in(
                        grid@,
                        start,
                        Coordinate { x: (c.x + d.dx()) as usize, y: (c.y + d.dy()) as usize },
                        k as int,
                    ));
                }
                if reached_in(grid@, start, c, k + 1) {
                    let d = choose|d: Direction|
                        in_bounds(grid@, c.x + d.dx(), c.y + d.dy()) && #[trigger] reached_in(
                            grid@,
                            start,
                            Coordinate { x: (c.x + d.dx()) as usize, y: (c.y + d.dy()) as usize },
                            k as int,
                        );
                    assert(old_marks[c.y + d.dy()][c.x + d.dx()]);
                }
            }
        }
        marks = next;
        k += 1;
    }
    count_marked(grid, &marks, Ghost(reached_plots(grid@, start, steps as int)))
}

/// What the walk on the bounded map written in `text` may yield: the
/// number of plots reached in exactly `steps` steps from the first plot
/// marked as start, or nothing where the text is no rectangle or marks no
/// start.
pub open spec fn strolling(text: Seq<u8>, steps: int, r: Option<u64>) -> bool {
    let g = lines_of(text);
    match r {
        Some(n) => rectangular(g) && !lacks(g, START) && n == count_cells(
            g,
            reached_plots(g, first_cell(g, START), steps),
        ),
        None => !rectangular(g) || lacks(g, START),
    }
}

/// The number of plots the elf can stand on after exactly 64 steps.
pub fn part_one(input: &str) -> (r: Option<u64>)
    ensures
        strolling(input.spec_bytes(), STEPS as int, r),
{
    match Grid::from_rows(split_lines(input.as_bytes())) {
        Err(_) => None,
        Ok(grid) => {
            match grid.find_first(START) {
                None => None,
                Some(start) => {
                    assert(cell_at(grid@, start.x as int, start.y as int) == START);
                    Some(plots_after(&grid, start, STEPS))
                },
            }
        },
    }
}

/// No walk of `k` or fewer steps leads from `s` to `c`.
pub open spec fn out_of_reach(g: Cells, s: Coordinate, c: Coordinate, k: int) -> bool {
    forall|j: int| 0 <= j <= k ==> !#[trigger] reached_in(g, s, c, j)
}

/// Whether `entry` is the least number of steps up to `k` in which `c` is
/// reached from `s`, or nothing where `c` is not reached within `k`
/// steps.
pub open spec fn entry_ok(g: Cells, s: Coordinate, c: Coordinate, entry: Option<u64>, k: int) -> bool {
    match entry {
        Some(v) => v <= k && nearest(g, s, c, v as int),
        None => out_of_reach(g, s, c, k),
    }
}

/// Whether `table` holds, for every plot, the least number of steps up to
/// `k` in which it is reached from `s`, and nothing for the plots not
/// reached within `k` steps.
pub open spec fn distances_upto(g: Cells, s: Coordinate, table: Seq<Seq<Option<u64>>>, k: int) -> bool {
    &&& shaped_like(g, table)
    &&& forall|x: int, y: int|
        in_bounds(g, x, y) ==> entry_ok(
            g,
            s,
            Coordinate { x: x as usize, y: y as usize },
            #[trigger] table[y][x],
            k,
        )
}

/// Whether the plot at `c` lies next to a plot that `table` puts at
/// `at` steps.
pub open spec fn beside_distance(g: Cells, table: Seq<Seq<Option<u64>>>, c: Coordinate, at: u64) -> bool {
    exists|d: Direction|
        in_bounds(g, c.x + d.dx(), c.y + d.dy()) && #[trigger] table[c.y + d.dy()][c.x + d.dx()]
            == Some(at)
}

/// What `table` holds for the plot at `c` after the round for `step`
/// steps: what it held, or `step` for a plot that can be stepped on, had
/// no entry, and lies next to a plot at `step - 1`.
pub open spec fn relaxed(g: Cells, table: Seq<Seq<Option<u64>>>, c: Coordinate, step: u64) -> Option<
    u64,
> {
    let old = table[c.y as int][c.x as int];
    if old is Some {
        old
    } else if passable(g, c.x as int, c.y as int) && beside_distance(
        g,
        table,
        c,
        (step - 1) as u64,
    ) {
        Some(step)
    } else {
        None
    }
}

/// Whether a plot at `at` steps lies next to `c`.
fn beside(grid: &Grid, table: &Vec<Vec<Option<u64>>>, c: Coordinate, at: u64) -> (r: bool)
    requires
        shaped_like(grid@, table.deep_view()),
    ensures
        r == beside_distance(grid@, table.deep_view(), c, at),
{
    let mut i: usize = 0;
    while i < 4
        invariant
            i <= 4,
            shaped_like(grid@, table.deep_view()),
            forall|d: Direction|
                d.spec_index() < i ==> !(in_bounds(grid@, c.x + d.dx(), c.y + d.dy())
                    && #[trigger] table.deep_view()[c.y + d.dy()][c.x + d.dx()] == Some(at)),
        decreases 4 - i,
    {
        let d = Direction::from_index(i);
        match grid.neighbor(c, d) {
            Some(n) => {
                assert(table.deep_view()[n.y as int].len() == width_of(grid@));
                assert(table.deep_view()[n.y as int] =~= table@[n.y as int].deep_view());
                let hit = match table[n.y][n.x] {
                    Some(v) => v == at,
                    None => false,
                };
                assert(hit == (table.deep_view()[n.y as int][n.x as int] == Some(at)));
                if hit {
                    assert(table.deep_view()[c.y + d.dy()][c.x + d.dx()] == Some(at));
                    return true;
                }
            },
            None => {},
        }
        proof {
            assert forall|e: Direction| e.spec_index() < i + 1 implies !(in_bounds(
                grid@,
                c.x + e.dx(),
                c.y + e.dy(),
            ) && #[trigger] table.deep_view()[c.y + e.dy()][c.x + e.dx()] == Some(at)) by {
                if e.spec_index() == i {
                    assert(e == d);
                }
            }
        }
        i += 1;
    }
    false
}

/// One round of the flood: every plot without an entry that can be
/// stepped on and lies next to a plot at `step - 1` steps gets `step`.
pub fn relax(grid: &Grid, table: &Vec<Vec<Option<u64>>>, step: u64) -> (next: Vec<Vec<Option<u64>>>)
    requires
        shaped_like(grid@, table.deep_view()),
        step >= 1,
    ensures
        shaped_like(grid@, next.deep_view()),
        forall|x: int, y: int|
            in_bounds(grid@, x, y) ==> #[trigger] next.deep_view()[y][x] == relaxed(
                grid@,
                table.deep_view(),
                Coordinate { x: x as usize, y: y as usize },
                step,
            ),
{
    let w = grid.width();
    let h = grid.height();
    let mut next: Vec<Vec<Option<u64>>> = Vec::new();
    let mut y: usize = 0;
    while y < h
        invariant
            y <= h,
            step >= 1,
            w == width_of(grid@),
            h == height_of(grid@),
            shaped_like(grid@, table.deep_view()),
            next@.len() == y,
            forall|j: int| 0 <= j < y ==> (#[trigger] next@[j])@.len() == w,
            forall|i: int, j: int|
                0 <= i < w && 0 <= j < y ==> #[trigger] next@[j]@[i] == relaxed(
                    grid@,
                    table.deep_view(),
                    Coordinate { x: i as usize, y: j as usize },
                    step,
                ),
        decreases h - y,
    {
        let mut row: Vec<Option<u64>> = Vec::new();
        let mut x: usize = 0;
        let line = &table[y];
        assert(table.deep_view()[y as int] =~= line.deep_view());
        assert(table.deep_view()[y as int].len() == w);
        while x < w
            invariant
                x <= w,
                y < h,
                step >= 1,
                w == width_of(grid@),
                h == height_of(grid@),
                shaped_like(grid@, table.deep_view()),
                line@.len() == w,
                table.deep_view()[y as int] == line.deep_view(),
                row@.len() == x,
                forall|i: int|
                    0 <= i < x ==> #[trigger] row@[i] == relaxed(
                        grid@,
                        table.deep_view(),
                        Coordinate { x: i as usize, y },
                        step,
                    ),
            decreases w - x,
        {
            let c = Coordinate { x, y };
            let old = line[x];
            assert(old == table.deep_view()[y as int][x as int]);
            let entry = if old.is_some() {
                old
            } else if grid.is_passable(c) && beside(grid, table, c, step - 1) {
                Some(step)
            } else {
                None
            };
            row.push(entry);
            x += 1;
        }
        next.push(row);
        y += 1;
    }
    proof {
        assert forall|j: int| 0 <= j < next.deep_view().len() implies (#[trigger] next.deep_view()[j]).len()
            == w by {
            assert(next.deep_view()[j] =~= next@[j].deep_view());
        }
        assert forall|i: int, j: int| in_bounds(grid@, i, j) implies #[trigger] next.deep_view()[j][i]
            == relaxed(grid@, table.deep_view(), Coordinate { x: i as usize, y: j as usize }, step) by {
            assert(next.deep_view()[j] =~= next@[j].deep_view());
            assert(next@[j]@[i] == relaxed(
                grid@,
                table.deep_view(),
                Coordinate { x: i as usize, y: j as usize },
                step,
            ));
        }
    }
    next
}

/// A round of the flood turns the least step counts up to `step - 1`
/// into the least step counts up to `step`.
pub proof fn lemma_relax_ok(
    g: Cells,
    s: Coordinate,
    table: Seq<Seq<Option<u64>>>,
    next: Seq<Seq<Option<u64>>>,
    step: u64,
)
    requires
        rectangular(g),
        passable(g, s.x as int, s.y as int),
        step >= 1,
        distances_upto(g, s, table, step - 1),
        shaped_like(g, next),
        forall|x: int, y: int|
            in_bounds(g, x, y) ==> #[trigger] next[y][x] == relaxed(
                g,
                table,
                Coordinate { x: x as usize, y: y as usize },
                step,
            ),
    ensures
        distances_upto(g, s, next, step as int),
{
    assert forall|x: int, y: int| in_bounds(g, x, y) implies entry_ok(
        g,
        s,
        Coordinate { x: x as usize, y: y as usize },
        #[trigger] next[y][x],
        step as int,
    ) by {
        let c = Coordinate { x: x as usize, y: y as usize };
        let old = table[y][x];
        assert(entry_ok(g, s, c, old, step - 1));
        assert(next[y][x] == relaxed(g, table, c, step));
        lemma_reach_step(g, s, c, step - 1);
        if old is Some {
        } else if passable(g, x, y) && beside_distance(g, table, c, (step - 1) as u64) {
            let d = choose|d: Direction|
                in_bounds(g, c.x + d.dx(), c.y + d.dy()) && #[trigger] table[c.y + d.dy()][c.x
                    + d.dx()] == Some((step - 1) as u64);
            let n = Coordinate { x: (c.x + d.dx()) as usize, y: (c.y + d.dy()) as usize };
            assert(entry_ok(g, s, n, table[n.y as int][n.x as int], step - 1));
            assert(reached_in(g, s, n, step - 1));
            assert(reached_in(g, s, c, step as int));
        } else {
            if reached_in(g, s, c, step as int) {
                let d = choose|d: Direction|
                    in_bounds(g, c.x + d.dx(), c.y + d.dy()) && #[trigger] reached_in(
                        g,
                        s,
                        Coordinate { x: (c.x + d.dx()) as usize, y: (c.y + d.dy()) as usize },
                        step - 1,
                    );
                let n = Coordinate { x: (c.x + d.dx()) as usize, y: (c.y + d.dy()) as usize };
                let e = table[n.y as int][n.x as int];
                assert(entry_ok(g, s, n, e, step - 1));
                assert(e is Some);
                let v = e->Some_0;
                if v < step - 1 {
                    lemma_reach_step(g, s, c, v as int);
                    assert(reached_in(g, s, n, v as int));
                    assert(reached_in(g, s, c, v + 1));
                }
                assert(table[c.y + d.dy()][c.x + d.dx()] == Some((step - 1) as u64));
                assert(false);
            }
        }
    }
}

/// A table with zero steps for the plot at `start` and nothing elsewhere.
pub fn start_table(grid: &Grid, start: Coordinate) -> (table: Vec<Vec<Option<u64>>>)
    requires
        in_bounds(grid@, start.x as int, start.y as int),
    ensures
        distances_upto(grid@, start, table.deep_view(), 0),
{
    let w = grid.width();
    let h = grid.height();
    let mut table: Vec<Vec<Option<u64>>> = Vec::new();
    let mut y: usize = 0;
    while y < h
        invariant
            y <= h,
            w == width_of(grid@),
            h == height_of(grid@),
            table@.len() == y,
            forall|j: int| 0 <= j < y ==> (#[trigger] table@[j])@.len() == w,
            forall|i: int, j: int|
                0 <= i < w && 0 <= j < y ==> #[trigger] table@[j]@[i] == if i == start.x && j
                    == start.y {
                    Some(0u64)
                } else {
                    None
                },
        decreases h - y,
    {
        let mut row: Vec<Option<u64>> = Vec::new();
        let mut x: usize = 0;
        while x < w
            invariant
                x <= w,
                row@.len() == x,
                forall|i: int|
                    0 <= i < x ==> #[trigger] row@[i] == if i == start.x && y == start.y {
                        Some(0u64)
                    } else {
                        None
                    },
            decreases w - x,
        {
            let entry: Option<u64> = if x == start.x && y == start.y {
                Some(0)
            } else {
                None
            };
            row.push(entry);
            x += 1;
        }
        table.push(row);
        y += 1;
    }
    proof {
        let t = table.deep_view();
        assert forall|j: int| 0 <= j < t.len() implies (#[trigger] t[j]).len() == w by {
            assert(t[j] =~= table@[j].deep_view());
        }
        assert forall|i: int, j: int| in_bounds(grid@, i, j) implies entry_ok(
            grid@,
            start,
            Coordinate { x: i as usize, y: j as usize },
            #[trigger] t[j][i],
            0,
        ) by {
            assert(t[j] =~= table@[j].deep_view());
            assert(table@[j]@[i] == if i == start.x && j == start.y {
                Some(0u64)
            } else {
                None
            });
            lemma_reach_zero(grid@, start, Coordinate { x: i as usize, y: j as usize });
        }
    }
    table
}

/// For every plot of `grid`, the least number of steps in which it is
/// reached from `start`, as far as that is at most `limit`.
pub fn distances(grid: &Grid, start: Coordinate, limit: u64) -> (table: Vec<Vec<Option<u64>>>)
    requires
        passable(grid@, start.x as int, start.y as int),
    ensures
        distances_upto(grid@, start, table.deep_view(), limit as int),
{
    proof {
        use_type_invariant(grid);
        grid.lemma_rectangular();
    }
    let mut table = start_table(grid, start);
    let mut step: u64 = 0;
    while step < limit
        invariant
            step <= limit,
            rectangular(grid@),
            passable(grid@, start.x as int, start.y as int),
            distances_upto(grid@, start, table.deep_view(), step as int),
        decreases limit - step,
    {
        step += 1;
        let next = relax(grid, &table, step);
        proof {
            lemma_relax_ok(grid@, start, table.deep_view(), next.deep_view(), step);
        }
        table = next;
    }
    table
}

/// The plots first reached from `s` after a number of steps that is at
/// most `limit`, more than `beyond`, and leaves the remainder `parity`
/// when halved.
pub open spec fn ring(g: Cells, s: Coordinate, limit: int, parity: int, beyond: int) -> spec_fn(
    Coordinate,
) -> bool {
    |c: Coordinate|
        exists|j: int|
            0 <= j <= limit && #[trigger] nearest(g, s, c, j) && j % 2 == parity && j > beyond
}

/// How many plots were first reached after a number of steps that is more
/// than `beyond` and leaves the remainder `parity` when halved.
fn count_ring(
    grid: &Grid,
    table: &Vec<Vec<Option<u64>>>,
    parity: u64,
    beyond: Option<u64>,
    Ghost(start): Ghost<Coordinate>,
    Ghost(limit): Ghost<int>,
) -> (n: u64)
    requires
        distances_upto(grid@, start, table.deep_view(), limit),
        parity < 2,
    ensures
        n == count_cells(
            grid@,
            ring(grid@, start, limit, parity as int, match beyond {
                Some(b) => b as int,
                None => -1,
            }),
        ),
        n <= 4294836225,
{
    let w = grid.width();
    let h = grid.height();
    let ghost floor: int = match beyond {
        Some(b) => b as int,
        None => -1,
    };
    let ghost pred = ring(grid@, start, limit, parity as int, floor);
    proof {
        use_type_invariant(grid);
        grid.lemma_rectangular();
    }
    let mut total: u64 = 0;
    let mut y: usize = 0;
    while y < h
        invariant
            y <= h,
            w == width_of(grid@),
            h == height_of(grid@),
            rectangular(grid@),
            parity < 2,
            floor == match beyond {
                Some(b) => b as int,
                None => -1,
            },
            pred == ring(grid@, start, limit, parity as int, floor),
            distances_upto(grid@, start, table.deep_view(), limit),
            total == count_in_rows(pred, w as int, y as int),
        decreases h - y,
    {
        let mut row: u64 = 0;
        let mut x: usize = 0;
        let line = &table[y];
        assert(table.deep_view()[y as int] =~= line.deep_view());
        assert(table.deep_view()[y as int].len() == w);
        while x < w
            invariant
                x <= w,
                y < h,
                w == width_of(grid@),
                h == height_of(grid@),
                parity < 2,
                floor == match beyond {
                    Some(b) => b as int,
                    None => -1,
                },
                pred == ring(grid@, start, limit, parity as int, floor),
                line@.len() == w,
                table.deep_view()[y as int] == line.deep_view(),
                distances_upto(grid@, start, table.deep_view(), limit),
                row == count_in_row(pred, y as int, x as int),
                row <= x,
            decreases w - x,
        {
            let c = Coordinate { x, y };
            let entry = line[x];
            let hit = match entry {
                Some(v) => v % 2 == parity && match beyond {
                    Some(b) => v > b,
                    None => true,
                },
                None => false,
            };
            proof {
                assert(in_bounds(grid@, x as int, y as int));
                assert(entry == table.deep_view()[y as int][x as int]);
                assert(entry_ok(grid@, start, c, entry, limit));
                if hit {
                    assert(nearest(grid@, start, c, entry->Some_0 as int));
                    assert(pred(c));
                } else if pred(c) {
                    let j = choose|j: int|
                        0 <= j <= limit && #[trigger] nearest(grid@, start, c, j) && j % 2
                            == parity && j > floor;
                    assert(reached_in(grid@, start, c, j));
                    assert(entry is Some);
                    let v = entry->Some_0 as int;
                    if v < j {
                        assert(!reached_in(grid@, start, c, v));
                    }
                    if j < v {
                        assert(!reached_in(grid@, start, c, j));
                    }
                    assert(false);
                }
            }
            if hit {
                row += 1;
            }
            x += 1;
        }
        proof {
            lemma_count_cells(grid@, pred, y as int);
            lemma_count_cells(grid@, pred, y as int + 1);
        }
        total = total + row;
        y += 1;
    }
    proof {
        lemma_count_cells(grid@, pred, h as int);
    }
    total
}

/// The number of steps that the flood of the endless map is run for.
pub const FLOOD: u64 = 1000;

/// The distance from the start beyond which a plot lies in a corner of
/// the diamond.
pub const CORNER: u64 = 65;

/// The number of whole maps the walk crosses in one direction.
pub const MAPS: u64 = 202300;

/// The number of plots reached on the endless map, put together from the
/// counts of one map: plots at an odd and at an even distance, and those
/// of them in the corners.
pub open spec fn garden_total(odd_total: int, even_total: int, odd_corners: int, even_corners: int) -> int {
    ((MAPS + 1) * (MAPS + 1)) * odd_total + (MAPS * MAPS) * even_total - (MAPS + 1) * odd_corners
        + MAPS * even_corners
}

/// What the walk on the endless map made of copies of `g` comes to.
pub open spec fn endless(g: Cells, s: Coordinate) -> int {
    garden_total(
        count_cells(g, ring(g, s, FLOOD as int, 1, -1)),
        count_cells(g, ring(g, s, FLOOD as int, 0, -1)),
        count_cells(g, ring(g, s, FLOOD as int, 1, CORNER as int)),
        count_cells(g, ring(g, s, FLOOD as int, 0, CORNER as int)),
    )
}

/// The number of plots reached on the endless map, put together from the
/// counts of one map; `None` where it does not fit.
pub fn combine(odd_total: u64, even_total: u64, odd_corners: u64, even_corners: u64) -> (r: Option<
    u64,
>)
    requires
        odd_total <= 4294836225,
        even_total <= 4294836225,
        odd_corners <= 4294836225,
        even_corners <= 4294836225,
    ensures
        match r {
            Some(v) => v == garden_total(
                odd_total as int,
                even_total as int,
                odd_corners as int,
                even_corners as int,
            ),
            None => !(0 <= garden_total(
                odd_total as int,
                even_total as int,
                odd_corners as int,
                even_corners as int,
            ) <= u64::MAX),
        },
{
    assert((MAPS + 1) * (MAPS + 1) == 40925694601 && MAPS * MAPS == 40925290000) by (nonlinear_arith)
        requires
            MAPS == 202300,
    ;
    let gain: u128 = 40925694601 * (odd_total as u128) + 40925290000 * (even_total as u128)
        + 202300 * (even_corners as u128);
    let loss: u128 = 202301 * (odd_corners as u128);
    if gain < loss {
        return None;
    }
    let total = gain - loss;
    if total > u64::MAX as u128 {
        None
    } else {
        Some(total as u64)
    }
}

/// The number of plots the elf can stand on after 26501365 steps on the
/// endless map, put together from the flood of one map; `None` where the
/// text is no rectangle or marks no start, or where the number does not
/// fit.
pub fn part_two(input: &str) -> (r: Option<u64>)
    ensures
        ({
            let g = lines_of(input.spec_bytes());
            match r {
                Some(n) => rectangular(g) && !lacks(g, START) && n == endless(
                    g,
                    first_cell(g, START),
                ),
                None => !rectangular(g) || lacks(g, START) || !(0 <= endless(
                    g,
                    first_cell(g, START),
                ) <= u64::MAX),
            }
        }),
{
    match Grid::from_rows(split_lines(input.as_bytes())) {
        Err(_) => None,
        Ok(grid) => {
            match grid.find_first(START) {
                None => None,
                Some(start) => {
                    assert(cell_at(grid@, start.x as int, start.y as int) == START);
                    let table = distances(&grid, start, FLOOD);
                    let odd_total = count_ring(&grid, &table, 1, None, Ghost(start), Ghost(FLOOD as int));
                    let even_total = count_ring(&grid, &table, 0, None, Ghost(start), Ghost(FLOOD as int));
                    let odd_corners = count_ring(
                        &grid,
                        &table,
                        1,
                        Some(CORNER),
                        Ghost(start),
                        Ghost(FLOOD as int),
                    );
                    let even_corners = count_ring(
                        &grid,
                        &table,
                        0,
                        Some(CORNER),
                        Ghost(start),
                        Ghost(FLOOD as int),
                    );
                    combine(odd_total, even_total, odd_corners, even_corners)
                },
            }
        },
    }
}

} // verus!
