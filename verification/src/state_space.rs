//! Search states that carry direction and run length, and the rule that
//! says which state may follow which.

use crate::grid::{
    cell_at, height_of, in_bounds, passable, width_of, Cells, Coordinate, Direction, Grid,
};
use vstd::prelude::*;

verus! {

/// Where a walker stands, which way it last moved, and for how many
/// consecutive steps it has moved that way.
#[derive(Clone, Copy, Debug, PartialEq, Eq, Structural, Hash)]
pub struct SearchState {
    pub pos: Coordinate,
    pub dir: Direction,
    pub run: usize,
}

/// Limits on the length of a straight run: a walker may turn or stop only
/// after `min_run` steps in one direction, and must turn after `max_run`.
#[derive(Clone, Copy, Debug, PartialEq, Eq, Structural)]
pub struct RunLimits {
    pub min_run: usize,
    pub max_run: usize,
}

/// What it costs to enter a cell holding byte `b`: the value of a decimal
/// digit, and likewise `b - 48` for any byte from `'0'` upwards.
pub open spec fn cell_cost(b: u8) -> int {
    if b >= 48 {
        b - 48
    } else {
        0
    }
}

/// What it costs to enter the cell at `c`.
pub open spec fn entry_cost(grid: Cells, c: Coordinate) -> int {
    cell_cost(cell_at(grid, c.x as int, c.y as int))
}

/// Whether `t` may directly follow `s`.
pub open spec fn legal_step(grid: Cells, lim: RunLimits, s: SearchState, t: SearchState) -> bool {
    &&& t.pos.x == s.pos.x + t.dir.dx()
    &&& t.pos.y == s.pos.y + t.dir.dy()
    &&& passable(grid, t.pos.x as int, t.pos.y as int)
    &&& t.dir != s.dir.spec_opposite()
    &&& (s.run < lim.min_run ==> t.dir == s.dir)
    &&& (s.run >= lim.max_run ==> t.dir != s.dir)
    &&& t.run == if t.dir == s.dir {
        s.run + 1
    } else {
        1
    }
}

/// Whether a walk may begin in state `s`: at `start`, facing any way, with
/// no step taken yet.
pub open spec fn is_start(grid: Cells, start: Coordinate, s: SearchState) -> bool {
    &&& in_bounds(grid, start.x as int, start.y as int)
    &&& s.pos == start
    &&& s.run == 0
}

/// Whether a walk may end in state `s`: at `end`, with the current run
/// long enough to stop.
pub open spec fn reaches_goal(lim: RunLimits, end: Coordinate, s: SearchState) -> bool {
    s.pos == end && s.run >= lim.min_run
}

/// A run never extends past the edge it started from.
pub open spec fn run_fits(grid: Cells, s: SearchState) -> bool {
    match s.dir {
        Direction::East => s.run <= s.pos.x,
        Direction::West => s.run <= width_of(grid) - 1 - s.pos.x,
        Direction::South => s.run <= s.pos.y,
        Direction::North => s.run <= height_of(grid) - 1 - s.pos.y,
    }
}

/// What holds of every state on a legal walk.
pub open spec fn state_ok(grid: Cells, s: SearchState) -> bool {
    in_bounds(grid, s.pos.x as int, s.pos.y as int) && run_fits(grid, s)
}

/// A sequence of states that begins in a start state and proceeds by
/// legal steps.
pub open spec fn legal_path(
    grid: Cells,
    lim: RunLimits,
    start: Coordinate,
    p: Seq<SearchState>,
) -> bool {
    &&& p.len() >= 1
    &&& is_start(grid, start, p[0])
    &&& forall|i: int| 1 <= i < p.len() ==> legal_step(grid, lim, p[i - 1], #[trigger] p[i])
}

/// The summed entry cost of every state of `p` but the first.
pub open spec fn path_cost(grid: Cells, p: Seq<SearchState>) -> int
    decreases p.len(),
{
    if p.len() <= 1 {
        0
    } else {
        path_cost(grid, p.drop_last()) + entry_cost(grid, p.last().pos)
    }
}

/// A legal walk from `start` that may stop at `end`.
pub open spec fn is_route(
    grid: Cells,
    lim: RunLimits,
    start: Coordinate,
    end: Coordinate,
    p: Seq<SearchState>,
) -> bool {
    legal_path(grid, lim, start, p) && reaches_goal(lim, end, p.last())
}

/// `c` is the cost of a cheapest route from `start` to `end`.
pub open spec fn is_shortest(
    grid: Cells,
    lim: RunLimits,
    start: Coordinate,
    end: Coordinate,
    c: int,
) -> bool {
    &&& exists|p: Seq<SearchState>| is_route(grid, lim, start, end, p) && path_cost(grid, p) == c
    &&& forall|p: Seq<SearchState>| is_route(grid, lim, start, end, p) ==> path_cost(grid, p) >= c
}

/// No route leads from `start` to `end`.
pub open spec fn no_route(grid: Cells, lim: RunLimits, start: Coordinate, end: Coordinate) -> bool {
    forall|p: Seq<SearchState>| !is_route(grid, lim, start, end, p)
}

/// Dropping the last state of a legal walk of two or more states leaves a
/// legal walk.
pub proof fn lemma_prefix_legal(grid: Cells, lim: RunLimits, start: Coordinate, p: Seq<SearchState>)
    requires
        legal_path(grid, lim, start, p),
        p.len() >= 2,
    ensures
        legal_path(grid, lim, start, p.drop_last()),
        legal_step(grid, lim, p.drop_last().last(), p.last()),
{
    let q = p.drop_last();
    assert forall|i: int| 1 <= i < q.len() implies legal_step(grid, lim, q[i - 1], #[trigger] q[i]) by {
        assert(legal_step(grid, lim, p[i - 1], p[i]));
    }
    assert(legal_step(grid, lim, p[p.len() - 2], p[p.len() - 1]));
}

/// Appending a legal step to a legal walk gives a legal walk, and adds the
/// entry cost of the new state.
pub proof fn lemma_extend_legal(
    grid: Cells,
    lim: RunLimits,
    start: Coordinate,
    p: Seq<SearchState>,
    t: SearchState,
)
    requires
        legal_path(grid, lim, start, p),
        legal_step(grid, lim, p.last(), t),
    ensures
        legal_path(grid, lim, start, p.push(t)),
        path_cost(grid, p.push(t)) == path_cost(grid, p) + entry_cost(grid, t.pos),
{
    let q = p.push(t);
    assert(q.drop_last() =~= p);
    assert forall|i: int| 1 <= i < q.len() implies legal_step(grid, lim, q[i - 1], #[trigger] q[i]) by {
        if i < p.len() {
            assert(legal_step(grid, lim, p[i - 1], p[i]));
        }
    }
}

/// A legal step from a state that fits the grid leads to one that fits.
pub proof fn lemma_step_ok(grid: Cells, lim: RunLimits, s: SearchState, t: SearchState)
    requires
        state_ok(grid, s),
        legal_step(grid, lim, s, t),
    ensures
        state_ok(grid, t),
{
}

/// Every state of a legal walk fits the grid.
pub proof fn lemma_path_ok(grid: Cells, lim: RunLimits, start: Coordinate, p: Seq<SearchState>)
    requires
        legal_path(grid, lim, start, p),
    ensures
        state_ok(grid, p.last()),
    decreases p.len(),
{
    if p.len() >= 2 {
        lemma_prefix_legal(grid, lim, start, p);
        lemma_path_ok(grid, lim, start, p.drop_last());
        lemma_step_ok(grid, lim, p.drop_last().last(), p.last());
    }
}

/// The cost of a walk is never negative, and no less than that of the walk
/// without its last state.
pub proof fn lemma_cost_monotone(grid: Cells, p: Seq<SearchState>)
    ensures
        path_cost(grid, p) >= 0,
        p.len() >= 2 ==> path_cost(grid, p) >= path_cost(grid, p.drop_last()),
    decreases p.len(),
{
    if p.len() >= 2 {
        lemma_cost_monotone(grid, p.drop_last());
    }
}

/// The cost of a cheapest route is determined by the grid, the limits and
/// the two ends: asking twice gives the same answer, and a search cannot
/// both find a cost and find no route.
pub proof fn lemma_shortest_unique(
    grid: Cells,
    lim: RunLimits,
    start: Coordinate,
    end: Coordinate,
    c1: int,
    c2: int,
)
    requires
        is_shortest(grid, lim, start, end, c1),
    ensures
        is_shortest(grid, lim, start, end, c2) ==> c1 == c2,
        !no_route(grid, lim, start, end),
{
    let first_route = choose|p: Seq<SearchState>|
        is_route(grid, lim, start, end, p) && path_cost(grid, p) == c1;
    assert(is_route(grid, lim, start, end, first_route));
    if is_shortest(grid, lim, start, end, c2) {
        let other_route = choose|p: Seq<SearchState>|
            is_route(grid, lim, start, end, p) && path_cost(grid, p) == c2;
        assert(path_cost(grid, other_route) >= c1);
        assert(path_cost(grid, first_route) >= c2);
    }
}

/// `dear` has the shape and the walls of `cheap`, and no cell of it costs
/// less to enter.
pub open spec fn no_cheaper_cells(cheap: Cells, dear: Cells) -> bool {
    &&& height_of(cheap) == height_of(dear)
    &&& width_of(cheap) == width_of(dear)
    &&& forall|x: int, y: int|
        in_bounds(cheap, x, y) ==> {
            &&& passable(cheap, x, y) == passable(dear, x, y)
            &&& cell_cost(#[trigger] cell_at(cheap, x, y)) <= cell_cost(cell_at(dear, x, y))
        }
}

/// Where no cell became cheaper, the same walks are legal and none became
/// cheaper.
pub proof fn lemma_path_no_cheaper(
    cheap: Cells,
    dear: Cells,
    lim: RunLimits,
    start: Coordinate,
    p: Seq<SearchState>,
)
    requires
        no_cheaper_cells(cheap, dear),
        legal_path(dear, lim, start, p),
    ensures
        legal_path(cheap, lim, start, p),
        path_cost(cheap, p) <= path_cost(dear, p),
    decreases p.len(),
{
    assert forall|i: int| 1 <= i < p.len() implies legal_step(cheap, lim, p[i - 1], #[trigger] p[i]) by {
        assert(legal_step(dear, lim, p[i - 1], p[i]));
    }
    if p.len() >= 2 {
        lemma_prefix_legal(dear, lim, start, p);
        lemma_path_no_cheaper(cheap, dear, lim, start, p.drop_last());
        let t = p.last();
        assert(legal_step(dear, lim, p[p.len() - 2], p[p.len() - 1]));
        assert(in_bounds(cheap, t.pos.x as int, t.pos.y as int));
        assert(cell_cost(cell_at(cheap, t.pos.x as int, t.pos.y as int)) <= cell_cost(
            cell_at(dear, t.pos.x as int, t.pos.y as int),
        ));
    }
}

/// Raising the cost of cells never lowers the cost of a cheapest route.
pub proof fn lemma_monotone(
    cheap: Cells,
    dear: Cells,
    lim: RunLimits,
    start: Coordinate,
    end: Coordinate,
    c_cheap: int,
    c_dear: int,
)
    requires
        no_cheaper_cells(cheap, dear),
        is_shortest(cheap, lim, start, end, c_cheap),
        is_shortest(dear, lim, start, end, c_dear),
    ensures
        c_cheap <= c_dear,
{
    let p = choose|p: Seq<SearchState>|
        is_route(dear, lim, start, end, p) && path_cost(dear, p) == c_dear;
    lemma_path_no_cheaper(cheap, dear, lim, start, p);
    assert(is_route(cheap, lim, start, end, p));
}

/// What it costs to enter a cell holding byte `b`.
pub fn cost_of(b: u8) -> (c: u64)
    ensures
        c == cell_cost(b),
        c <= 255,
{
    if b >= 48 {
        (b - 48) as u64
    } else {
        0
    }
}

impl SearchState {
    /// The state one step in direction `dir` from `self`, without regard
    /// to the run limits.
    pub open spec fn moved(self, dir: Direction) -> SearchState {
        SearchState {
            pos: Coordinate {
                x: (self.pos.x + dir.dx()) as usize,
                y: (self.pos.y + dir.dy()) as usize,
            },
            dir,
            run: if dir == self.dir {
                (self.run + 1) as usize
            } else {
                1
            },
        }
    }

    /// The state one step in direction `dir`, or `None` where that step
    /// would leave the grid or enter a wall.
    pub fn offset(&self, grid: &Grid, dir: Direction) -> (r: Option<SearchState>)
        ensures
            r is Some <==> passable(grid@, self.pos.x + dir.dx(), self.pos.y + dir.dy()) && (dir
                == self.dir ==> self.run < usize::MAX),
            r is Some ==> r->Some_0 == self.moved(dir),
            r is Some ==> r->Some_0.pos.x == self.pos.x + dir.dx() && r->Some_0.pos.y == self.pos.y
                + dir.dy(),
    {
        let w = grid.width();
        let h = grid.height();
        let x = self.pos.x;
        let y = self.pos.y;
        let target = match dir {
            Direction::North => if y == 0 {
                None
            } else {
                Some(Coordinate { x, y: y - 1 })
            },
            Direction::East => if x >= w - 1 {
                None
            } else {
                Some(Coordinate { x: x + 1, y })
            },
            Direction::South => if y >= h - 1 {
                None
            } else {
                Some(Coordinate { x, y: y + 1 })
            },
            Direction::West => if x == 0 {
                None
            } else {
                Some(Coordinate { x: x - 1, y })
            },
        };
        match target {
            None => None,
            Some(pos) => {
                match grid.get(pos) {
                    None => None,
                    Some(b) => {
                        if b == crate::grid::WALL {
                            None
                        } else {
                            if dir == self.dir {
                                match self.run.checked_add(1) {
                                    Some(run) => Some(SearchState { pos, dir, run }),
                                    None => None,
                                }
                            } else {
                                Some(SearchState { pos, dir, run: 1 })
                            }
                        }
                    },
                }
            },
        }
    }

    /// The states that may directly follow `self`, in the order north,
    /// east, south, west of their direction.
    pub fn next(&self, grid: &Grid, lim: RunLimits) -> (r: Vec<SearchState>)
        ensures
            forall|t: SearchState| r@.contains(t) <==> legal_step(grid@, lim, *self, t),
            forall|a: int, b: int|
                0 <= a < b < r@.len() ==> r@[a].dir.spec_index() < r@[b].dir.spec_index(),
            r@.no_duplicates(),
            r@.len() <= 3,
    {
        let mut out: Vec<SearchState> = Vec::new();
        let mut i: usize = 0;
        while i < 4
            invariant
                i <= 4,
                out@.len() <= i,
                forall|k: int| 0 <= k < out@.len() ==> (#[trigger] out@[k]).dir.spec_index() < i,
                forall|a: int, b: int|
                    0 <= a < b < out@.len() ==> out@[a].dir.spec_index() < out@[b].dir.spec_index(),
                forall|t: SearchState|
                    out@.contains(t) <==> (legal_step(grid@, lim, *self, t) && t.dir.spec_index() < i),
                out@.no_duplicates(),
            decreases 4 - i,
        {
            let dir = Direction::from_index(i);
            let ghost before = out@;
            let allowed = dir != self.dir.opposite() && (self.run >= lim.min_run || dir == self.dir)
                && (self.run < lim.max_run || dir != self.dir);
            if allowed {
                match self.offset(grid, dir) {
                    Some(t) => {
                        out.push(t);
                        proof {
                            assert(legal_step(grid@, lim, *self, t));
                            assert forall|u: SearchState| out@.contains(u) implies (legal_step(
                                grid@,
                                lim,
                                *self,
                                u,
                            ) && u.dir.spec_index() < i + 1) by {
                                let k = choose|k: int| 0 <= k < out@.len() && out@[k] == u;
                                if k < before.len() {
                                    assert(before.contains(u));
                                }
                            }
                            assert forall|u: SearchState|
                                legal_step(grid@, lim, *self, u) && u.dir.spec_index() < i
                                    + 1 implies out@.contains(u) by {
                                if u.dir.spec_index() < i {
                                    assert(before.contains(u));
                                    let k = choose|k: int| 0 <= k < before.len() && before[k] == u;
                                    assert(out@[k] == u);
                                } else {
                                    assert(u.dir == dir);
                                    assert(u == t);
                                    assert(out@[before.len() as int] == u);
                                }
                            }
                        }
                    },
                    None => {
                        proof {
                            assert forall|u: SearchState|
                                legal_step(grid@, lim, *self, u) && u.dir.spec_index() < i
                                    + 1 implies u.dir.spec_index() < i by {
                                if u.dir.spec_index() == i {
                                    assert(u.dir == dir);
                                }
                            }
                        }
                    },
                }
            } else {
                proof {
                    assert forall|u: SearchState|
                        legal_step(grid@, lim, *self, u) && u.dir.spec_index() < i
                            + 1 implies u.dir.spec_index() < i by {
                        if u.dir.spec_index() == i {
                            assert(u.dir == dir);
                        }
                    }
                }
            }
            i += 1;
        }
        proof {
            // at most three of the four directions are not a reversal
            if out@.len() == 4 {
                assert(out@[0].dir.spec_index() < 4);
                let o = self.dir.spec_opposite();
                assert forall|a: int, b: int| 0 <= a < b < 4 implies out@[a].dir
                    != out@[b].dir by {
                    assert(out@.contains(out@[a]));
                    assert(out@.contains(out@[b]));
                    if out@[a].dir == out@[b].dir {
                        assert(out@[a] == out@[b]);
                    }
                }
                assert(out@.contains(out@[0]) && out@.contains(out@[1]) && out@.contains(out@[2])
                    && out@.contains(out@[3]));
                assert(false);
            }
        }
        out
    }
}

} // verus!
