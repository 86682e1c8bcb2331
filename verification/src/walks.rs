//! Walks that know no run limits, and the proof that a search with the
//! limits switched off finds the cost of a cheapest one.

use crate::grid::{
    height_of, in_bounds, passable, rectangular, width_of, Cells, Coordinate, Direction,
};
use crate::state_space::{
    entry_cost, is_route, is_shortest, legal_path, legal_step, lemma_extend_legal, lemma_path_ok,
    lemma_prefix_legal, no_route, path_cost, run_fits, state_ok, RunLimits, SearchState,
};
use vstd::prelude::*;

verus! {

/// `b` lies one step in direction `d` from `a`.
pub open spec fn steps_to(a: Coordinate, d: Direction, b: Coordinate) -> bool {
    b.x == a.x + d.dx() && b.y == a.y + d.dy()
}

/// `b` is a passable cell next to `a`.
pub open spec fn walk_step(g: Cells, a: Coordinate, b: Coordinate) -> bool {
    passable(g, b.x as int, b.y as int) && exists|d: Direction| #[trigger] steps_to(a, d, b)
}

/// A sequence of cells that begins at `start` and moves from each cell to
/// a passable cell next to it.
pub open spec fn free_walk(g: Cells, start: Coordinate, w: Seq<Coordinate>) -> bool {
    &&& w.len() >= 1
    &&& w[0] == start
    &&& in_bounds(g, start.x as int, start.y as int)
    &&& forall|i: int| 1 <= i < w.len() ==> walk_step(g, w[i - 1], #[trigger] w[i])
}

/// The summed entry cost of all of `cells`.
pub open spec fn sum_costs(g: Cells, cells: Seq<Coordinate>) -> int
    decreases cells.len(),
{
    if cells.len() == 0 {
        0
    } else {
        sum_costs(g, cells.drop_last()) + entry_cost(g, cells.last())
    }
}

/// The summed entry cost of every cell of `w` but the first.
pub open spec fn walk_cost(g: Cells, w: Seq<Coordinate>) -> int {
    sum_costs(g, w.subrange(1, w.len() as int))
}

/// `c` is the cost of a cheapest walk from `start` to `end`.
pub open spec fn is_cheapest_walk(g: Cells, start: Coordinate, end: Coordinate, c: int) -> bool {
    &&& exists|w: Seq<Coordinate>| #[trigger]
        free_walk(g, start, w) && w.last() == end && walk_cost(g, w) == c
    &&& forall|w: Seq<Coordinate>| #[trigger]
        free_walk(g, start, w) && w.last() == end ==> walk_cost(g, w) >= c
}

/// No walk leads from `start` to `end`.
pub open spec fn no_walk(g: Cells, start: Coordinate, end: Coordinate) -> bool {
    forall|w: Seq<Coordinate>| !(#[trigger] free_walk(g, start, w) && w.last() == end)
}

/// Limits that never bind on `g`: no least run, and a greatest run that
/// no straight line on the grid can reach.
pub open spec fn unlimited(g: Cells, lim: RunLimits) -> bool {
    lim.min_run == 0 && lim.max_run >= width_of(g) && lim.max_run >= height_of(g)
}

/// The cells that the states of `p` stand on.
pub open spec fn positions(p: Seq<SearchState>) -> Seq<Coordinate> {
    Seq::new(p.len(), |i: int| p[i].pos)
}

/// Whether `w` somewhere steps back to the cell it just came from.
pub open spec fn has_reversal(w: Seq<Coordinate>) -> bool {
    exists|i: int| 1 <= i < w.len() - 1 && #[trigger] w[i + 1] == w[i - 1]
}

/// Costs add up over joined stretches.
pub proof fn lemma_sum_concat(g: Cells, a: Seq<Coordinate>, b: Seq<Coordinate>)
    ensures
        sum_costs(g, a + b) == sum_costs(g, a) + sum_costs(g, b),
    decreases b.len(),
{
    if b.len() == 0 {
        assert(a + b =~= a);
    } else {
        lemma_sum_concat(g, a, b.drop_last());
        assert((a + b).drop_last() =~= a + b.drop_last());
        assert((a + b).last() == b.last());
    }
}

/// No stretch has a negative cost.
pub proof fn lemma_sum_nonnegative(g: Cells, a: Seq<Coordinate>)
    ensures
        sum_costs(g, a) >= 0,
    decreases a.len(),
{
    if a.len() > 0 {
        lemma_sum_nonnegative(g, a.drop_last());
    }
}

/// The cells of a legal walk form a free walk of the same cost.
pub proof fn lemma_route_is_walk(g: Cells, lim: RunLimits, start: Coordinate, p: Seq<SearchState>)
    requires
        legal_path(g, lim, start, p),
    ensures
        free_walk(g, start, positions(p)),
        positions(p).last() == p.last().pos,
        walk_cost(g, positions(p)) == path_cost(g, p),
    decreases p.len(),
{
    let w = positions(p);
    assert forall|i: int| 1 <= i < w.len() implies walk_step(g, w[i - 1], #[trigger] w[i]) by {
        assert(legal_step(g, lim, p[i - 1], p[i]));
        assert(steps_to(w[i - 1], p[i].dir, w[i]));
    }
    if p.len() >= 2 {
        lemma_prefix_legal(g, lim, start, p);
        lemma_route_is_walk(g, lim, start, p.drop_last());
        let w0 = positions(p.drop_last());
        assert(w.subrange(1, w.len() as int).drop_last() =~= w0.subrange(1, w0.len() as int));
    } else {
        assert(w.subrange(1, w.len() as int) =~= Seq::<Coordinate>::empty());
    }
}

/// A free walk without a step back can be walked under limits that never
/// bind, cell for cell and at the same cost.
proof fn lemma_lift(g: Cells, lim: RunLimits, start: Coordinate, w: Seq<Coordinate>) -> (p: Seq<
    SearchState,
>)
    requires
        rectangular(g),
        unlimited(g, lim),
        free_walk(g, start, w),
        !has_reversal(w),
        w.len() >= 2,
    ensures
        legal_path(g, lim, start, p),
        p.len() == w.len(),
        p.last().pos == w.last(),
        steps_to(w[w.len() - 2], p.last().dir, w.last()),
        path_cost(g, p) == walk_cost(g, w),
    decreases w.len(),
{
    let n = w.len() as int;
    assert(walk_step(g, w[n - 2], w[n - 1]));
    let d = choose|d: Direction| #[trigger] steps_to(w[n - 2], d, w[n - 1]);
    if n == 2 {
        let s0 = SearchState { pos: start, dir: d, run: 0 };
        let s1 = SearchState { pos: w[1], dir: d, run: 1 };
        let p0 = seq![s0];
        assert(legal_path(g, lim, start, p0));
        assert(legal_step(g, lim, s0, s1));
        lemma_extend_legal(g, lim, start, p0, s1);
        assert(path_cost(g, p0) == 0);
        let one = w.subrange(1, 2);
        assert(one.last() == w[1]);
        assert(one.drop_last() =~= Seq::<Coordinate>::empty());
        assert(sum_costs(g, one.drop_last()) == 0);
        assert(sum_costs(g, one) == entry_cost(g, w[1]));
        p0.push(s1)
    } else {
        let w0 = w.drop_last();
        assert forall|i: int| 1 <= i < w0.len() implies walk_step(g, w0[i - 1], #[trigger] w0[i]) by {
            assert(walk_step(g, w[i - 1], w[i]));
        }
        assert(!has_reversal(w0)) by {
            if has_reversal(w0) {
                let i = choose|i: int| 1 <= i < w0.len() - 1 && #[trigger] w0[i + 1] == w0[i - 1];
                assert(w[i + 1] == w[i - 1]);
            }
        }
        let p0 = lemma_lift(g, lim, start, w0);
        let s = p0.last();
        lemma_path_ok(g, lim, start, p0);
        assert(w[n - 1] != w[n - 3]) by {
            if w[n - 1] == w[n - 3] {
                assert(w[(n - 2) + 1] == w[(n - 2) - 1]);
            }
        }
        let run: usize = if d == s.dir {
            (s.run + 1) as usize
        } else {
            1
        };
        let t = SearchState { pos: w[n - 1], dir: d, run };
        assert(steps_to(w0[w0.len() - 2], s.dir, w0.last()));
        assert(legal_step(g, lim, s, t)) by {
            assert(state_ok(g, s));
            assert(run_fits(g, s));
        }
        lemma_extend_legal(g, lim, start, p0, t);
        assert(w.subrange(1, n).drop_last() =~= w0.subrange(1, n - 1));
        p0.push(t)
    }
}

/// Under limits that never bind, every free walk has a legal walk to the
/// same cell that costs no more.
proof fn lemma_straighten(g: Cells, lim: RunLimits, start: Coordinate, w: Seq<Coordinate>) -> (p:
    Seq<SearchState>)
    requires
        rectangular(g),
        unlimited(g, lim),
        free_walk(g, start, w),
    ensures
        legal_path(g, lim, start, p),
        p.last().pos == w.last(),
        path_cost(g, p) <= walk_cost(g, w),
    decreases w.len(),
{
    let n = w.len() as int;
    if n == 1 {
        let s0 = SearchState { pos: start, dir: Direction::North, run: 0 };
        let p = seq![s0];
        assert(legal_path(g, lim, start, p));
        assert(w.subrange(1, 1) =~= Seq::<Coordinate>::empty());
        p
    } else if has_reversal(w) {
        let i = choose|i: int| 1 <= i < w.len() - 1 && #[trigger] w[i + 1] == w[i - 1];
        let head = w.subrange(0, i);
        let tail = w.subrange(i + 2, n);
        let cut = head + tail;
        assert forall|k: int| 1 <= k < cut.len() implies walk_step(g, cut[k - 1], #[trigger] cut[k]) by {
            if k < i {
                assert(walk_step(g, w[k - 1], w[k]));
            } else if k == i {
                assert(cut[k] == w[i + 2]);
                assert(cut[k - 1] == w[i - 1]);
                assert(walk_step(g, w[i + 1], w[i + 2]));
            } else {
                assert(cut[k] == w[k + 2]);
                assert(cut[k - 1] == w[k + 1]);
                assert(walk_step(g, w[k + 1], w[k + 2]));
            }
        }
        assert(cut.last() == w.last());
        assert(walk_cost(g, cut) <= walk_cost(g, w)) by {
            let a = w.subrange(1, i);
            let mid = w.subrange(i, i + 2);
            assert(w.subrange(1, n) =~= a + mid + tail);
            assert(cut.subrange(1, cut.len() as int) =~= a + tail);
            lemma_sum_concat(g, a, mid);
            lemma_sum_concat(g, a + mid, tail);
            lemma_sum_concat(g, a, tail);
            lemma_sum_nonnegative(g, mid);
        }
        lemma_straighten(g, lim, start, cut)
    } else {
        lemma_lift(g, lim, start, w)
    }
}

/// Under limits that never bind, the cost of a cheapest route is the cost
/// of a cheapest walk.
proof fn lemma_route_cost_is_walk_cost(
    g: Cells,
    lim: RunLimits,
    start: Coordinate,
    end: Coordinate,
    c: int,
)
    requires
        rectangular(g),
        unlimited(g, lim),
        is_shortest(g, lim, start, end, c),
    ensures
        is_cheapest_walk(g, start, end, c),
{
    let p = choose|p: Seq<SearchState>| is_route(g, lim, start, end, p) && path_cost(g, p) == c;
    lemma_route_is_walk(g, lim, start, p);
    let w = positions(p);
    assert(free_walk(g, start, w) && w.last() == end && walk_cost(g, w) == c);
    assert forall|w2: Seq<Coordinate>| #[trigger]
        free_walk(g, start, w2) && w2.last() == end implies walk_cost(g, w2) >= c by {
        let other_route = lemma_straighten(g, lim, start, w2);
        assert(is_route(g, lim, start, end, other_route));
    }
}

/// Under limits that never bind, the cost of a cheapest walk is the cost
/// of a cheapest route.
proof fn lemma_walk_cost_is_route_cost(
    g: Cells,
    lim: RunLimits,
    start: Coordinate,
    end: Coordinate,
    c: int,
)
    requires
        rectangular(g),
        unlimited(g, lim),
        is_cheapest_walk(g, start, end, c),
    ensures
        is_shortest(g, lim, start, end, c),
{
    let w = choose|w: Seq<Coordinate>| #[trigger]
        free_walk(g, start, w) && w.last() == end && walk_cost(g, w) == c;
    let p = lemma_straighten(g, lim, start, w);
    assert(is_route(g, lim, start, end, p));
    lemma_route_is_walk(g, lim, start, p);
    assert(free_walk(g, start, positions(p)) && positions(p).last() == end);
    assert(path_cost(g, p) == c);
    assert forall|other_route: Seq<SearchState>| is_route(g, lim, start, end, other_route) implies path_cost(g, other_route)
        >= c by {
        lemma_route_is_walk(g, lim, start, other_route);
        assert(free_walk(g, start, positions(other_route)) && positions(other_route).last() == end);
    }
}

/// Under limits that never bind, a route exists exactly where a walk
/// does.
proof fn lemma_route_iff_walk(g: Cells, lim: RunLimits, start: Coordinate, end: Coordinate)
    requires
        rectangular(g),
        unlimited(g, lim),
    ensures
        no_route(g, lim, start, end) <==> no_walk(g, start, end),
{
    if no_route(g, lim, start, end) {
        assert forall|w: Seq<Coordinate>| !(#[trigger] free_walk(g, start, w) && w.last() == end) by {
            if free_walk(g, start, w) && w.last() == end {
                let p = lemma_straighten(g, lim, start, w);
                assert(is_route(g, lim, start, end, p));
            }
        }
    }
    if no_walk(g, start, end) {
        assert forall|p: Seq<SearchState>| !is_route(g, lim, start, end, p) by {
            if is_route(g, lim, start, end, p) {
                lemma_route_is_walk(g, lim, start, p);
                assert(free_walk(g, start, positions(p)) && positions(p).last() == end);
            }
        }
    }
}

/// With no least run and a greatest run that no straight line on the grid
/// can reach, the cost of a cheapest route is the cost of a cheapest walk
/// that knows no limits at all, and a route exists exactly where a walk
/// does.
pub proof fn lemma_relaxation(g: Cells, lim: RunLimits, start: Coordinate, end: Coordinate, c: int)
    requires
        rectangular(g),
        unlimited(g, lim),
    ensures
        is_shortest(g, lim, start, end, c) <==> is_cheapest_walk(g, start, end, c),
        no_route(g, lim, start, end) <==> no_walk(g, start, end),
{
    if is_shortest(g, lim, start, end, c) {
        lemma_route_cost_is_walk_cost(g, lim, start, end, c);
    }
    if is_cheapest_walk(g, start, end, c) {
        lemma_walk_cost_is_route_cost(g, lim, start, end, c);
    }
    lemma_route_iff_walk(g, lim, start, end);
}

} // verus!
