//! Contracting the corridors of a trail map into the edges of a junction
//! graph, and the longest walk that enters no cell twice.

use crate::graph::{
    is_longest, no_simple_path, path_weight, simple_path, Edge, JunctionGraph, MAX_NODES,
    MAX_WEIGHT,
};
use crate::grid::{
    cell_at, height_of, open_neighbors, passable, rectangular, shifted, width_of, Cells,
    Coordinate, Direction, Grid, SearchError, MAX_DIM,
};
use vstd::prelude::*;

verus! {

/// The direction in which a slope cell may be entered, if `b` is one of
/// `^`, `>`, `v`, `<`.
pub open spec fn slope_of(b: u8) -> Option<Direction> {
    if b == 94 {
        Some(Direction::North)
    } else if b == 62 {
        Some(Direction::East)
    } else if b == 118 {
        Some(Direction::South)
    } else if b == 60 {
        Some(Direction::West)
    } else {
        None
    }
}

/// Whether a step in direction `d` from `c` is allowed: the target is on
/// the grid and no wall, and where slopes count (`directed`) a slope is
/// entered only in its own direction.
pub open spec fn enterable(g: Cells, directed: bool, c: Coordinate, d: Direction) -> bool {
    let x = c.x + d.dx();
    let y = c.y + d.dy();
    passable(g, x, y) && (directed ==> match slope_of(cell_at(g, x, y)) {
        Some(s) => s == d,
        None => true,
    })
}

/// A passable cell with more than two passable neighbours.
pub open spec fn is_junction(g: Cells, c: Coordinate) -> bool {
    passable(g, c.x as int, c.y as int) && open_neighbors(g, c).len() > 2
}

/// The nodes of the contracted graph: both terminals and every junction.
pub open spec fn is_node(g: Cells, start: Coordinate, end: Coordinate, c: Coordinate) -> bool {
    c == start || c == end || is_junction(g, c)
}

/// The junctions of row `y` in its first `upto` columns, from the left,
/// without the terminals.
pub open spec fn row_junctions(
    g: Cells,
    start: Coordinate,
    end: Coordinate,
    y: int,
    upto: int,
) -> Seq<Coordinate>
    decreases upto,
{
    if upto <= 0 {
        Seq::empty()
    } else {
        let before = row_junctions(g, start, end, y, upto - 1);
        let c = Coordinate { x: (upto - 1) as usize, y: y as usize };
        if is_junction(g, c) && c != start && c != end {
            before.push(c)
        } else {
            before
        }
    }
}

/// The junctions of the first `upto` rows, row by row, without the
/// terminals.
pub open spec fn grid_junctions(
    g: Cells,
    start: Coordinate,
    end: Coordinate,
    upto: int,
) -> Seq<Coordinate>
    decreases upto,
{
    if upto <= 0 {
        Seq::empty()
    } else {
        grid_junctions(g, start, end, upto - 1) + row_junctions(
            g,
            start,
            end,
            upto - 1,
            width_of(g),
        )
    }
}

/// The nodes in the order in which the graph numbers them: `start`, then
/// `end` if it differs, then the junctions row by row.
pub open spec fn node_list(g: Cells, start: Coordinate, end: Coordinate) -> Seq<Coordinate> {
    let terminals = if start == end {
        seq![start]
    } else {
        seq![start, end]
    };
    terminals + grid_junctions(g, start, end, height_of(g))
}

/// Whether the walker standing on `cur`, having come from `prev`, may go
/// on in direction `d` without turning back.
pub open spec fn may_go_on(
    g: Cells,
    directed: bool,
    prev: Coordinate,
    cur: Coordinate,
    d: Direction,
) -> bool {
    shifted(cur, d) != prev && enterable(g, directed, cur, d)
}

/// The first `upto` directions hold none in which the walker may go on.
pub open spec fn blocked_upto(
    g: Cells,
    directed: bool,
    prev: Coordinate,
    cur: Coordinate,
    upto: int,
) -> bool {
    forall|i: int| 0 <= i < upto ==> !may_go_on(g, directed, prev, cur, #[trigger] Direction::spec_from_index(i))
}

/// Where the walker goes from `cur`, having come from `prev`: towards the
/// first of north, east, south, west that does not lead back and may be
/// entered.
pub open spec fn onward(g: Cells, directed: bool, prev: Coordinate, cur: Coordinate) -> Option<
    Coordinate,
> {
    if may_go_on(g, directed, prev, cur, Direction::North) {
        Some(shifted(cur, Direction::North))
    } else if may_go_on(g, directed, prev, cur, Direction::East) {
        Some(shifted(cur, Direction::East))
    } else if may_go_on(g, directed, prev, cur, Direction::South) {
        Some(shifted(cur, Direction::South))
    } else if may_go_on(g, directed, prev, cur, Direction::West) {
        Some(shifted(cur, Direction::West))
    } else {
        None
    }
}

/// Follows a corridor from `cur`, entered from `prev` after `steps`
/// steps, for at most `fuel` further steps: the node reached and the
/// steps taken, or `None` at a dead end.
pub open spec fn trail(
    g: Cells,
    directed: bool,
    start: Coordinate,
    end: Coordinate,
    prev: Coordinate,
    cur: Coordinate,
    steps: nat,
    fuel: nat,
) -> Option<(Coordinate, nat)>
    decreases fuel,
{
    if is_node(g, start, end, cur) {
        Some((cur, steps))
    } else if fuel == 0 {
        None
    } else {
        match onward(g, directed, prev, cur) {
            Some(nxt) => trail(g, directed, start, end, cur, nxt, steps + 1, (fuel - 1) as nat),
            None => None,
        }
    }
}

/// The corridor that leaves node `a` in direction `d`: the node it leads
/// to and its length in steps.
pub open spec fn corridor_from(
    g: Cells,
    directed: bool,
    start: Coordinate,
    end: Coordinate,
    a: Coordinate,
    d: Direction,
) -> Option<(Coordinate, nat)> {
    if enterable(g, directed, a, d) {
        trail(g, directed, start, end, a, shifted(a, d), 1, (width_of(g) * height_of(g)) as nat)
    } else {
        None
    }
}

/// The first position from `from` on at which `c` stands in `nodes`, or
/// the length of `nodes`.
pub open spec fn position(nodes: Seq<Coordinate>, c: Coordinate, from: int) -> int
    decreases nodes.len() - from,
{
    if from < 0 || from >= nodes.len() {
        nodes.len() as int
    } else if nodes[from] == c {
        from
    } else {
        position(nodes, c, from + 1)
    }
}

/// The edges that leave the node at `a` in the first `upto` directions.
pub open spec fn edges_upto(
    g: Cells,
    directed: bool,
    start: Coordinate,
    end: Coordinate,
    a: Coordinate,
    upto: int,
) -> Seq<Edge>
    decreases upto,
{
    if upto <= 0 {
        Seq::empty()
    } else {
        let before = edges_upto(g, directed, start, end, a, upto - 1);
        let nodes = node_list(g, start, end);
        match corridor_from(g, directed, start, end, a, Direction::spec_from_index(upto - 1)) {
            Some((b, w)) => if position(nodes, b, 0) < nodes.len() {
                before.push(Edge { to: position(nodes, b, 0) as usize, weight: w as u64 })
            } else {
                before
            },
            None => before,
        }
    }
}

/// The adjacency of the contracted graph: for each node of
/// [`node_list`], one edge for each corridor that leaves it.
pub open spec fn contracted(g: Cells, directed: bool, start: Coordinate, end: Coordinate) -> Seq<
    Seq<Edge>,
> {
    let nodes = node_list(g, start, end);
    Seq::new(nodes.len(), |a: int| edges_upto(g, directed, start, end, nodes[a], 4))
}

/// `b` is reached from `a` by one allowed step.
pub open spec fn trail_step(g: Cells, directed: bool, a: Coordinate, b: Coordinate) -> bool {
    exists|d: Direction| #[trigger] enterable(g, directed, a, d) && b == shifted(a, d)
}

/// A sequence of cells each reached from the one before by one allowed
/// step.
pub open spec fn grid_walk(g: Cells, directed: bool, w: Seq<Coordinate>) -> bool {
    &&& w.len() >= 1
    &&& forall|i: int| 1 <= i < w.len() ==> trail_step(g, directed, w[i - 1], #[trigger] w[i])
}

/// A grid walk from `a` to `b` of `n` steps.
pub open spec fn walk_between(
    g: Cells,
    directed: bool,
    a: Coordinate,
    b: Coordinate,
    n: int,
    w: Seq<Coordinate>,
) -> bool {
    grid_walk(g, directed, w) && w[0] == a && w.last() == b && w.len() == n + 1
}

/// Two grid walks that meet end to start join into one.
pub proof fn lemma_join_walks(
    g: Cells,
    directed: bool,
    w1: Seq<Coordinate>,
    w2: Seq<Coordinate>,
)
    requires
        grid_walk(g, directed, w1),
        grid_walk(g, directed, w2),
        w1.last() == w2[0],
    ensures
        grid_walk(g, directed, w1 + w2.drop_first()),
        (w1 + w2.drop_first())[0] == w1[0],
        (w1 + w2.drop_first()).last() == w2.last(),
        (w1 + w2.drop_first()).len() == w1.len() + w2.len() - 1,
{
    let w = w1 + w2.drop_first();
    assert forall|i: int| 1 <= i < w.len() implies trail_step(g, directed, w[i - 1], #[trigger] w[i]) by {
        if i < w1.len() {
            assert(trail_step(g, directed, w1[i - 1], w1[i]));
        } else {
            let k = i - w1.len() + 1;
            assert(w[i] == w2[k]);
            assert(w[i - 1] == w2[k - 1]);
            assert(trail_step(g, directed, w2[k - 1], w2[k]));
        }
    }
}

/// Where the walker goes on, it takes an allowed step.
pub proof fn lemma_onward_step(g: Cells, directed: bool, prev: Coordinate, cur: Coordinate)
    requires
        onward(g, directed, prev, cur) is Some,
    ensures
        trail_step(g, directed, cur, onward(g, directed, prev, cur)->Some_0),
{
    if may_go_on(g, directed, prev, cur, Direction::North) {
        assert(enterable(g, directed, cur, Direction::North));
    } else if may_go_on(g, directed, prev, cur, Direction::East) {
        assert(enterable(g, directed, cur, Direction::East));
    } else if may_go_on(g, directed, prev, cur, Direction::South) {
        assert(enterable(g, directed, cur, Direction::South));
    } else {
        assert(enterable(g, directed, cur, Direction::West));
    }
}

/// What following a corridor yields is reached by a grid walk of as many
/// steps as were counted.
pub proof fn lemma_trail_walk(
    g: Cells,
    directed: bool,
    start: Coordinate,
    end: Coordinate,
    prev: Coordinate,
    cur: Coordinate,
    steps: nat,
    fuel: nat,
) -> (w: Seq<Coordinate>)
    requires
        trail(g, directed, start, end, prev, cur, steps, fuel) is Some,
    ensures
        walk_between(
            g,
            directed,
            cur,
            trail(g, directed, start, end, prev, cur, steps, fuel)->Some_0.0,
            trail(g, directed, start, end, prev, cur, steps, fuel)->Some_0.1 - steps,
            w,
        ),
        is_node(g, start, end, trail(g, directed, start, end, prev, cur, steps, fuel)->Some_0.0),
        steps <= trail(g, directed, start, end, prev, cur, steps, fuel)->Some_0.1 <= steps + fuel,
    decreases fuel,
{
    let here = trail(g, directed, start, end, prev, cur, steps, fuel);
    if is_node(g, start, end, cur) {
        let w = seq![cur];
        assert(here == Some((cur, steps)));
        assert(w.len() == 1 && w[0] == cur && w.last() == cur);
        assert(grid_walk(g, directed, w));
        w
    } else {
        assert(fuel > 0);
        let step = onward(g, directed, prev, cur);
        assert(step is Some);
        let nxt = step->Some_0;
        let there = trail(g, directed, start, end, cur, nxt, steps + 1, (fuel - 1) as nat);
        assert(here == there);
        lemma_onward_step(g, directed, prev, cur);
        let rest = lemma_trail_walk(g, directed, start, end, cur, nxt, steps + 1, (fuel - 1) as nat);
        let first = seq![cur, nxt];
        assert(first.len() == 2 && first[0] == cur && first[1] == nxt && first.last() == nxt);
        assert(grid_walk(g, directed, first)) by {
            assert forall|i: int| 1 <= i < first.len() implies trail_step(
                g,
                directed,
                first[i - 1],
                #[trigger] first[i],
            ) by {
                assert(i == 1);
            }
        }
        lemma_join_walks(g, directed, first, rest);
        first + rest.drop_first()
    }
}

/// A corridor of the contraction is a grid walk between two nodes, of as
/// many steps as the corridor is long.
pub proof fn lemma_corridor_walk(
    g: Cells,
    directed: bool,
    start: Coordinate,
    end: Coordinate,
    a: Coordinate,
    d: Direction,
) -> (w: Seq<Coordinate>)
    requires
        corridor_from(g, directed, start, end, a, d) is Some,
    ensures
        ({
            let (b, n) = corridor_from(g, directed, start, end, a, d)->Some_0;
            walk_between(g, directed, a, b, n as int, w) && is_node(g, start, end, b) && 1 <= n
                <= 1 + width_of(g) * height_of(g)
        }),
{
    let first = seq![a, shifted(a, d)];
    assert(trail_step(g, directed, a, shifted(a, d)));
    assert(grid_walk(g, directed, first));
    let rest = lemma_trail_walk(
        g,
        directed,
        start,
        end,
        a,
        shifted(a, d),
        1,
        (width_of(g) * height_of(g)) as nat,
    );
    lemma_join_walks(g, directed, first, rest);
    first + rest.drop_first()
}

/// The first position at which `c` stands in `nodes`, if it lies within
/// `nodes`, holds `c`.
pub proof fn lemma_position(nodes: Seq<Coordinate>, c: Coordinate, from: int)
    requires
        0 <= from,
    ensures
        from <= position(nodes, c, from) || position(nodes, c, from) == nodes.len(),
        position(nodes, c, from) < nodes.len() ==> nodes[position(nodes, c, from)] == c,
        position(nodes, c, from) <= nodes.len(),
    decreases nodes.len() - from,
{
    if from < nodes.len() && nodes[from] != c {
        lemma_position(nodes, c, from + 1);
    }
}

/// Each edge that leaves the node at `a` stands for a corridor: a grid
/// walk from `a` to the node the edge leads to, of as many steps as the
/// edge weighs.
pub proof fn lemma_edge_walk(
    g: Cells,
    directed: bool,
    start: Coordinate,
    end: Coordinate,
    a: Coordinate,
    upto: int,
    k: int,
) -> (w: Seq<Coordinate>)
    requires
        rectangular(g),
        0 <= upto <= 4,
        0 <= k < edges_upto(g, directed, start, end, a, upto).len(),
    ensures
        ({
            let e = edges_upto(g, directed, start, end, a, upto)[k];
            let nodes = node_list(g, start, end);
            e.to < nodes.len() && walk_between(g, directed, a, nodes[e.to as int], e.weight as int, w)
        }),
    decreases upto,
{
    let before = edges_upto(g, directed, start, end, a, upto - 1);
    if k < before.len() {
        let w = lemma_edge_walk(g, directed, start, end, a, upto - 1, k);
        assert(edges_upto(g, directed, start, end, a, upto)[k] == before[k]);
        w
    } else {
        let d = Direction::spec_from_index(upto - 1);
        let nodes = node_list(g, start, end);
        let all = edges_upto(g, directed, start, end, a, upto);
        assert(corridor_from(g, directed, start, end, a, d) is Some);
        let (b, n) = corridor_from(g, directed, start, end, a, d)->Some_0;
        let w = lemma_corridor_walk(g, directed, start, end, a, d);
        lemma_position(nodes, b, 0);
        lemma_area(width_of(g), height_of(g));
        let at = position(nodes, b, 0);
        assert(at < nodes.len());
        assert(all == before.push(Edge { to: at as usize, weight: n as u64 }));
        assert(k == before.len());
        assert(all[k] == Edge { to: at as usize, weight: n as u64 });
        lemma_node_count(g, start, end);
        assert(nodes[at] == b);
        w
    }
}

/// The sum of the weights of the edges along a path of the contracted
/// graph is the number of steps of a walk on the grid that joins the same
/// two nodes.
pub proof fn lemma_path_walk(
    g: Cells,
    directed: bool,
    start: Coordinate,
    end: Coordinate,
    avoid: Seq<usize>,
    from: int,
    ks: Seq<int>,
    to: int,
) -> (w: Seq<Coordinate>)
    requires
        rectangular(g),
        simple_path(contracted(g, directed, start, end), avoid, from, ks, to),
    ensures
        walk_between(
            g,
            directed,
            node_list(g, start, end)[from],
            node_list(g, start, end)[to],
            path_weight(contracted(g, directed, start, end), from, ks),
            w,
        ),
    decreases ks.len(),
{
    let adj = contracted(g, directed, start, end);
    let nodes = node_list(g, start, end);
    if ks.len() == 0 {
        seq![nodes[from]]
    } else {
        let e = adj[from][ks[0]];
        let first = lemma_edge_walk(g, directed, start, end, nodes[from], 4, ks[0]);
        let rest = lemma_path_walk(
            g,
            directed,
            start,
            end,
            avoid.push(from as usize),
            e.to as int,
            ks.drop_first(),
            to,
        );
        lemma_join_walks(g, directed, first, rest);
        first + rest.drop_first()
    }
}

/// The direction in which a slope cell holding `b` may be entered.
pub fn slope(b: u8) -> (r: Option<Direction>)
    ensures
        r == slope_of(b),
{
    if b == 94 {
        Some(Direction::North)
    } else if b == 62 {
        Some(Direction::East)
    } else if b == 118 {
        Some(Direction::South)
    } else if b == 60 {
        Some(Direction::West)
    } else {
        None
    }
}

/// The cell one step in direction `d` from `c`, where that step is
/// allowed.
pub fn enter(grid: &Grid, directed: bool, c: Coordinate, d: Direction) -> (r: Option<Coordinate>)
    ensures
        r is Some <==> enterable(grid@, directed, c, d),
        r is Some ==> r->Some_0 == shifted(c, d),
{
    match grid.neighbor(c, d) {
        None => None,
        Some(n) => {
            match grid.get(n) {
                None => None,
                Some(b) => {
                    if b == crate::grid::WALL {
                        None
                    } else if directed {
                        match slope(b) {
                            Some(s) => if s == d {
                                Some(n)
                            } else {
                                None
                            },
                            None => Some(n),
                        }
                    } else {
                        Some(n)
                    }
                },
            }
        },
    }
}

/// The cells that may be entered from `coords`, each with the direction
/// of the step, in the order north, east, south, west.
pub fn get_adjacent(grid: &Grid, coords: Coordinate, directed: bool) -> (r: Vec<
    (Direction, Coordinate),
>)
    ensures
        forall|d: Direction|
            enterable(grid@, directed, coords, d) <==> #[trigger] r@.contains((d, shifted(coords, d))),
        forall|i: int| 0 <= i < r@.len() ==> (#[trigger] r@[i]).1 == shifted(coords, r@[i].0),
        forall|i: int, j: int| 0 <= i < j < r@.len() ==> r@[i].0.spec_index() < r@[j].0.spec_index(),
{
    let mut out: Vec<(Direction, Coordinate)> = Vec::new();
    let mut i: usize = 0;
    while i < 4
        invariant
            i <= 4,
            forall|d: Direction|
                (enterable(grid@, directed, coords, d) && d.spec_index() < i) <==> #[trigger] out@.contains(
                    (d, shifted(coords, d)),
                ),
            forall|k: int|
                0 <= k < out@.len() ==> (#[trigger] out@[k]).1 == shifted(coords, out@[k].0)
                    && out@[k].0.spec_index() < i,
            forall|a: int, b: int|
                0 <= a < b < out@.len() ==> out@[a].0.spec_index() < out@[b].0.spec_index(),
        decreases 4 - i,
    {
        let d = Direction::from_index(i);
        let ghost before = out@;
        match enter(grid, directed, coords, d) {
            Some(n) => {
                out.push((d, n));
                proof {
                    assert forall|e: Direction|
                        (enterable(grid@, directed, coords, e) && e.spec_index() < i + 1)
                            <==> #[trigger] out@.contains((e, shifted(coords, e))) by {
                        let item = (e, shifted(coords, e));
                        if out@.contains(item) {
                            let k = choose|k: int| 0 <= k < out@.len() && out@[k] == item;
                            if k < before.len() {
                                assert(before.contains(item));
                            }
                        }
                        if enterable(grid@, directed, coords, e) && e.spec_index() < i + 1 {
                            if e.spec_index() < i {
                                assert(before.contains(item));
                                let k = choose|k: int| 0 <= k < before.len() && before[k] == item;
                                assert(out@[k] == item);
                            } else {
                                assert(e == d);
                                assert(out@[before.len() as int] == item);
                            }
                        }
                    }
                }
            },
            None => {
                proof {
                    assert forall|e: Direction|
                        (enterable(grid@, directed, coords, e) && e.spec_index() < i + 1)
                            <==> #[trigger] out@.contains((e, shifted(coords, e))) by {
                        if e.spec_index() == i {
                            assert(e == d);
                        }
                    }
                }
            },
        }
        i += 1;
    }
    out
}

/// Whether the cell at `c` is a junction.
pub fn junction_at(grid: &Grid, c: Coordinate) -> (r: bool)
    ensures
        r == is_junction(grid@, c),
{
    grid.is_passable(c) && grid.passable_neighbors4(c).len() > 2
}

/// Whether the cell at `c` is a node of the contracted graph.
pub fn node_at(grid: &Grid, start: Coordinate, end: Coordinate, c: Coordinate) -> (r: bool)
    ensures
        r == is_node(grid@, start, end, c),
{
    c == start || c == end || junction_at(grid, c)
}

/// The nodes of the contracted graph, in the order in which it numbers
/// them.
pub fn get_junction_coords(grid: &Grid, start: Coordinate, end: Coordinate) -> (r: Vec<Coordinate>)
    ensures
        r@ == node_list(grid@, start, end),
{
    let w = grid.width();
    let h = grid.height();
    let mut out: Vec<Coordinate> = Vec::new();
    out.push(start);
    if !(end == start) {
        out.push(end);
    }
    let ghost terminals = out@;
    assert(out@ =~= terminals + grid_junctions(grid@, start, end, 0));
    let mut y: usize = 0;
    while y < h
        invariant
            y <= h,
            h == height_of(grid@),
            w == width_of(grid@),
            out@ == terminals + grid_junctions(grid@, start, end, y as int),
        decreases h - y,
    {
        let ghost rows_before = grid_junctions(grid@, start, end, y as int);
        assert(out@ =~= terminals + rows_before + row_junctions(grid@, start, end, y as int, 0));
        let mut x: usize = 0;
        while x < w
            invariant
                x <= w,
                y < h,
                out@ == terminals + rows_before + row_junctions(grid@, start, end, y as int, x as int),
            decreases w - x,
        {
            let c = Coordinate { x, y };
            let ghost row_before = row_junctions(grid@, start, end, y as int, x as int);
            if junction_at(grid, c) && !(c == start) && !(c == end) {
                out.push(c);
                assert(out@ =~= terminals + rows_before + row_before.push(c));
            }
            x += 1;
        }
        assert(out@ =~= terminals + (rows_before + row_junctions(
            grid@,
            start,
            end,
            y as int,
            w as int,
        )));
        y += 1;
    }
    out
}

/// Where the walker goes from `cur`, having come from `prev`.
fn go_on(grid: &Grid, directed: bool, prev: Coordinate, cur: Coordinate) -> (r: Option<Coordinate>)
    ensures
        r == onward(grid@, directed, prev, cur),
{
    let mut i: usize = 0;
    while i < 4
        invariant
            i <= 4,
            blocked_upto(grid@, directed, prev, cur, i as int),
        decreases 4 - i,
    {
        let d = Direction::from_index(i);
        match enter(grid, directed, cur, d) {
            Some(n) => {
                if !(n == prev) {
                    proof {
                        assert(may_go_on(grid@, directed, prev, cur, d));
                        assert(forall|k: int|
                            0 <= k < i ==> !may_go_on(
                                grid@,
                                directed,
                                prev,
                                cur,
                                #[trigger] Direction::spec_from_index(k),
                            ));
                        if i >= 1 {
                            assert(Direction::spec_from_index(0) == Direction::North);
                        }
                        if i >= 2 {
                            assert(Direction::spec_from_index(1) == Direction::East);
                        }
                        if i >= 3 {
                            assert(Direction::spec_from_index(2) == Direction::South);
                        }
                    }
                    return Some(n);
                }
            },
            None => {},
        }
        i += 1;
    }
    proof {
        assert(Direction::spec_from_index(0) == Direction::North);
        assert(Direction::spec_from_index(1) == Direction::East);
        assert(Direction::spec_from_index(2) == Direction::South);
        assert(Direction::spec_from_index(3) == Direction::West);
    }
    None
}

/// The product of two side lengths stays below the largest edge weight.
proof fn lemma_area(w: int, h: int)
    requires
        1 <= w <= MAX_DIM,
        1 <= h <= MAX_DIM,
    ensures
        1 <= w * h <= 65535 * 65535,
{
    assert(w * h <= 65535 * 65535) by (nonlinear_arith)
        requires
            1 <= w <= 65535,
            1 <= h <= 65535,
    ;
    assert(1 <= w * h) by (nonlinear_arith)
        requires
            1 <= w,
            1 <= h,
    ;
}

/// Follows the corridor that leaves node `a` in direction `d`: the node
/// it leads to and its length in steps, or `None` where `d` may not be
/// entered or the corridor is a dead end.
pub fn walk_corridor(
    grid: &Grid,
    directed: bool,
    start: Coordinate,
    end: Coordinate,
    a: Coordinate,
    d: Direction,
) -> (r: Option<(Coordinate, u64)>)
    ensures
        match r {
            Some((b, w)) => corridor_from(grid@, directed, start, end, a, d) == Some((b, w as nat))
                && 1 <= w <= MAX_WEIGHT,
            None => corridor_from(grid@, directed, start, end, a, d) is None,
        },
{
    let w = grid.width() as u64;
    let h = grid.height() as u64;
    proof {
        lemma_area(w as int, h as int);
    }
    let area: u64 = w * h;
    match enter(grid, directed, a, d) {
        None => None,
        Some(first) => {
            let mut prev = a;
            let mut cur = first;
            let mut steps: u64 = 1;
            let mut fuel: u64 = area;
            loop
                invariant
                    steps + fuel == area + 1,
                    1 <= steps,
                    area <= 65535 * 65535,
                    corridor_from(grid@, directed, start, end, a, d) == trail(
                        grid@,
                        directed,
                        start,
                        end,
                        prev,
                        cur,
                        steps as nat,
                        fuel as nat,
                    ),
                decreases fuel,
            {
                if node_at(grid, start, end, cur) {
                    return Some((cur, steps));
                }
                if fuel == 0 {
                    return None;
                }
                match go_on(grid, directed, prev, cur) {
                    None => {
                        return None;
                    },
                    Some(nxt) => {
                        prev = cur;
                        cur = nxt;
                        steps = steps + 1;
                        fuel = fuel - 1;
                    },
                }
            }
        },
    }
}

/// The first position at which `c` stands in `nodes`, or `None`.
pub fn find_node(nodes: &Vec<Coordinate>, c: Coordinate) -> (r: Option<usize>)
    ensures
        match r {
            Some(i) => i == position(nodes@, c, 0) && i < nodes@.len(),
            None => position(nodes@, c, 0) >= nodes@.len(),
        },
{
    let mut i: usize = 0;
    while i < nodes.len()
        invariant
            i <= nodes@.len(),
            position(nodes@, c, 0) == position(nodes@, c, i as int),
        decreases nodes@.len() - i,
    {
        if nodes[i] == c {
            return Some(i);
        }
        i += 1;
    }
    None
}

/// A row holds at most as many junctions as columns were scanned.
proof fn lemma_row_junctions_len(g: Cells, start: Coordinate, end: Coordinate, y: int, upto: int)
    requires
        0 <= upto,
    ensures
        row_junctions(g, start, end, y, upto).len() <= upto,
    decreases upto,
{
    if upto > 0 {
        lemma_row_junctions_len(g, start, end, y, upto - 1);
    }
}

/// The rows scanned hold at most as many junctions as they have cells.
proof fn lemma_grid_junctions_len(g: Cells, start: Coordinate, end: Coordinate, upto: int)
    requires
        0 <= upto,
        0 <= width_of(g),
    ensures
        grid_junctions(g, start, end, upto).len() <= upto * width_of(g),
    decreases upto,
{
    if upto > 0 {
        lemma_grid_junctions_len(g, start, end, upto - 1);
        lemma_row_junctions_len(g, start, end, upto - 1, width_of(g));
        assert((upto - 1) * width_of(g) + width_of(g) == upto * width_of(g)) by (nonlinear_arith);
    }
}

/// The contracted graph has fewer nodes than a number can count.
pub proof fn lemma_node_count_bound(g: Cells, start: Coordinate, end: Coordinate)
    requires
        rectangular(g),
    ensures
        node_list(g, start, end).len() <= MAX_NODES,
{
    lemma_node_count(g, start, end);
}

/// The contracted graph has fewer nodes than a number can count.
proof fn lemma_node_count(g: Cells, start: Coordinate, end: Coordinate)
    requires
        rectangular(g),
    ensures
        node_list(g, start, end).len() <= MAX_NODES,
{
    lemma_grid_junctions_len(g, start, end, height_of(g));
    lemma_area(width_of(g), height_of(g));
    assert(height_of(g) * width_of(g) == width_of(g) * height_of(g)) by (nonlinear_arith);
}

/// The edges that leave the node at `a`.
fn edges_of(
    grid: &Grid,
    directed: bool,
    start: Coordinate,
    end: Coordinate,
    nodes: &Vec<Coordinate>,
    a: Coordinate,
) -> (r: Vec<Edge>)
    requires
        nodes@ == node_list(grid@, start, end),
    ensures
        r@ == edges_upto(grid@, directed, start, end, a, 4),
        forall|k: int|
            0 <= k < r@.len() ==> (#[trigger] r@[k]).to < nodes@.len() && r@[k].weight <= MAX_WEIGHT,
{
    let mut out: Vec<Edge> = Vec::new();
    let mut i: usize = 0;
    while i < 4
        invariant
            i <= 4,
            nodes@ == node_list(grid@, start, end),
            out@ == edges_upto(grid@, directed, start, end, a, i as int),
            forall|k: int|
                0 <= k < out@.len() ==> (#[trigger] out@[k]).to < nodes@.len() && out@[k].weight
                    <= MAX_WEIGHT,
        decreases 4 - i,
    {
        let d = Direction::from_index(i);
        match walk_corridor(grid, directed, start, end, a, d) {
            Some((b, w)) => {
                match find_node(nodes, b) {
                    Some(to) => {
                        out.push(Edge { to, weight: w });
                    },
                    None => {},
                }
            },
            None => {},
        }
        i += 1;
    }
    out
}

/// Contracts the corridors of `grid` into a graph whose nodes are `start`,
/// `end` and every junction, with one edge for each corridor that joins
/// two nodes, weighted by the corridor's length in steps. Where slopes
/// count (`directed`), a corridor yields an edge only in the direction in
/// which it can be walked.
pub fn get_simple_graph(grid: &Grid, start: Coordinate, end: Coordinate, directed: bool) -> (r:
    JunctionGraph)
    ensures
        r.nodes() == node_list(grid@, start, end),
        r.adjacency() == contracted(grid@, directed, start, end),
        r.inv(),
{
    let nodes = get_junction_coords(grid, start, end);
    let n = nodes.len();
    proof {
        use_type_invariant(grid);
        grid.lemma_rectangular();
        lemma_grid_junctions_len(grid@, start, end, height_of(grid@));
        lemma_area(width_of(grid@), height_of(grid@));
        assert(height_of(grid@) * width_of(grid@) == width_of(grid@) * height_of(grid@))
            by (nonlinear_arith);
    }
    let mut adj: Vec<Vec<Edge>> = Vec::new();
    let mut a: usize = 0;
    while a < n
        invariant
            a <= n,
            n == nodes@.len(),
            n <= MAX_NODES,
            nodes@ == node_list(grid@, start, end),
            adj@.len() == a,
            forall|i: int|
                0 <= i < a ==> (#[trigger] adj@[i])@ == edges_upto(
                    grid@,
                    directed,
                    start,
                    end,
                    nodes@[i],
                    4,
                ),
            forall|i: int, k: int|
                0 <= i < a && 0 <= k < adj@[i]@.len() ==> (#[trigger] adj@[i]@[k]).to < n
                    && adj@[i]@[k].weight <= MAX_WEIGHT,
        decreases n - a,
    {
        let es = edges_of(grid, directed, start, end, &nodes, nodes[a]);
        adj.push(es);
        a += 1;
    }
    proof {
        let model = contracted(grid@, directed, start, end);
        assert(adj.deep_view().len() == model.len());
        assert forall|i: int| 0 <= i < model.len() implies adj.deep_view()[i] == model[i] by {
            assert(adj.deep_view()[i] =~= adj@[i]@);
        }
        assert(adj.deep_view() =~= model);
        assert forall|i: int, k: int|
            0 <= i < adj.deep_view().len() && 0 <= k < adj.deep_view()[i].len() implies {
            &&& (#[trigger] adj.deep_view()[i][k]).to < adj.deep_view().len()
            &&& adj.deep_view()[i][k].weight <= MAX_WEIGHT
        } by {
            assert(adj.deep_view()[i] =~= adj@[i]@);
            assert(adj@[i]@[k].to < n);
        }
    }
    let g = JunctionGraph::assemble(nodes, adj);
    proof {
        assert(g.inv()) by {
            g.lemma_assembled();
        }
    }
    g
}

/// The number of the node that stands for `end`.
pub open spec fn end_node(start: Coordinate, end: Coordinate) -> int {
    if start == end {
        0
    } else {
        1
    }
}

/// What the search for the longest walk from `start` to `end` may yield:
/// the weight of a heaviest simple path through the contracted graph, or
/// that there is none. Both terminals must be passable cells.
pub open spec fn longest_trail(
    g: Cells,
    directed: bool,
    start: Coordinate,
    end: Coordinate,
    r: Result<u64, SearchError>,
) -> bool {
    if passable(g, start.x as int, start.y as int) && passable(g, end.x as int, end.y as int) {
        match r {
            Ok(m) => is_longest(
                contracted(g, directed, start, end),
                Seq::empty(),
                0,
                end_node(start, end),
                m as int,
            ),
            Err(e) => e == SearchError::NoPathFound && no_simple_path(
                contracted(g, directed, start, end),
                Seq::empty(),
                0,
                end_node(start, end),
            ),
        }
    } else {
        r == Err::<u64, SearchError>(SearchError::NoPathFound)
    }
}

/// The number of steps of a longest walk from `start` to `end` that
/// enters no cell twice. Where `directed` is set, a slope is entered only
/// in the direction it points. The walk is sought as the heaviest simple
/// path through the contracted graph.
pub fn longest_simple_path(grid: &Grid, start: Coordinate, end: Coordinate, directed: bool) -> (r:
    Result<u64, SearchError>)
    ensures
        crate::corridors::longest_walk(grid@, directed, start, end, r),
        longest_trail(grid@, directed, start, end, r),
{
    proof {
        use_type_invariant(grid);
        grid.lemma_rectangular();
    }
    if !grid.is_passable(start) || !grid.is_passable(end) {
        return Err(SearchError::NoPathFound);
    }
    let graph = get_simple_graph(grid, start, end, directed);
    let target: usize = if start == end {
        0
    } else {
        1
    };
    let r = match graph.longest_path(0, target) {
        Some(m) => Ok(m),
        None => Err(SearchError::NoPathFound),
    };
    proof {
        crate::corridors::lemma_longest_walk(grid@, directed, start, end, r);
    }
    r
}

} // verus!
