//! Why the contracted graph says the same as the trail map: every walk
//! on the grid between two nodes is a path of the graph of equal length.

use crate::graph::{
    lemma_distinct_bounded, lemma_prepend_edge, no_simple_path, path_weight, simple_path, Edge,
};
use crate::grid::{
    height_of, in_bounds, open_neighbors, open_neighbors_upto, open_towards, passable,
    rectangular, shifted, width_of, Cells, Coordinate, Direction,
};
use crate::trails::{
    contracted, corridor_from, edges_upto, enterable, grid_junctions, grid_walk, is_junction,
    is_node, lemma_position, may_go_on, node_list, onward, position, row_junctions, trail,
    trail_step,
};
use vstd::arithmetic::mul::{lemma_mul_inequality, lemma_mul_is_commutative};
use vstd::prelude::*;

verus! {

/// No cell occurs twice in `w`.
pub open spec fn distinct_cells(w: Seq<Coordinate>) -> bool {
    forall|a: int, b: int| 0 <= a < b < w.len() ==> w[a] != w[b]
}

/// Every cell of a grid walk but the first was entered by an allowed
/// step, so it is passable and lies next to the cell before it.
pub proof fn lemma_walk_cell(g: Cells, directed: bool, w: Seq<Coordinate>, i: int) -> (d: Direction)
    requires
        rectangular(g),
        grid_walk(g, directed, w),
        1 <= i < w.len(),
    ensures
        enterable(g, directed, w[i - 1], d),
        w[i] == shifted(w[i - 1], d),
        w[i].x == w[i - 1].x + d.dx(),
        w[i].y == w[i - 1].y + d.dy(),
        passable(g, w[i].x as int, w[i].y as int),
{
    assert(trail_step(g, directed, w[i - 1], w[i]));
    choose|d: Direction| #[trigger] enterable(g, directed, w[i - 1], d) && w[i] == shifted(w[i - 1], d)
}

/// Every grid walk contains a walk between the same two cells that enters
/// no cell twice.
pub proof fn lemma_simplify_walk(g: Cells, directed: bool, w: Seq<Coordinate>) -> (s: Seq<
    Coordinate,
>)
    requires
        grid_walk(g, directed, w),
    ensures
        grid_walk(g, directed, s),
        s[0] == w[0],
        s.last() == w.last(),
        s.len() <= w.len(),
        distinct_cells(s),
        distinct_cells(w) ==> s == w,
    decreases w.len(),
{
    if distinct_cells(w) {
        w
    } else {
        let (a, b) = choose|a: int, b: int| 0 <= a < b < w.len() && w[a] == w[b];
        let n = w.len() as int;
        let cut = w.subrange(0, a + 1) + w.subrange(b + 1, n);
        assert forall|i: int| 1 <= i < cut.len() implies trail_step(
            g,
            directed,
            cut[i - 1],
            #[trigger] cut[i],
        ) by {
            if i <= a {
                assert(trail_step(g, directed, w[i - 1], w[i]));
            } else {
                let k = i - (a + 1) + (b + 1);
                assert(cut[i] == w[k]);
                assert(cut[i - 1] == w[k - 1]) by {
                    if i == a + 1 {
                        assert(cut[i - 1] == w[a]);
                    } else {
                        assert(cut[i - 1] == w[k - 1]);
                    }
                }
                assert(trail_step(g, directed, w[k - 1], w[k]));
            }
        }
        assert(cut.last() == w.last()) by {
            if b == n - 1 {
                assert(cut.last() == w[a]);
            }
        }
        lemma_simplify_walk(g, directed, cut)
    }
}

/// A walk that enters no cell twice has at most as many cells as the
/// grid.
pub proof fn lemma_simple_walk_short(g: Cells, directed: bool, w: Seq<Coordinate>)
    requires
        rectangular(g),
        grid_walk(g, directed, w),
        in_bounds(g, w[0].x as int, w[0].y as int),
        distinct_cells(w),
    ensures
        w.len() <= width_of(g) * height_of(g),
{
    let wd = width_of(g);
    let ht = height_of(g);
    assert forall|i: int| 0 <= i < w.len() implies in_bounds(g, w[i].x as int, w[i].y as int) by {
        if i >= 1 {
            lemma_walk_cell(g, directed, w, i);
        }
    }
    let idx = Seq::new(w.len(), |i: int| (w[i].y * wd + w[i].x) as usize);
    assert forall|i: int| 0 <= i < idx.len() implies idx[i] < wd * ht && idx[i] == w[i].y * wd
        + w[i].x by {
        let y = w[i].y as int;
        let x = w[i].x as int;
        assert(in_bounds(g, x, y));
        lemma_mul_inequality(y + 1, ht, wd);
        assert((y + 1) * wd == y * wd + wd) by (nonlinear_arith);
        lemma_mul_is_commutative(ht, wd);
        assert(0 <= y * wd) by (nonlinear_arith)
            requires
                0 <= y,
                0 <= wd,
        ;
        assert(wd * ht <= 65535 * 65535) by (nonlinear_arith)
            requires
                0 <= wd <= 65535,
                0 <= ht <= 65535,
        ;
    }
    assert forall|a: int, b: int| 0 <= a < idx.len() && 0 <= b < idx.len() && a != b implies idx[a]
        != idx[b] by {
        let (ya, xa) = (w[a].y as int, w[a].x as int);
        let (yb, xb) = (w[b].y as int, w[b].x as int);
        assert(in_bounds(g, xa, ya) && in_bounds(g, xb, yb));
        if a < b {
            assert(w[a] != w[b]);
        } else {
            assert(w[b] != w[a]);
        }
        if ya < yb {
            lemma_mul_inequality(ya + 1, yb, wd);
            assert((ya + 1) * wd == ya * wd + wd) by (nonlinear_arith);
        } else if yb < ya {
            lemma_mul_inequality(yb + 1, ya, wd);
            assert((yb + 1) * wd == yb * wd + wd) by (nonlinear_arith);
        }
    }
    lemma_distinct_bounded(idx, (wd * ht) as nat);
}

/// One for an open side, zero for a closed one.
pub open spec fn open_bit(g: Cells, c: Coordinate, d: Direction) -> int {
    if open_towards(g, c, d) {
        1
    } else {
        0
    }
}

/// The passable neighbours of a cell are as many as its open sides.
pub proof fn lemma_open_count(g: Cells, c: Coordinate)
    ensures
        open_neighbors(g, c).len() == open_bit(g, c, Direction::North) + open_bit(
            g,
            c,
            Direction::East,
        ) + open_bit(g, c, Direction::South) + open_bit(g, c, Direction::West),
{
    assert(open_neighbors_upto(g, c, 0).len() == 0);
    assert(Direction::spec_from_index(0) == Direction::North);
    assert(open_neighbors_upto(g, c, 1).len() == open_bit(g, c, Direction::North));
    assert(Direction::spec_from_index(1) == Direction::East);
    assert(open_neighbors_upto(g, c, 2).len() == open_neighbors_upto(g, c, 1).len() + open_bit(
        g,
        c,
        Direction::East,
    ));
    assert(Direction::spec_from_index(2) == Direction::South);
    assert(open_neighbors_upto(g, c, 3).len() == open_neighbors_upto(g, c, 2).len() + open_bit(
        g,
        c,
        Direction::South,
    ));
    assert(Direction::spec_from_index(3) == Direction::West);
    assert(open_neighbors_upto(g, c, 4).len() == open_neighbors_upto(g, c, 3).len() + open_bit(
        g,
        c,
        Direction::West,
    ));
}

/// A passable cell with three open sides is a junction.
pub proof fn lemma_three_open(g: Cells, c: Coordinate, d1: Direction, d2: Direction, d3: Direction)
    requires
        passable(g, c.x as int, c.y as int),
        d1 != d2,
        d1 != d3,
        d2 != d3,
        open_towards(g, c, d1),
        open_towards(g, c, d2),
        open_towards(g, c, d3),
    ensures
        is_junction(g, c),
{
    lemma_open_count(g, c);
}

/// On a cell that is no junction, a walker who neither turns back nor
/// stops has one way to go.
pub proof fn lemma_onward_unique(
    g: Cells,
    directed: bool,
    prev: Coordinate,
    cur: Coordinate,
    nxt: Coordinate,
    d_in: Direction,
    d_out: Direction,
)
    requires
        rectangular(g),
        passable(g, prev.x as int, prev.y as int),
        enterable(g, directed, prev, d_in),
        cur == shifted(prev, d_in),
        !is_junction(g, cur),
        enterable(g, directed, cur, d_out),
        nxt == shifted(cur, d_out),
        nxt != prev,
    ensures
        onward(g, directed, prev, cur) == Some(nxt),
{
    let d_back = d_in.spec_opposite();
    assert(cur.x == prev.x + d_in.dx() && cur.y == prev.y + d_in.dy());
    assert(shifted(cur, d_back) == prev);
    assert(open_towards(g, cur, d_back));
    assert(open_towards(g, cur, d_out));
    assert(nxt.x == cur.x + d_out.dx() && nxt.y == cur.y + d_out.dy());
    assert(d_out != d_back);
    assert forall|d: Direction| may_go_on(g, directed, prev, cur, d) implies d == d_out by {
        if d != d_out {
            assert(d != d_back);
            assert(open_towards(g, cur, d));
            lemma_three_open(g, cur, d_back, d_out, d);
        }
    }
    assert(may_go_on(g, directed, prev, cur, d_out));
}

/// Along a walk that enters no cell twice, following the corridor from
/// one of its cells leads to the next node on the walk, in as many steps
/// as the walk takes.
pub proof fn lemma_trail_follows(
    g: Cells,
    directed: bool,
    start: Coordinate,
    end: Coordinate,
    w: Seq<Coordinate>,
    i: int,
    j: int,
    steps: nat,
    fuel: nat,
)
    requires
        rectangular(g),
        grid_walk(g, directed, w),
        distinct_cells(w),
        passable(g, w[0].x as int, w[0].y as int),
        1 <= i <= j < w.len(),
        forall|m: int| i <= m < j ==> !is_node(g, start, end, #[trigger] w[m]),
        is_node(g, start, end, w[j]),
        fuel >= j - i,
    ensures
        trail(g, directed, start, end, w[i - 1], w[i], steps, fuel) == Some(
            (w[j], (steps + (j - i)) as nat),
        ),
    decreases j - i,
{
    if i < j {
        assert(!is_node(g, start, end, w[i]));
        let d_in = lemma_walk_cell(g, directed, w, i);
        let d_out = lemma_walk_cell(g, directed, w, i + 1);
        if i >= 2 {
            lemma_walk_cell(g, directed, w, i - 1);
        }
        assert(w[i - 1] != w[i + 1]);
        lemma_onward_unique(g, directed, w[i - 1], w[i], w[i + 1], d_in, d_out);
        lemma_trail_follows(g, directed, start, end, w, i + 1, j, steps + 1, (fuel - 1) as nat);
    }
}

/// Where `c` stands at position `k` of `nodes`, its first position from
/// `from <= k` on is at most `k`.
pub proof fn lemma_position_found(nodes: Seq<Coordinate>, c: Coordinate, from: int, k: int)
    requires
        0 <= from <= k < nodes.len(),
        nodes[k] == c,
    ensures
        from <= position(nodes, c, from) <= k,
        nodes[position(nodes, c, from)] == c,
    decreases k - from,
{
    if nodes[from] != c {
        lemma_position_found(nodes, c, from + 1, k);
    }
}

/// A junction that is no terminal is listed among the junctions of its
/// row.
proof fn lemma_row_lists(g: Cells, start: Coordinate, end: Coordinate, c: Coordinate, upto: int)
    requires
        is_junction(g, c),
        c != start,
        c != end,
        c.x < upto,
    ensures
        row_junctions(g, start, end, c.y as int, upto).contains(c),
    decreases upto,
{
    let here = row_junctions(g, start, end, c.y as int, upto);
    let before = row_junctions(g, start, end, c.y as int, upto - 1);
    if c.x == upto - 1 {
        assert(Coordinate { x: (upto - 1) as usize, y: (c.y as int) as usize } == c);
        assert(here == before.push(c));
        assert(here[before.len() as int] == c);
    } else {
        lemma_row_lists(g, start, end, c, upto - 1);
        let k = choose|k: int| 0 <= k < before.len() && before[k] == c;
        assert(here[k] == c);
    }
}

/// A junction that is no terminal is listed among the junctions of the
/// grid.
proof fn lemma_grid_lists(g: Cells, start: Coordinate, end: Coordinate, c: Coordinate, upto: int)
    requires
        is_junction(g, c),
        c != start,
        c != end,
        c.x < width_of(g),
        c.y < upto,
    ensures
        grid_junctions(g, start, end, upto).contains(c),
    decreases upto,
{
    let before = grid_junctions(g, start, end, upto - 1);
    let row = row_junctions(g, start, end, upto - 1, width_of(g));
    let here = grid_junctions(g, start, end, upto);
    assert(here == before + row);
    if c.y == upto - 1 {
        lemma_row_lists(g, start, end, c, width_of(g));
        let k = choose|k: int| 0 <= k < row.len() && row[k] == c;
        assert(here[before.len() + k] == c);
    } else {
        lemma_grid_lists(g, start, end, c, upto - 1);
        let k = choose|k: int| 0 <= k < before.len() && before[k] == c;
        assert(here[k] == c);
    }
}

/// Every node on the grid has a number in the contracted graph.
pub proof fn lemma_node_listed(g: Cells, start: Coordinate, end: Coordinate, c: Coordinate)
    requires
        in_bounds(g, c.x as int, c.y as int),
        is_node(g, start, end, c),
    ensures
        0 <= position(node_list(g, start, end), c, 0) < node_list(g, start, end).len(),
        node_list(g, start, end)[position(node_list(g, start, end), c, 0)] == c,
        c == start ==> position(node_list(g, start, end), c, 0) == 0,
        c == end && c != start ==> position(node_list(g, start, end), c, 0) == 1,
{
    let nodes = node_list(g, start, end);
    let terminals = if start == end {
        seq![start]
    } else {
        seq![start, end]
    };
    let rest = grid_junctions(g, start, end, height_of(g));
    assert(nodes == terminals + rest);
    if c == start {
        assert(nodes[0] == c);
        lemma_position_found(nodes, c, 0, 0);
    } else if c == end {
        assert(nodes[1] == c);
        lemma_position_found(nodes, c, 0, 1);
    } else {
        lemma_grid_lists(g, start, end, c, height_of(g));
        let k = choose|k: int| 0 <= k < rest.len() && rest[k] == c;
        assert(nodes[terminals.len() + k] == c);
        lemma_position_found(nodes, c, 0, terminals.len() + k);
    }
}

/// A corridor that leaves a node towards a listed node is an edge of the
/// contracted graph.
pub proof fn lemma_edge_listed(
    g: Cells,
    directed: bool,
    start: Coordinate,
    end: Coordinate,
    a: Coordinate,
    upto: int,
    d: Direction,
) -> (k: int)
    requires
        0 <= d.spec_index() < upto <= 4,
        corridor_from(g, directed, start, end, a, d) is Some,
        position(
            node_list(g, start, end),
            corridor_from(g, directed, start, end, a, d)->Some_0.0,
            0,
        ) < node_list(g, start, end).len(),
    ensures
        0 <= k < edges_upto(g, directed, start, end, a, upto).len(),
        edges_upto(g, directed, start, end, a, upto)[k] == (Edge {
            to: position(
                node_list(g, start, end),
                corridor_from(g, directed, start, end, a, d)->Some_0.0,
                0,
            ) as usize,
            weight: corridor_from(g, directed, start, end, a, d)->Some_0.1 as u64,
        }),
    decreases upto,
{
    let before = edges_upto(g, directed, start, end, a, upto - 1);
    let here = edges_upto(g, directed, start, end, a, upto);
    if d.spec_index() == upto - 1 {
        assert(Direction::spec_from_index(upto - 1) == d);
        assert(here.len() == before.len() + 1);
        before.len() as int
    } else {
        let k = lemma_edge_listed(g, directed, start, end, a, upto - 1, d);
        assert(here[k] == before[k]);
        k
    }
}

/// The first node of `w` from position `from` on.
proof fn lemma_next_node(
    g: Cells,
    start: Coordinate,
    end: Coordinate,
    w: Seq<Coordinate>,
    from: int,
) -> (j: int)
    requires
        0 <= from < w.len(),
        is_node(g, start, end, w.last()),
    ensures
        from <= j < w.len(),
        is_node(g, start, end, w[j]),
        forall|m: int| from <= m < j ==> !is_node(g, start, end, #[trigger] w[m]),
    decreases w.len() - from,
{
    if is_node(g, start, end, w[from]) {
        from
    } else {
        lemma_next_node(g, start, end, w, from + 1)
    }
}

/// The first stretch of a walk that enters no cell twice, up to the next
/// node at position `j`, is an edge of the contracted graph.
proof fn lemma_first_edge(
    g: Cells,
    directed: bool,
    start: Coordinate,
    end: Coordinate,
    w: Seq<Coordinate>,
) -> (r: (int, int))
    requires
        rectangular(g),
        grid_walk(g, directed, w),
        distinct_cells(w),
        passable(g, w[0].x as int, w[0].y as int),
        is_node(g, start, end, w[0]),
        is_node(g, start, end, w.last()),
        w.len() >= 2,
    ensures
        ({
            let (j, k) = r;
            let nodes = node_list(g, start, end);
            let adj = contracted(g, directed, start, end);
            let iu = position(nodes, w[0], 0);
            &&& 1 <= j < w.len()
            &&& is_node(g, start, end, w[j])
            &&& passable(g, w[j].x as int, w[j].y as int)
            &&& 0 <= iu < adj.len()
            &&& 0 <= k < adj[iu].len()
            &&& adj[iu][k] == Edge { to: position(nodes, w[j], 0) as usize, weight: j as u64 }
            &&& 0 <= position(nodes, w[j], 0) < nodes.len()
            &&& j <= 4294836225
        }),
{
    let nodes = node_list(g, start, end);
    let adj = contracted(g, directed, start, end);
    let u = w[0];
    lemma_node_listed(g, start, end, u);
    let iu = position(nodes, u, 0);
    let j = lemma_next_node(g, start, end, w, 1);
    lemma_simple_walk_short(g, directed, w);
    let d1 = lemma_walk_cell(g, directed, w, 1);
    let fuel = (width_of(g) * height_of(g)) as nat;
    lemma_trail_follows(g, directed, start, end, w, 1, j, 1, fuel);
    assert(corridor_from(g, directed, start, end, u, d1) == Some((w[j], j as nat)));
    lemma_walk_cell(g, directed, w, j);
    lemma_node_listed(g, start, end, w[j]);
    let k = lemma_edge_listed(g, directed, start, end, u, 4, d1);
    assert(adj[iu] == edges_upto(g, directed, start, end, nodes[iu], 4));
    assert(width_of(g) * height_of(g) <= 4294836225) by (nonlinear_arith)
        requires
            0 <= width_of(g) <= 65535,
            0 <= height_of(g) <= 65535,
    ;
    (j, k)
}

/// What is left of a walk from position `j` on is a walk again, and
/// enters no cell twice if the whole did not.
proof fn lemma_rest_walk(g: Cells, directed: bool, w: Seq<Coordinate>, j: int)
    requires
        grid_walk(g, directed, w),
        distinct_cells(w),
        0 <= j < w.len(),
    ensures
        grid_walk(g, directed, w.subrange(j, w.len() as int)),
        distinct_cells(w.subrange(j, w.len() as int)),
        w.subrange(j, w.len() as int).last() == w.last(),
        w.subrange(j, w.len() as int)[0] == w[j],
{
    let rest = w.subrange(j, w.len() as int);
    assert forall|i: int| 1 <= i < rest.len() implies trail_step(
        g,
        directed,
        rest[i - 1],
        #[trigger] rest[i],
    ) by {
        assert(trail_step(g, directed, w[j + i - 1], w[j + i]));
    }
    assert forall|a: int, b: int| 0 <= a < b < rest.len() implies rest[a] != rest[b] by {
        assert(w[j + a] != w[j + b]);
    }
}

/// The numbers of the cells of a walk that enters no cell twice are not
/// the number of a node that the walk has left behind.
proof fn lemma_rest_avoids(
    g: Cells,
    start: Coordinate,
    end: Coordinate,
    w: Seq<Coordinate>,
    avoid: Seq<usize>,
    j: int,
)
    requires
        rectangular(g),
        distinct_cells(w),
        1 <= j < w.len(),
        0 <= position(node_list(g, start, end), w[0], 0) < node_list(g, start, end).len(),
        node_list(g, start, end)[position(node_list(g, start, end), w[0], 0)] == w[0],
        forall|i: int|
            0 <= i < w.len() ==> !avoid.contains(
                position(node_list(g, start, end), #[trigger] w[i], 0) as usize,
            ),
    ensures
        forall|i: int|
            0 <= i < w.len() - j ==> !avoid.push(
                position(node_list(g, start, end), w[0], 0) as usize,
            ).contains(
                position(
                    node_list(g, start, end),
                    #[trigger] w.subrange(j, w.len() as int)[i],
                    0,
                ) as usize,
            ),
{
    let nodes = node_list(g, start, end);
    let iu = position(nodes, w[0], 0);
    let inner = avoid.push(iu as usize);
    let rest = w.subrange(j, w.len() as int);
    crate::trails::lemma_node_count_bound(g, start, end);
    assert forall|i: int| 0 <= i < w.len() - j implies !inner.contains(
        position(nodes, #[trigger] rest[i], 0) as usize,
    ) by {
        let c = rest[i];
        assert(c == w[j + i]);
        assert(w[0] != w[j + i]);
        let ic = position(nodes, c, 0);
        lemma_position(nodes, c, 0);
        assert(!avoid.contains(ic as usize));
        if inner.contains(ic as usize) {
            let q = choose|q: int| 0 <= q < inner.len() && inner[q] == ic as usize;
            if q < avoid.len() {
                assert(avoid[q] == ic as usize);
                assert(avoid.contains(ic as usize));
            }
            assert(ic == iu);
        }
    }
}

/// What the walk `w` must fulfil to be turned into a path that avoids the
/// nodes numbered in `avoid`.
#[verifier::opaque]
pub open spec fn walk_ready(
    g: Cells,
    directed: bool,
    start: Coordinate,
    end: Coordinate,
    w: Seq<Coordinate>,
    avoid: Seq<usize>,
) -> bool {
    &&& rectangular(g)
    &&& grid_walk(g, directed, w)
    &&& distinct_cells(w)
    &&& passable(g, w[0].x as int, w[0].y as int)
    &&& is_node(g, start, end, w[0])
    &&& is_node(g, start, end, w.last())
    &&& forall|i: int|
        0 <= i < w.len() ==> !avoid.contains(
            position(node_list(g, start, end), #[trigger] w[i], 0) as usize,
        )
}

/// The edges numbered `ks` are a simple path between the nodes at the two
/// ends of `w` that avoids `avoid` and weighs what `w` is long.
#[verifier::opaque]
pub open spec fn route_done(
    g: Cells,
    directed: bool,
    start: Coordinate,
    end: Coordinate,
    w: Seq<Coordinate>,
    avoid: Seq<usize>,
    ks: Seq<int>,
) -> bool {
    &&& simple_path(
        contracted(g, directed, start, end),
        avoid,
        position(node_list(g, start, end), w[0], 0),
        ks,
        position(node_list(g, start, end), w.last(), 0),
    )
    &&& path_weight(
        contracted(g, directed, start, end),
        position(node_list(g, start, end), w[0], 0),
        ks,
    ) == w.len() - 1
}

/// The edge numbered `k` at the node of `w[0]` leads to the node of
/// `w[j]` and weighs `j`.
#[verifier::opaque]
pub open spec fn edge_fits(
    g: Cells,
    directed: bool,
    start: Coordinate,
    end: Coordinate,
    w: Seq<Coordinate>,
    j: int,
    k: int,
) -> bool {
    let nodes = node_list(g, start, end);
    let adj = contracted(g, directed, start, end);
    let iu = position(nodes, w[0], 0);
    &&& 1 <= j < w.len()
    &&& 0 <= iu < adj.len()
    &&& 0 <= k < adj[iu].len()
    &&& adj[iu][k].to == position(nodes, w[j], 0)
    &&& adj[iu][k].weight == j
}

/// A walk of one cell is the empty path.
proof fn lemma_route_single(
    g: Cells,
    directed: bool,
    start: Coordinate,
    end: Coordinate,
    w: Seq<Coordinate>,
    avoid: Seq<usize>,
)
    requires
        walk_ready(g, directed, start, end, w, avoid),
        w.len() == 1,
    ensures
        route_done(g, directed, start, end, w, avoid, Seq::empty()),
{
    reveal(walk_ready);
    reveal(route_done);
    lemma_node_listed(g, start, end, w[0]);
}

/// The first stretch of a walk is an edge, and what follows it is a walk
/// that can be turned into a path in its turn.
proof fn lemma_route_split(
    g: Cells,
    directed: bool,
    start: Coordinate,
    end: Coordinate,
    w: Seq<Coordinate>,
    avoid: Seq<usize>,
) -> (r: (int, int))
    requires
        walk_ready(g, directed, start, end, w, avoid),
        w.len() >= 2,
    ensures
        1 <= r.0 < w.len(),
        edge_fits(g, directed, start, end, w, r.0, r.1),
        walk_ready(
            g,
            directed,
            start,
            end,
            w.subrange(r.0, w.len() as int),
            avoid.push(position(node_list(g, start, end), w[0], 0) as usize),
        ),
{
    reveal(walk_ready);
    reveal(edge_fits);
    let (j, k) = lemma_first_edge(g, directed, start, end, w);
    lemma_node_listed(g, start, end, w[0]);
    crate::trails::lemma_node_count_bound(g, start, end);
    lemma_rest_walk(g, directed, w, j);
    lemma_rest_avoids(g, start, end, w, avoid, j);
    let rest = w.subrange(j, w.len() as int);
    assert(rest.len() == w.len() - j);
    (j, k)
}

/// An edge and the path that goes on from it make the path for the whole
/// walk.
proof fn lemma_route_join(
    g: Cells,
    directed: bool,
    start: Coordinate,
    end: Coordinate,
    w: Seq<Coordinate>,
    avoid: Seq<usize>,
    j: int,
    k: int,
    tail: Seq<int>,
)
    requires
        walk_ready(g, directed, start, end, w, avoid),
        w.len() >= 2,
        edge_fits(g, directed, start, end, w, j, k),
        route_done(
            g,
            directed,
            start,
            end,
            w.subrange(j, w.len() as int),
            avoid.push(position(node_list(g, start, end), w[0], 0) as usize),
            tail,
        ),
    ensures
        route_done(g, directed, start, end, w, avoid, seq![k] + tail),
{
    reveal(walk_ready);
    reveal(edge_fits);
    reveal(route_done);
    let nodes = node_list(g, start, end);
    let adj = contracted(g, directed, start, end);
    lemma_node_listed(g, start, end, w[0]);
    let iu = position(nodes, w[0], 0);
    let iv = position(nodes, w.last(), 0);
    let rest = w.subrange(j, w.len() as int);
    assert(rest[0] == w[j]);
    assert(rest.last() == w.last());
    assert(rest.len() == w.len() - j);
    lemma_ends_differ(g, start, end, w);
    assert(!avoid.contains(iu as usize));
    lemma_prepend_edge(adj, avoid, iu, k, tail, iv);
}

/// A walk that is ready has its path.
proof fn lemma_route_rec(
    g: Cells,
    directed: bool,
    start: Coordinate,
    end: Coordinate,
    w: Seq<Coordinate>,
    avoid: Seq<usize>,
) -> (ks: Seq<int>)
    requires
        walk_ready(g, directed, start, end, w, avoid),
        w.len() >= 1,
    ensures
        route_done(g, directed, start, end, w, avoid, ks),
    decreases w.len(),
{
    if w.len() == 1 {
        lemma_route_single(g, directed, start, end, w, avoid);
        Seq::empty()
    } else {
        let (j, k) = lemma_route_split(g, directed, start, end, w, avoid);
        let rest = w.subrange(j, w.len() as int);
        let inner = avoid.push(position(node_list(g, start, end), w[0], 0) as usize);
        let tail = lemma_route_rec(g, directed, start, end, rest, inner);
        lemma_route_join(g, directed, start, end, w, avoid, j, k, tail);
        seq![k] + tail
    }
}

/// A walk on the grid that leads from node to node and enters no cell
/// twice is a simple path of the contracted graph, and the weights of
/// its edges add up to the steps of the walk.
pub proof fn lemma_simple_walk_route(
    g: Cells,
    directed: bool,
    start: Coordinate,
    end: Coordinate,
    w: Seq<Coordinate>,
    avoid: Seq<usize>,
) -> (ks: Seq<int>)
    requires
        rectangular(g),
        grid_walk(g, directed, w),
        distinct_cells(w),
        passable(g, w[0].x as int, w[0].y as int),
        is_node(g, start, end, w[0]),
        is_node(g, start, end, w.last()),
        forall|i: int|
            0 <= i < w.len() ==> !avoid.contains(
                position(node_list(g, start, end), #[trigger] w[i], 0) as usize,
            ),
    ensures
        simple_path(
            contracted(g, directed, start, end),
            avoid,
            position(node_list(g, start, end), w[0], 0),
            ks,
            position(node_list(g, start, end), w.last(), 0),
        ),
        path_weight(
            contracted(g, directed, start, end),
            position(node_list(g, start, end), w[0], 0),
            ks,
        ) == w.len() - 1,
{
    reveal(walk_ready);
    reveal(route_done);
    lemma_route_rec(g, directed, start, end, w, avoid)
}

/// The two ends of a walk of two or more cells that enters no cell twice
/// have different numbers.
proof fn lemma_ends_differ(g: Cells, start: Coordinate, end: Coordinate, w: Seq<Coordinate>)
    requires
        w.len() >= 2,
        distinct_cells(w),
        0 <= position(node_list(g, start, end), w[0], 0) < node_list(g, start, end).len(),
        node_list(g, start, end)[position(node_list(g, start, end), w[0], 0)] == w[0],
    ensures
        position(node_list(g, start, end), w[0], 0) != position(
            node_list(g, start, end),
            w.last(),
            0,
        ),
{
    let nodes = node_list(g, start, end);
    assert(w[0] != w[w.len() - 1]);
    lemma_position(nodes, w.last(), 0);
}

/// The contracted graph keeps what can be reached on the grid: wherever
/// a walk leads from `start` to `end`, a simple path joins their nodes,
/// no heavier than the walk is long, and exactly as heavy where the walk
/// enters no cell twice.
pub proof fn lemma_reachability_preserved(
    g: Cells,
    directed: bool,
    start: Coordinate,
    end: Coordinate,
    w: Seq<Coordinate>,
) -> (ks: Seq<int>)
    requires
        rectangular(g),
        passable(g, start.x as int, start.y as int),
        grid_walk(g, directed, w),
        w[0] == start,
        w.last() == end,
    ensures
        simple_path(
            contracted(g, directed, start, end),
            Seq::empty(),
            0,
            ks,
            crate::trails::end_node(start, end),
        ),
        path_weight(contracted(g, directed, start, end), 0, ks) <= w.len() - 1,
        distinct_cells(w) ==> path_weight(contracted(g, directed, start, end), 0, ks) == w.len()
            - 1,
{
    let s = lemma_simplify_walk(g, directed, w);
    lemma_node_listed(g, start, end, start);
    if s.len() >= 2 {
        lemma_walk_cell(g, directed, s, s.len() - 1);
    }
    lemma_node_listed(g, start, end, end);
    lemma_simple_walk_route(g, directed, start, end, s, Seq::empty())
}

/// Where the search for the longest walk finds no path, no walk leads
/// from `start` to `end`.
pub proof fn lemma_no_path_no_walk(
    g: Cells,
    directed: bool,
    start: Coordinate,
    end: Coordinate,
    w: Seq<Coordinate>,
)
    requires
        rectangular(g),
        passable(g, start.x as int, start.y as int),
        no_simple_path(
            contracted(g, directed, start, end),
            Seq::empty(),
            0,
            crate::trails::end_node(start, end),
        ),
    ensures
        !(grid_walk(g, directed, w) && w[0] == start && w.last() == end),
{
    if grid_walk(g, directed, w) && w[0] == start && w.last() == end {
        let ks = lemma_reachability_preserved(g, directed, start, end, w);
        assert(simple_path(
            contracted(g, directed, start, end),
            Seq::empty(),
            0,
            ks,
            crate::trails::end_node(start, end),
        ));
    }
}

} // verus!
