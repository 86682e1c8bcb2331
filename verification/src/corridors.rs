//! Corridors cell by cell. A path of the contracted graph that enters no
//! node twice is a walk on the trail map that enters no cell twice: two
//! corridors that share a cell are one corridor, walked the same way or
//! the other way round.

use crate::graph::{is_longest, path_weight, simple_path, Edge};
use crate::grid::{
    height_of, open_towards, passable, rectangular, shifted, width_of, Cells, Coordinate,
    Direction, SearchError,
};
use crate::trail_laws::{
    distinct_cells, lemma_no_path_no_walk, lemma_reachability_preserved, lemma_three_open,
};
use crate::trails::{
    contracted, corridor_from, edges_upto, end_node, enterable, grid_junctions, grid_walk,
    is_junction, is_node, lemma_onward_step, lemma_position, longest_trail, node_list, onward,
    position, row_junctions, trail, trail_step, walk_between,
};
use vstd::prelude::*;

verus! {

/// What holds of the cell at place `k` of a corridor: it is passable and
/// was entered by an allowed step; between the corridor's two nodes it is
/// no node, and the walker goes on from it without turning back.
pub open spec fn lane_at(
    g: Cells,
    directed: bool,
    start: Coordinate,
    end: Coordinate,
    u: Seq<Coordinate>,
    k: int,
) -> bool {
    &&& passable(g, u[k].x as int, u[k].y as int)
    &&& (1 <= k ==> trail_step(g, directed, u[k - 1], u[k]))
    &&& (1 <= k < u.len() - 1 ==> !is_node(g, start, end, u[k]) && onward(
        g,
        directed,
        u[k - 1],
        u[k],
    ) == Some(u[k + 1]))
}

/// A corridor, cell by cell: it leaves a node, passes cells that are no
/// nodes without ever turning back, and ends at the first node it meets.
pub open spec fn lane(
    g: Cells,
    directed: bool,
    start: Coordinate,
    end: Coordinate,
    u: Seq<Coordinate>,
) -> bool {
    &&& u.len() >= 2
    &&& is_node(g, start, end, u[0])
    &&& is_node(g, start, end, u.last())
    &&& forall|k: int| 0 <= k < u.len() ==> #[trigger] lane_at(g, directed, start, end, u, k)
}

/// Where the walker goes on, it does not go back.
pub proof fn lemma_onward_differs(g: Cells, directed: bool, prev: Coordinate, cur: Coordinate)
    requires
        onward(g, directed, prev, cur) is Some,
    ensures
        onward(g, directed, prev, cur)->Some_0 != prev,
{
}

/// Two open sides of a cell that lead to the same cell are one side.
pub proof fn lemma_shift_injective(g: Cells, c: Coordinate, d1: Direction, d2: Direction)
    requires
        rectangular(g),
        open_towards(g, c, d1),
        open_towards(g, c, d2),
        shifted(c, d1) == shifted(c, d2),
    ensures
        d1 == d2,
{
    assert(shifted(c, d1).x == c.x + d1.dx());
    assert(shifted(c, d1).y == c.y + d1.dy());
    assert(shifted(c, d2).x == c.x + d2.dx());
    assert(shifted(c, d2).y == c.y + d2.dy());
}

/// A passable cell that is no junction has at most two open sides.
pub proof fn lemma_other_side(g: Cells, c: Coordinate, d1: Direction, d2: Direction, d3: Direction)
    requires
        passable(g, c.x as int, c.y as int),
        !is_junction(g, c),
        open_towards(g, c, d1),
        open_towards(g, c, d2),
        open_towards(g, c, d3),
        d1 != d2,
    ensures
        d3 == d1 || d3 == d2,
{
    if d3 != d1 && d3 != d2 {
        lemma_three_open(g, c, d1, d2, d3);
    }
}

/// The two sides of a cell inside a corridor: the one it was entered
/// from and the one it is left by.
pub proof fn lemma_lane_sides(
    g: Cells,
    directed: bool,
    start: Coordinate,
    end: Coordinate,
    u: Seq<Coordinate>,
    k: int,
) -> (sides: (Direction, Direction))
    requires
        rectangular(g),
        lane(g, directed, start, end, u),
        1 <= k < u.len() - 1,
    ensures
        shifted(u[k], sides.0) == u[k - 1],
        open_towards(g, u[k], sides.0),
        shifted(u[k], sides.1) == u[k + 1],
        open_towards(g, u[k], sides.1),
        sides.0 != sides.1,
        passable(g, u[k].x as int, u[k].y as int),
        !is_junction(g, u[k]),
{
    let prev = u[k - 1];
    let cur = u[k];
    let nxt = u[k + 1];
    assert(lane_at(g, directed, start, end, u, k - 1));
    assert(lane_at(g, directed, start, end, u, k));
    assert(lane_at(g, directed, start, end, u, k + 1));
    assert(trail_step(g, directed, prev, cur));
    let d_in = choose|d: Direction| #[trigger] enterable(g, directed, prev, d) && cur == shifted(prev, d);
    assert(passable(g, prev.x as int, prev.y as int));
    assert(cur.x == prev.x + d_in.dx() && cur.y == prev.y + d_in.dy());
    let back = d_in.spec_opposite();
    assert(cur.x + back.dx() == prev.x && cur.y + back.dy() == prev.y);
    assert(shifted(cur, back) == prev);
    assert(trail_step(g, directed, cur, nxt));
    let out = choose|d: Direction| #[trigger] enterable(g, directed, cur, d) && nxt == shifted(cur, d);
    assert(onward(g, directed, prev, cur) == Some(nxt));
    lemma_onward_differs(g, directed, prev, cur);
    assert(!is_node(g, start, end, cur));
    (back, out)
}

/// Two corridors that take the same step have taken the same steps
/// before it.
proof fn lemma_lane_back(
    g: Cells,
    directed: bool,
    start: Coordinate,
    end: Coordinate,
    u: Seq<Coordinate>,
    v: Seq<Coordinate>,
    i: int,
    j: int,
)
    requires
        rectangular(g),
        lane(g, directed, start, end, u),
        lane(g, directed, start, end, v),
        0 <= i < u.len() - 1,
        0 <= j < v.len() - 1,
        u[i] == v[j],
        u[i + 1] == v[j + 1],
    ensures
        i == j,
        forall|k: int| 0 <= k <= i ==> #[trigger] u[k] == v[k],
    decreases i,
{
    assert(lane_at(g, directed, start, end, u, i));
    assert(lane_at(g, directed, start, end, v, j));
    if i == 0 {
        if j >= 1 {
            assert(!is_node(g, start, end, v[j]));
        }
    } else {
        assert(!is_node(g, start, end, u[i]));
        if j == 0 {
            assert(is_node(g, start, end, v[0]));
        }
        let (bu, ou) = lemma_lane_sides(g, directed, start, end, u, i);
        let (bv, ov) = lemma_lane_sides(g, directed, start, end, v, j);
        lemma_shift_injective(g, u[i], ou, ov);
        lemma_other_side(g, u[i], bu, ou, bv);
        assert(bv == bu);
        assert(u[i - 1] == v[j - 1]);
        lemma_lane_back(g, directed, start, end, u, v, i - 1, j - 1);
        assert forall|k: int| 0 <= k <= i implies #[trigger] u[k] == v[k] by {}
    }
}

/// Two corridors that take the same step take the same steps after it.
proof fn lemma_lane_forth(
    g: Cells,
    directed: bool,
    start: Coordinate,
    end: Coordinate,
    u: Seq<Coordinate>,
    v: Seq<Coordinate>,
    i: int,
    j: int,
)
    requires
        lane(g, directed, start, end, u),
        lane(g, directed, start, end, v),
        0 <= i < u.len() - 1,
        0 <= j < v.len() - 1,
        u[i] == v[j],
        u[i + 1] == v[j + 1],
    ensures
        u.len() - i == v.len() - j,
        forall|k: int| i <= k < u.len() ==> #[trigger] u[k] == v[k - i + j],
    decreases u.len() - i,
{
    assert(lane_at(g, directed, start, end, u, i + 1));
    assert(lane_at(g, directed, start, end, v, j + 1));
    if i + 1 == u.len() - 1 {
        assert(is_node(g, start, end, u[i + 1]));
        if j + 1 < v.len() - 1 {
            assert(!is_node(g, start, end, v[j + 1]));
        }
        assert forall|k: int| i <= k < u.len() implies #[trigger] u[k] == v[k - i + j] by {
            assert(k == i || k == i + 1);
        }
    } else {
        assert(!is_node(g, start, end, u[i + 1]));
        if j + 1 == v.len() - 1 {
            assert(is_node(g, start, end, v[j + 1]));
        }
        assert(onward(g, directed, u[i], u[i + 1]) == Some(u[i + 2]));
        assert(onward(g, directed, v[j], v[j + 1]) == Some(v[j + 2]));
        lemma_lane_forth(g, directed, start, end, u, v, i + 1, j + 1);
        assert forall|k: int| i <= k < u.len() implies #[trigger] u[k] == v[k - i + j] by {
            if k > i {
                assert(u[k] == v[k - (i + 1) + (j + 1)]);
            }
        }
    }
}

/// Two corridors that take the same step are one corridor.
pub proof fn lemma_lane_same(
    g: Cells,
    directed: bool,
    start: Coordinate,
    end: Coordinate,
    u: Seq<Coordinate>,
    v: Seq<Coordinate>,
    i: int,
    j: int,
)
    requires
        rectangular(g),
        lane(g, directed, start, end, u),
        lane(g, directed, start, end, v),
        0 <= i < u.len() - 1,
        0 <= j < v.len() - 1,
        u[i] == v[j],
        u[i + 1] == v[j + 1],
    ensures
        i == j,
        u == v,
{
    lemma_lane_back(g, directed, start, end, u, v, i, j);
    lemma_lane_forth(g, directed, start, end, u, v, i, j);
    assert forall|k: int| 0 <= k < u.len() implies u[k] == v[k] by {
        if k > i {
            assert(u[k] == v[k - i + j]);
        }
    }
    assert(u =~= v);
}

/// Where one corridor takes a step that another takes the other way
/// round, the first ends where the second begins.
pub proof fn lemma_lane_reverse(
    g: Cells,
    directed: bool,
    start: Coordinate,
    end: Coordinate,
    u: Seq<Coordinate>,
    v: Seq<Coordinate>,
    i: int,
    j: int,
)
    requires
        rectangular(g),
        lane(g, directed, start, end, u),
        lane(g, directed, start, end, v),
        0 <= i < u.len() - 1,
        0 <= j < v.len() - 1,
        u[i] == v[j + 1],
        u[i + 1] == v[j],
    ensures
        u.last() == v[0],
    decreases u.len() - i,
{
    assert(lane_at(g, directed, start, end, u, i + 1));
    assert(lane_at(g, directed, start, end, v, j));
    if i + 1 == u.len() - 1 {
        assert(is_node(g, start, end, u[i + 1]));
        if j >= 1 {
            assert(!is_node(g, start, end, v[j]));
        }
    } else {
        assert(!is_node(g, start, end, u[i + 1]));
        if j == 0 {
            assert(is_node(g, start, end, v[0]));
        }
        let (bu, ou) = lemma_lane_sides(g, directed, start, end, u, i + 1);
        let (bv, ov) = lemma_lane_sides(g, directed, start, end, v, j);
        lemma_shift_injective(g, u[i + 1], bu, ov);
        lemma_other_side(g, u[i + 1], bu, ou, bv);
        assert(bv == ou);
        assert(u[i + 2] == v[j - 1]);
        lemma_lane_reverse(g, directed, start, end, u, v, i + 1, j - 1);
    }
}

/// Two corridors that share a cell between their nodes are one corridor,
/// and the cell stands at the same place in both; or each ends where the
/// other begins.
pub proof fn lemma_lanes_meet(
    g: Cells,
    directed: bool,
    start: Coordinate,
    end: Coordinate,
    u: Seq<Coordinate>,
    v: Seq<Coordinate>,
    i: int,
    j: int,
)
    requires
        rectangular(g),
        lane(g, directed, start, end, u),
        lane(g, directed, start, end, v),
        1 <= i < u.len() - 1,
        1 <= j < v.len() - 1,
        u[i] == v[j],
    ensures
        (i == j && u == v) || (u.last() == v[0] && v.last() == u[0]),
{
    let (bu, ou) = lemma_lane_sides(g, directed, start, end, u, i);
    let (bv, ov) = lemma_lane_sides(g, directed, start, end, v, j);
    lemma_other_side(g, u[i], bu, ou, ov);
    if ov == ou {
        lemma_lane_same(g, directed, start, end, u, v, i, j);
    } else {
        assert(v[j + 1] == u[i - 1]);
        lemma_lane_reverse(g, directed, start, end, u, v, i - 1, j);
        lemma_lane_reverse(g, directed, start, end, v, u, j, i - 1);
    }
}

/// A corridor between two different nodes enters no cell twice.
pub proof fn lemma_lane_distinct(
    g: Cells,
    directed: bool,
    start: Coordinate,
    end: Coordinate,
    u: Seq<Coordinate>,
)
    requires
        rectangular(g),
        lane(g, directed, start, end, u),
        u[0] != u.last(),
    ensures
        distinct_cells(u),
{
    assert forall|a: int, b: int| 0 <= a < b < u.len() implies u[a] != u[b] by {
        assert(lane_at(g, directed, start, end, u, a));
        assert(lane_at(g, directed, start, end, u, b));
        if a == 0 {
            if b < u.len() - 1 {
                assert(!is_node(g, start, end, u[b]));
            }
        } else if b == u.len() - 1 {
            assert(!is_node(g, start, end, u[a]));
        } else if u[a] == u[b] {
            lemma_lanes_meet(g, directed, start, end, u, u, a, b);
        }
    }
}

/// What holds of the cell at place `k` of the cells that a walker
/// passes who follows a corridor, having come from `prev`.
pub open spec fn tail_at(
    g: Cells,
    directed: bool,
    start: Coordinate,
    end: Coordinate,
    prev: Coordinate,
    w: Seq<Coordinate>,
    k: int,
) -> bool {
    &&& passable(g, w[k].x as int, w[k].y as int)
    &&& (1 <= k ==> trail_step(g, directed, w[k - 1], w[k]))
    &&& (k < w.len() - 1 ==> !is_node(g, start, end, w[k]) && onward(
        g,
        directed,
        if k == 0 {
            prev
        } else {
            w[k - 1]
        },
        w[k],
    ) == Some(w[k + 1]))
}

/// The cells that a walker passes who follows a corridor from `cur`,
/// having come from `prev`: the last is the node reached, and none
/// before it is a node.
pub proof fn lemma_trail_lane(
    g: Cells,
    directed: bool,
    start: Coordinate,
    end: Coordinate,
    prev: Coordinate,
    cur: Coordinate,
    steps: nat,
    fuel: nat,
) -> (w: Seq<Coordinate>)
    requires
        rectangular(g),
        passable(g, cur.x as int, cur.y as int),
        trail(g, directed, start, end, prev, cur, steps, fuel) is Some,
    ensures
        w.len() >= 1,
        steps <= trail(g, directed, start, end, prev, cur, steps, fuel)->Some_0.1,
        w.len() == trail(g, directed, start, end, prev, cur, steps, fuel)->Some_0.1 - steps + 1,
        w[0] == cur,
        w.last() == trail(g, directed, start, end, prev, cur, steps, fuel)->Some_0.0,
        is_node(g, start, end, w.last()),
        forall|k: int| 0 <= k < w.len() ==> #[trigger] tail_at(g, directed, start, end, prev, w, k),
    decreases fuel,
{
    let here = trail(g, directed, start, end, prev, cur, steps, fuel);
    if is_node(g, start, end, cur) {
        let w = seq![cur];
        assert(here == Some((cur, steps)));
        assert(tail_at(g, directed, start, end, prev, w, 0));
        w
    } else {
        assert(fuel > 0);
        assert(onward(g, directed, prev, cur) is Some);
        let nxt = onward(g, directed, prev, cur)->Some_0;
        assert(here == trail(g, directed, start, end, cur, nxt, steps + 1, (fuel - 1) as nat));
        lemma_onward_step(g, directed, prev, cur);
        assert(trail_step(g, directed, cur, nxt));
        let d = choose|d: Direction| #[trigger] enterable(g, directed, cur, d) && nxt == shifted(cur, d);
        assert(nxt.x == cur.x + d.dx() && nxt.y == cur.y + d.dy());
        let rest = lemma_trail_lane(g, directed, start, end, cur, nxt, steps + 1, (fuel - 1) as nat);
        let w = seq![cur] + rest;
        assert(w.len() == rest.len() + 1);
        assert(w.last() == rest.last());
        assert forall|k: int| 0 <= k < w.len() implies #[trigger] tail_at(
            g,
            directed,
            start,
            end,
            prev,
            w,
            k,
        ) by {
            if k == 0 {
                assert(w[1] == rest[0]);
            } else {
                assert(tail_at(g, directed, start, end, cur, rest, k - 1));
                assert(w[k] == rest[k - 1]);
                if k >= 2 {
                    assert(w[k - 1] == rest[k - 2]);
                }
                if k < w.len() - 1 {
                    assert(w[k + 1] == rest[k]);
                }
            }
        }
        w
    }
}

/// The corridor that leaves node `a` in direction `d`, cell by cell.
pub proof fn lemma_corridor_lane(
    g: Cells,
    directed: bool,
    start: Coordinate,
    end: Coordinate,
    a: Coordinate,
    d: Direction,
) -> (u: Seq<Coordinate>)
    requires
        rectangular(g),
        passable(g, a.x as int, a.y as int),
        is_node(g, start, end, a),
        corridor_from(g, directed, start, end, a, d) is Some,
    ensures
        lane(g, directed, start, end, u),
        u[0] == a,
        u.last() == corridor_from(g, directed, start, end, a, d)->Some_0.0,
        u.len() == corridor_from(g, directed, start, end, a, d)->Some_0.1 + 1,
{
    let first = shifted(a, d);
    assert(enterable(g, directed, a, d));
    assert(first.x == a.x + d.dx() && first.y == a.y + d.dy());
    let w = lemma_trail_lane(
        g,
        directed,
        start,
        end,
        a,
        first,
        1,
        (width_of(g) * height_of(g)) as nat,
    );
    let u = seq![a] + w;
    assert(u.len() == w.len() + 1);
    assert(u.last() == w.last());
    assert forall|k: int| 0 <= k < u.len() implies #[trigger] lane_at(g, directed, start, end, u, k) by {
        if k >= 1 {
            assert(tail_at(g, directed, start, end, a, w, k - 1));
            assert(u[k] == w[k - 1]);
            if k >= 2 {
                assert(u[k - 1] == w[k - 2]);
            } else {
                assert(trail_step(g, directed, a, first));
            }
            if k < u.len() - 1 {
                assert(u[k + 1] == w[k]);
            }
        }
    }
    u
}

/// The direction of the corridor for which edge `k` of the node at `a`
/// stands.
pub proof fn lemma_edge_direction(
    g: Cells,
    directed: bool,
    start: Coordinate,
    end: Coordinate,
    a: Coordinate,
    upto: int,
    k: int,
) -> (d: Direction)
    requires
        0 <= upto <= 4,
        0 <= k < edges_upto(g, directed, start, end, a, upto).len(),
    ensures
        corridor_from(g, directed, start, end, a, d) is Some,
        position(node_list(g, start, end), corridor_from(g, directed, start, end, a, d)->Some_0.0, 0)
            < node_list(g, start, end).len(),
        edges_upto(g, directed, start, end, a, upto)[k] == (Edge {
            to: position(
                node_list(g, start, end),
                corridor_from(g, directed, start, end, a, d)->Some_0.0,
                0,
            ) as usize,
            weight: corridor_from(g, directed, start, end, a, d)->Some_0.1 as u64,
        }),
    decreases upto,
{
    let before = edges_upto(g, directed, start, end, a, upto - 1);
    if k < before.len() {
        let d = lemma_edge_direction(g, directed, start, end, a, upto - 1, k);
        assert(edges_upto(g, directed, start, end, a, upto)[k] == before[k]);
        d
    } else {
        Direction::spec_from_index(upto - 1)
    }
}

/// The corridor for which edge `k` of the node at `a` stands, cell by
/// cell: it leads to the node that the edge names and has one cell more
/// than the edge weighs.
pub proof fn lemma_edge_lane(
    g: Cells,
    directed: bool,
    start: Coordinate,
    end: Coordinate,
    a: Coordinate,
    k: int,
) -> (u: Seq<Coordinate>)
    requires
        rectangular(g),
        passable(g, a.x as int, a.y as int),
        is_node(g, start, end, a),
        0 <= k < edges_upto(g, directed, start, end, a, 4).len(),
    ensures
        edges_upto(g, directed, start, end, a, 4)[k].to < node_list(g, start, end).len(),
        lane(g, directed, start, end, u),
        u[0] == a,
        u.last() == node_list(g, start, end)[edges_upto(g, directed, start, end, a, 4)[k].to as int],
        u.len() == edges_upto(g, directed, start, end, a, 4)[k].weight + 1,
{
    let d = lemma_edge_direction(g, directed, start, end, a, 4, k);
    let nodes = node_list(g, start, end);
    let (b, n) = corridor_from(g, directed, start, end, a, d)->Some_0;
    let u = lemma_corridor_lane(g, directed, start, end, a, d);
    let walk = crate::trails::lemma_corridor_walk(g, directed, start, end, a, d);
    lemma_position(nodes, b, 0);
    crate::trails::lemma_node_count_bound(g, start, end);
    assert(n <= 1 + width_of(g) * height_of(g));
    assert(width_of(g) * height_of(g) <= 65535 * 65535) by (nonlinear_arith)
        requires
            0 <= width_of(g) <= 65535,
            0 <= height_of(g) <= 65535,
    ;
    u
}

/// The junctions listed for a row lie in that row, in the columns
/// asked for, each once, and none is a terminal.
proof fn lemma_row_distinct(g: Cells, start: Coordinate, end: Coordinate, y: int, upto: int)
    requires
        0 <= y <= 65535,
        upto <= 65535,
    ensures
        forall|k: int|
            0 <= k < row_junctions(g, start, end, y, upto).len() ==> {
                let c = #[trigger] row_junctions(g, start, end, y, upto)[k];
                c.y == y && c.x < upto && is_junction(g, c) && c != start && c != end
            },
        forall|a: int, b: int|
            0 <= a < b < row_junctions(g, start, end, y, upto).len() ==> row_junctions(
                g,
                start,
                end,
                y,
                upto,
            )[a] != row_junctions(g, start, end, y, upto)[b],
    decreases upto,
{
    if upto > 0 {
        lemma_row_distinct(g, start, end, y, upto - 1);
        let before = row_junctions(g, start, end, y, upto - 1);
        let here = row_junctions(g, start, end, y, upto);
        assert forall|k: int| 0 <= k < here.len() implies {
            let c = #[trigger] here[k];
            c.y == y && c.x < upto && is_junction(g, c) && c != start && c != end
        } by {
            if k < before.len() {
                assert(here[k] == before[k]);
            }
        }
        assert forall|a: int, b: int| 0 <= a < b < here.len() implies here[a] != here[b] by {
            assert(here[a] == before[a]);
            if b < before.len() {
                assert(here[b] == before[b]);
            } else {
                assert(before[a].x < upto - 1);
            }
        }
    }
}

/// The junctions listed for the first rows lie in those rows, each once,
/// and none is a terminal.
proof fn lemma_junctions_distinct(g: Cells, start: Coordinate, end: Coordinate, upto: int)
    requires
        rectangular(g),
        upto <= 65535,
    ensures
        forall|k: int|
            0 <= k < grid_junctions(g, start, end, upto).len() ==> {
                let c = #[trigger] grid_junctions(g, start, end, upto)[k];
                c.y < upto && is_junction(g, c) && c != start && c != end
            },
        forall|a: int, b: int|
            0 <= a < b < grid_junctions(g, start, end, upto).len() ==> grid_junctions(
                g,
                start,
                end,
                upto,
            )[a] != grid_junctions(g, start, end, upto)[b],
    decreases upto,
{
    if upto > 0 {
        lemma_junctions_distinct(g, start, end, upto - 1);
        lemma_row_distinct(g, start, end, upto - 1, width_of(g));
        let before = grid_junctions(g, start, end, upto - 1);
        let row = row_junctions(g, start, end, upto - 1, width_of(g));
        let here = grid_junctions(g, start, end, upto);
        assert(here == before + row);
        assert forall|k: int| 0 <= k < here.len() implies {
            let c = #[trigger] here[k];
            c.y < upto && is_junction(g, c) && c != start && c != end
        } by {
            if k < before.len() {
                assert(here[k] == before[k]);
            } else {
                assert(here[k] == row[k - before.len()]);
            }
        }
        assert forall|a: int, b: int| 0 <= a < b < here.len() implies here[a] != here[b] by {
            if b < before.len() {
                assert(here[a] == before[a] && here[b] == before[b]);
            } else if a < before.len() {
                assert(here[a] == before[a] && here[b] == row[b - before.len()]);
                assert(before[a].y < upto - 1);
            } else {
                assert(here[a] == row[a - before.len()] && here[b] == row[b - before.len()]);
            }
        }
    }
}

/// The contracted graph numbers each node once, and numbers nodes only.
pub proof fn lemma_nodes_distinct(g: Cells, start: Coordinate, end: Coordinate)
    requires
        rectangular(g),
    ensures
        forall|a: int, b: int|
            0 <= a < b < node_list(g, start, end).len() ==> node_list(g, start, end)[a] != node_list(
                g,
                start,
                end,
            )[b],
        forall|k: int|
            0 <= k < node_list(g, start, end).len() ==> is_node(
                g,
                start,
                end,
                #[trigger] node_list(g, start, end)[k],
            ),
{
    let nodes = node_list(g, start, end);
    let terminals = if start == end {
        seq![start]
    } else {
        seq![start, end]
    };
    let rest = grid_junctions(g, start, end, height_of(g));
    lemma_junctions_distinct(g, start, end, height_of(g));
    assert(nodes == terminals + rest);
    assert forall|k: int| 0 <= k < nodes.len() implies is_node(g, start, end, #[trigger] nodes[k]) by {
        if k >= terminals.len() {
            assert(nodes[k] == rest[k - terminals.len()]);
        }
    }
    assert forall|a: int, b: int| 0 <= a < b < nodes.len() implies nodes[a] != nodes[b] by {
        if b >= terminals.len() {
            assert(nodes[b] == rest[b - terminals.len()]);
            if a >= terminals.len() {
                assert(nodes[a] == rest[a - terminals.len()]);
            }
        }
    }
}

/// A node stands in the list of nodes at its number and nowhere before.
pub proof fn lemma_position_exact(g: Cells, start: Coordinate, end: Coordinate, k: int)
    requires
        rectangular(g),
        0 <= k < node_list(g, start, end).len(),
    ensures
        position(node_list(g, start, end), node_list(g, start, end)[k], 0) == k,
{
    let nodes = node_list(g, start, end);
    lemma_nodes_distinct(g, start, end);
    crate::trail_laws::lemma_position_found(nodes, nodes[k], 0, k);
}

/// Whether `c` is a node of the contracted graph whose number is not
/// among `avoid`.
pub open spec fn clear_of(
    g: Cells,
    start: Coordinate,
    end: Coordinate,
    avoid: Seq<usize>,
    c: Coordinate,
) -> bool {
    position(node_list(g, start, end), c, 0) < node_list(g, start, end).len() && !avoid.contains(
        position(node_list(g, start, end), c, 0) as usize,
    )
}

/// A corridor between two nodes whose numbers are not among `avoid`.
pub open spec fn lane_ok(
    g: Cells,
    directed: bool,
    start: Coordinate,
    end: Coordinate,
    avoid: Seq<usize>,
    u: Seq<Coordinate>,
) -> bool {
    lane(g, directed, start, end, u) && clear_of(g, start, end, avoid, u[0]) && clear_of(
        g,
        start,
        end,
        avoid,
        u.last(),
    )
}

/// Whether `c` lies between the two nodes of one of `lanes`.
pub open spec fn inside_one(lanes: Seq<Seq<Coordinate>>, c: Coordinate) -> bool {
    exists|t: int, j: int|
        0 <= t < lanes.len() && 1 <= j < lanes[t].len() - 1 && #[trigger] lanes[t][j] == c
}

/// A cell of a walk along `lanes`: a node whose number is not among
/// `avoid`, or a cell between the two nodes of one of the lanes.
pub open spec fn cell_ok(
    g: Cells,
    start: Coordinate,
    end: Coordinate,
    avoid: Seq<usize>,
    lanes: Seq<Seq<Coordinate>>,
    c: Coordinate,
) -> bool {
    if is_node(g, start, end, c) {
        clear_of(g, start, end, avoid, c)
    } else {
        inside_one(lanes, c)
    }
}

/// A node is passable where both terminals are.
pub proof fn lemma_node_passable(g: Cells, start: Coordinate, end: Coordinate, c: Coordinate)
    requires
        passable(g, start.x as int, start.y as int),
        passable(g, end.x as int, end.y as int),
        is_node(g, start, end, c),
    ensures
        passable(g, c.x as int, c.y as int),
{
}

/// What is clear of a longer list is clear of the shorter, and is not
/// what was added.
pub proof fn lemma_clear_weaker(
    g: Cells,
    start: Coordinate,
    end: Coordinate,
    avoid: Seq<usize>,
    x: usize,
    c: Coordinate,
)
    requires
        clear_of(g, start, end, avoid.push(x), c),
    ensures
        clear_of(g, start, end, avoid, c),
        position(node_list(g, start, end), c, 0) != x,
{
    let p = position(node_list(g, start, end), c, 0) as usize;
    let more = avoid.push(x);
    if avoid.contains(p) {
        let k = choose|k: int| 0 <= k < avoid.len() && avoid[k] == p;
        assert(more[k] == p);
    }
    if p == x {
        assert(more[avoid.len() as int] == x);
    }
}

/// A corridor is a walk on the grid.
pub proof fn lemma_lane_walk(
    g: Cells,
    directed: bool,
    start: Coordinate,
    end: Coordinate,
    u: Seq<Coordinate>,
)
    requires
        lane(g, directed, start, end, u),
    ensures
        grid_walk(g, directed, u),
{
    assert forall|i: int| 1 <= i < u.len() implies trail_step(g, directed, u[i - 1], #[trigger] u[i]) by {
        assert(lane_at(g, directed, start, end, u, i));
    }
}

/// The corridors of a path stay clear when the path grows by a corridor
/// at its front.
proof fn lemma_glue_lanes(
    g: Cells,
    directed: bool,
    start: Coordinate,
    end: Coordinate,
    avoid: Seq<usize>,
    x: usize,
    first: Seq<Coordinate>,
    others: Seq<Seq<Coordinate>>,
)
    requires
        lane_ok(g, directed, start, end, avoid, first),
        forall|t: int|
            0 <= t < others.len() ==> lane_ok(g, directed, start, end, avoid.push(x), #[trigger] others[t]),
    ensures
        forall|t: int|
            0 <= t < (seq![first] + others).len() ==> lane_ok(
                g,
                directed,
                start,
                end,
                avoid,
                #[trigger] (seq![first] + others)[t],
            ),
{
    let lanes = seq![first] + others;
    assert forall|t: int| 0 <= t < lanes.len() implies lane_ok(
        g,
        directed,
        start,
        end,
        avoid,
        #[trigger] lanes[t],
    ) by {
        if t >= 1 {
            let v = others[t - 1];
            assert(lanes[t] == v);
            assert(lane_ok(g, directed, start, end, avoid.push(x), v));
            lemma_clear_weaker(g, start, end, avoid, x, v[0]);
            lemma_clear_weaker(g, start, end, avoid, x, v.last());
        } else {
            assert(lanes[0] == first);
        }
    }
}

/// The cells of a path stay in order when the path grows by a corridor
/// at its front.
proof fn lemma_glue_cells(
    g: Cells,
    directed: bool,
    start: Coordinate,
    end: Coordinate,
    avoid: Seq<usize>,
    x: usize,
    first: Seq<Coordinate>,
    rest: Seq<Coordinate>,
    others: Seq<Seq<Coordinate>>,
)
    requires
        lane_ok(g, directed, start, end, avoid, first),
        rest.len() >= 1,
        rest[0] == first.last(),
        forall|p: int|
            0 <= p < rest.len() ==> cell_ok(g, start, end, avoid.push(x), others, #[trigger] rest[p]),
    ensures
        forall|p: int|
            0 <= p < (first + rest.drop_first()).len() ==> cell_ok(
                g,
                start,
                end,
                avoid,
                seq![first] + others,
                #[trigger] (first + rest.drop_first())[p],
            ),
{
    let w = first + rest.drop_first();
    let lanes = seq![first] + others;
    let n = first.len() as int;
    assert forall|p: int| 0 <= p < w.len() implies cell_ok(g, start, end, avoid, lanes, #[trigger] w[p]) by {
        let c = w[p];
        if p < n {
            assert(c == first[p]);
            assert(lane_at(g, directed, start, end, first, p));
            if !is_node(g, start, end, c) {
                assert(1 <= p < n - 1);
                assert(lanes[0][p] == c);
                assert(inside_one(lanes, c));
            }
        } else {
            let q = p - n + 1;
            assert(c == rest[q]);
            assert(cell_ok(g, start, end, avoid.push(x), others, rest[q]));
            if is_node(g, start, end, c) {
                lemma_clear_weaker(g, start, end, avoid, x, c);
            } else {
                let (t, j) = choose|t: int, j: int|
                    0 <= t < others.len() && 1 <= j < others[t].len() - 1 && #[trigger] others[t][j] == c;
                assert(lanes[t + 1] == others[t]);
                assert(lanes[t + 1][j] == c);
                assert(inside_one(lanes, c));
            }
        }
    }
}

/// No cell of a corridor but its last lies on a walk that begins at the
/// corridor's end and keeps clear of the corridor's first node.
proof fn lemma_glue_apart(
    g: Cells,
    directed: bool,
    start: Coordinate,
    end: Coordinate,
    avoid: Seq<usize>,
    x: usize,
    first: Seq<Coordinate>,
    others: Seq<Seq<Coordinate>>,
    p: int,
    c: Coordinate,
)
    requires
        rectangular(g),
        lane(g, directed, start, end, first),
        position(node_list(g, start, end), first[0], 0) == x,
        forall|t: int|
            0 <= t < others.len() ==> lane_ok(g, directed, start, end, avoid.push(x), #[trigger] others[t]),
        cell_ok(g, start, end, avoid.push(x), others, c),
        0 <= p < first.len() - 1,
    ensures
        first[p] != c,
{
    let more = avoid.push(x);
    assert(more[avoid.len() as int] == x);
    assert(lane_at(g, directed, start, end, first, p));
    if first[p] == c {
        if is_node(g, start, end, c) {
            assert(p == 0);
        } else {
            let (t, j) = choose|t: int, j: int|
                0 <= t < others.len() && 1 <= j < others[t].len() - 1 && #[trigger] others[t][j] == c;
            let v = others[t];
            assert(lane_ok(g, directed, start, end, more, v));
            assert(p >= 1);
            lemma_lanes_meet(g, directed, start, end, first, v, p, j);
        }
    }
}

/// A walk that enters no cell twice still enters none twice when it
/// grows by a corridor at its front, provided that it kept clear of the
/// corridor's first node.
proof fn lemma_glue_distinct(
    g: Cells,
    directed: bool,
    start: Coordinate,
    end: Coordinate,
    avoid: Seq<usize>,
    x: usize,
    first: Seq<Coordinate>,
    rest: Seq<Coordinate>,
    others: Seq<Seq<Coordinate>>,
)
    requires
        rectangular(g),
        lane(g, directed, start, end, first),
        first[0] != first.last(),
        position(node_list(g, start, end), first[0], 0) == x,
        rest.len() >= 1,
        rest[0] == first.last(),
        distinct_cells(rest),
        forall|t: int|
            0 <= t < others.len() ==> lane_ok(g, directed, start, end, avoid.push(x), #[trigger] others[t]),
        forall|p: int|
            0 <= p < rest.len() ==> cell_ok(g, start, end, avoid.push(x), others, #[trigger] rest[p]),
    ensures
        distinct_cells(first + rest.drop_first()),
{
    let w = first + rest.drop_first();
    let n = first.len() as int;
    lemma_lane_distinct(g, directed, start, end, first);
    assert forall|p: int, q: int| 0 <= p < q < w.len() implies w[p] != w[q] by {
        if q < n {
            assert(w[p] == first[p] && w[q] == first[q]);
        } else if p >= n - 1 {
            assert(w[p] == rest[p - n + 1]);
            assert(w[q] == rest[q - n + 1]);
        } else {
            assert(w[q] == rest[q - n + 1]);
            assert(w[p] == first[p]);
            assert(cell_ok(g, start, end, avoid.push(x), others, rest[q - n + 1]));
            lemma_glue_apart(g, directed, start, end, avoid, x, first, others, p, rest[q - n + 1]);
        }
    }
}

/// A path of the contracted graph that enters no node twice is a walk on
/// the grid that enters no cell twice, of as many steps as the path
/// weighs. The walk passes along the corridors of the path's edges.
pub proof fn lemma_path_cells(
    g: Cells,
    directed: bool,
    start: Coordinate,
    end: Coordinate,
    avoid: Seq<usize>,
    from: int,
    ks: Seq<int>,
    to: int,
) -> (out: (Seq<Coordinate>, Seq<Seq<Coordinate>>))
    requires
        rectangular(g),
        passable(g, start.x as int, start.y as int),
        passable(g, end.x as int, end.y as int),
        simple_path(contracted(g, directed, start, end), avoid, from, ks, to),
    ensures
        walk_between(
            g,
            directed,
            node_list(g, start, end)[from],
            node_list(g, start, end)[to],
            path_weight(contracted(g, directed, start, end), from, ks),
            out.0,
        ),
        distinct_cells(out.0),
        forall|t: int|
            0 <= t < out.1.len() ==> lane_ok(g, directed, start, end, avoid, #[trigger] out.1[t]),
        forall|p: int|
            0 <= p < out.0.len() ==> cell_ok(g, start, end, avoid, out.1, #[trigger] out.0[p]),
    decreases ks.len(),
{
    let adj = contracted(g, directed, start, end);
    let nodes = node_list(g, start, end);
    let a = nodes[from];
    lemma_nodes_distinct(g, start, end);
    lemma_position_exact(g, start, end, from);
    crate::trails::lemma_node_count_bound(g, start, end);
    assert(is_node(g, start, end, a));
    lemma_node_passable(g, start, end, a);
    if ks.len() == 0 {
        let w = seq![a];
        let lanes = Seq::<Seq<Coordinate>>::empty();
        assert(grid_walk(g, directed, w));
        assert(cell_ok(g, start, end, avoid, lanes, w[0]));
        (w, lanes)
    } else {
        let e = adj[from][ks[0]];
        let more = avoid.push(from as usize);
        assert(more[avoid.len() as int] == from as usize);
        assert(adj[from] == edges_upto(g, directed, start, end, a, 4));
        let first = lemma_edge_lane(g, directed, start, end, a, ks[0]);
        let (rest, others) = lemma_path_cells(
            g,
            directed,
            start,
            end,
            more,
            e.to as int,
            ks.drop_first(),
            to,
        );
        lemma_position_exact(g, start, end, e.to as int);
        assert(!more.contains(e.to));
        assert(e.to != from);
        assert(first[0] != first.last());
        assert(clear_of(g, start, end, avoid, first.last())) by {
            if avoid.contains(e.to) {
                let k = choose|k: int| 0 <= k < avoid.len() && avoid[k] == e.to;
                assert(more[k] == e.to);
            }
        }
        assert(lane_ok(g, directed, start, end, avoid, first));
        lemma_lane_walk(g, directed, start, end, first);
        crate::trails::lemma_join_walks(g, directed, first, rest);
        lemma_glue_lanes(g, directed, start, end, avoid, from as usize, first, others);
        lemma_glue_cells(g, directed, start, end, avoid, from as usize, first, rest, others);
        lemma_glue_distinct(g, directed, start, end, avoid, from as usize, first, rest, others);
        (first + rest.drop_first(), seq![first] + others)
    }
}

/// `m` is the number of steps of a longest walk from `start` to `end`
/// that enters no cell twice.
pub open spec fn is_longest_walk(
    g: Cells,
    directed: bool,
    start: Coordinate,
    end: Coordinate,
    m: int,
) -> bool {
    &&& exists|w: Seq<Coordinate>| #[trigger]
        walk_between(g, directed, start, end, m, w) && distinct_cells(w)
    &&& forall|w: Seq<Coordinate>| #[trigger]
        grid_walk(g, directed, w) && distinct_cells(w) && w[0] == start && w.last() == end
            ==> w.len() - 1 <= m
}

/// No walk leads from `start` to `end`.
pub open spec fn cut_off(g: Cells, directed: bool, start: Coordinate, end: Coordinate) -> bool {
    forall|w: Seq<Coordinate>| !(#[trigger] grid_walk(g, directed, w) && w[0] == start && w.last() == end)
}

/// What the search for the longest walk from `start` to `end` yields, in
/// terms of the grid alone: the number of steps of a longest walk that
/// enters no cell twice, or that no walk leads there. A terminal that is
/// no passable cell is never reached.
pub open spec fn longest_walk(
    g: Cells,
    directed: bool,
    start: Coordinate,
    end: Coordinate,
    r: Result<u64, SearchError>,
) -> bool {
    if passable(g, start.x as int, start.y as int) && passable(g, end.x as int, end.y as int) {
        match r {
            Ok(m) => is_longest_walk(g, directed, start, end, m as int),
            Err(e) => e == SearchError::NoPathFound && cut_off(g, directed, start, end),
        }
    } else {
        r == Err::<u64, SearchError>(SearchError::NoPathFound)
    }
}

/// Both terminals stand in the list of nodes where the search looks for
/// them.
proof fn lemma_terminals(g: Cells, start: Coordinate, end: Coordinate)
    ensures
        node_list(g, start, end)[0] == start,
        node_list(g, start, end)[end_node(start, end)] == end,
{
}

/// A simple path from the first node to the node of `end` is a walk
/// from `start` to `end` that enters no cell twice, of as many steps as
/// the path weighs.
proof fn lemma_route_walk(
    g: Cells,
    directed: bool,
    start: Coordinate,
    end: Coordinate,
    ks: Seq<int>,
) -> (found: Seq<Coordinate>)
    requires
        rectangular(g),
        passable(g, start.x as int, start.y as int),
        passable(g, end.x as int, end.y as int),
        simple_path(contracted(g, directed, start, end), Seq::empty(), 0, ks, end_node(start, end)),
    ensures
        walk_between(
            g,
            directed,
            start,
            end,
            path_weight(contracted(g, directed, start, end), 0, ks),
            found,
        ),
        distinct_cells(found),
{
    lemma_terminals(g, start, end);
    let (found, lanes) = lemma_path_cells(
        g,
        directed,
        start,
        end,
        Seq::empty(),
        0,
        ks,
        end_node(start, end),
    );
    found
}

/// No walk from `start` to `end` that enters no cell twice has more
/// steps than the heaviest simple path of the contracted graph weighs.
proof fn lemma_walk_bounded(
    g: Cells,
    directed: bool,
    start: Coordinate,
    end: Coordinate,
    m: int,
    w: Seq<Coordinate>,
)
    requires
        rectangular(g),
        passable(g, start.x as int, start.y as int),
        is_longest(contracted(g, directed, start, end), Seq::empty(), 0, end_node(start, end), m),
        grid_walk(g, directed, w),
        distinct_cells(w),
        w[0] == start,
        w.last() == end,
    ensures
        w.len() - 1 <= m,
{
    let ks = lemma_reachability_preserved(g, directed, start, end, w);
    assert(simple_path(contracted(g, directed, start, end), Seq::empty(), 0, ks, end_node(start, end)));
}

/// The heaviest simple path of the contracted graph weighs as much as
/// the longest walk on the grid that enters no cell twice is long.
pub proof fn lemma_longest_is_walk(
    g: Cells,
    directed: bool,
    start: Coordinate,
    end: Coordinate,
    m: int,
)
    requires
        rectangular(g),
        passable(g, start.x as int, start.y as int),
        passable(g, end.x as int, end.y as int),
        is_longest(contracted(g, directed, start, end), Seq::empty(), 0, end_node(start, end), m),
    ensures
        is_longest_walk(g, directed, start, end, m),
{
    let best = choose|ks: Seq<int>| #[trigger]
        simple_path(contracted(g, directed, start, end), Seq::empty(), 0, ks, end_node(start, end))
            && path_weight(contracted(g, directed, start, end), 0, ks) == m;
    let found = lemma_route_walk(g, directed, start, end, best);
    assert(walk_between(g, directed, start, end, m, found) && distinct_cells(found));
    assert forall|w: Seq<Coordinate>| #[trigger]
        grid_walk(g, directed, w) && distinct_cells(w) && w[0] == start && w.last() == end implies w.len()
        - 1 <= m by {
        lemma_walk_bounded(g, directed, start, end, m, w);
    }
}

/// What the search through the contracted graph yields is what holds of
/// the walks on the grid.
pub proof fn lemma_longest_walk(
    g: Cells,
    directed: bool,
    start: Coordinate,
    end: Coordinate,
    r: Result<u64, SearchError>,
)
    requires
        rectangular(g),
        longest_trail(g, directed, start, end, r),
    ensures
        longest_walk(g, directed, start, end, r),
{
    if passable(g, start.x as int, start.y as int) && passable(g, end.x as int, end.y as int) {
        match r {
            Ok(m) => {
                lemma_longest_is_walk(g, directed, start, end, m as int);
            },
            Err(e) => {
                assert forall|w: Seq<Coordinate>|
                    !(#[trigger] grid_walk(g, directed, w) && w[0] == start && w.last() == end) by {
                    lemma_no_path_no_walk(g, directed, start, end, w);
                }
            },
        }
    }
}

} // verus!
