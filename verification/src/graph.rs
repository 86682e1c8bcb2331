//! A sparse weighted graph of junctions, and the exhaustive search for
//! its heaviest simple path.

use crate::grid::Coordinate;
use vstd::prelude::*;

verus! {

/// Largest weight an edge may carry.
pub const MAX_WEIGHT: u64 = 0xFFFF_FFFF;

/// Largest number of nodes a graph may have.
pub const MAX_NODES: usize = 0xFFFF_FFFF;

/// A connection to node `to` over a corridor of `weight` steps.
#[derive(Clone, Copy, Debug, PartialEq, Eq, Structural)]
pub struct Edge {
    pub to: usize,
    pub weight: u64,
}

impl DeepView for Edge {
    type V = Edge;

    open spec fn deep_view(&self) -> Edge {
        *self
    }
}

/// Whether `adj` lists, for each node, edges to nodes that exist, with
/// admissible weights.
pub open spec fn adjacency_ok(adj: Seq<Seq<Edge>>) -> bool {
    &&& adj.len() <= MAX_NODES
    &&& forall|a: int, k: int|
        0 <= a < adj.len() && 0 <= k < adj[a].len() ==> {
            &&& (#[trigger] adj[a][k]).to < adj.len()
            &&& adj[a][k].weight <= MAX_WEIGHT
        }
}

/// Whether following, from node `from`, the edges numbered `ks` (each
/// number counts within the list of the node it leaves) is a walk to `end`
/// that enters no node twice and none of `avoid`.
pub open spec fn simple_path(
    adj: Seq<Seq<Edge>>,
    avoid: Seq<usize>,
    from: int,
    ks: Seq<int>,
    end: int,
) -> bool
    decreases ks.len(),
{
    &&& 0 <= from < adj.len()
    &&& !avoid.contains(from as usize)
    &&& if ks.len() == 0 {
        from == end
    } else {
        &&& from != end
        &&& 0 <= ks[0] < adj[from].len()
        &&& simple_path(
            adj,
            avoid.push(from as usize),
            adj[from][ks[0]].to as int,
            ks.drop_first(),
            end,
        )
    }
}

/// The summed weight of the edges numbered `ks`, followed from `from`.
pub open spec fn path_weight(adj: Seq<Seq<Edge>>, from: int, ks: Seq<int>) -> int
    decreases ks.len(),
{
    if ks.len() == 0 {
        0
    } else {
        adj[from][ks[0]].weight + path_weight(adj, adj[from][ks[0]].to as int, ks.drop_first())
    }
}

/// `m` is the weight of a heaviest simple path from `from` to `end` that
/// enters none of `avoid`.
pub open spec fn is_longest(
    adj: Seq<Seq<Edge>>,
    avoid: Seq<usize>,
    from: int,
    end: int,
    m: int,
) -> bool {
    &&& exists|ks: Seq<int>| #[trigger]
        simple_path(adj, avoid, from, ks, end) && path_weight(adj, from, ks) == m
    &&& forall|ks: Seq<int>| #[trigger]
        simple_path(adj, avoid, from, ks, end) ==> path_weight(adj, from, ks) <= m
}

/// No simple path leads from `from` to `end` without entering `avoid`.
pub open spec fn no_simple_path(adj: Seq<Seq<Edge>>, avoid: Seq<usize>, from: int, end: int) -> bool {
    forall|ks: Seq<int>| !#[trigger] simple_path(adj, avoid, from, ks, end)
}

/// An edge to a node from which a simple path goes on, taken from a node
/// that the path avoids, begins a simple path that weighs as much as the
/// edge and the rest together.
pub proof fn lemma_prepend_edge(
    adj: Seq<Seq<Edge>>,
    avoid: Seq<usize>,
    from: int,
    k: int,
    tail: Seq<int>,
    end: int,
)
    requires
        0 <= from < adj.len(),
        !avoid.contains(from as usize),
        from != end,
        0 <= k < adj[from].len(),
        simple_path(adj, avoid.push(from as usize), adj[from][k].to as int, tail, end),
    ensures
        simple_path(adj, avoid, from, seq![k] + tail, end),
        path_weight(adj, from, seq![k] + tail) == adj[from][k].weight + path_weight(
            adj,
            adj[from][k].to as int,
            tail,
        ),
{
    let ks = seq![k] + tail;
    assert(ks.drop_first() =~= tail);
    assert(ks[0] == k);
}

/// Where only one simple path joins two nodes, its weight is the weight
/// of the heaviest one.
pub proof fn lemma_single_path(adj: Seq<Seq<Edge>>, start: int, end: int, only: Seq<int>)
    requires
        simple_path(adj, Seq::empty(), start, only, end),
        forall|ks: Seq<int>| #[trigger] simple_path(adj, Seq::empty(), start, ks, end) ==> ks == only,
    ensures
        is_longest(adj, Seq::empty(), start, end, path_weight(adj, start, only)),
        forall|m: int|
            is_longest(adj, Seq::empty(), start, end, m) ==> m == path_weight(adj, start, only),
{
    assert forall|m: int| is_longest(adj, Seq::empty(), start, end, m) implies m == path_weight(
        adj,
        start,
        only,
    ) by {
        let ks = choose|ks: Seq<int>| #[trigger]
            simple_path(adj, Seq::empty(), start, ks, end) && path_weight(adj, start, ks) == m;
        assert(ks == only);
    }
}

/// Distinct numbers below `n` are at most `n` many.
pub proof fn lemma_distinct_bounded(s: Seq<usize>, n: nat)
    requires
        s.no_duplicates(),
        forall|i: int| 0 <= i < s.len() ==> s[i] < n,
    ensures
        s.len() <= n,
    decreases n,
{
    if s.len() > 0 {
        if n == 0 {
            assert(s[0] < n);
        } else {
            let top = (n - 1) as usize;
            if s.contains(top) {
                let j = choose|j: int| 0 <= j < s.len() && s[j] == top;
                let r = s.remove(j);
                assert forall|a: int, b: int| 0 <= a < r.len() && 0 <= b < r.len() && a != b implies r[a]
                    != r[b] by {
                    let a2 = if a < j {
                        a
                    } else {
                        a + 1
                    };
                    let b2 = if b < j {
                        b
                    } else {
                        b + 1
                    };
                    assert(s[a2] != s[b2]);
                }
                assert forall|i: int| 0 <= i < r.len() implies r[i] < n - 1 by {
                    let i2 = if i < j {
                        i
                    } else {
                        i + 1
                    };
                    assert(s[i2] != s[j]);
                    assert(s[i2] < n);
                }
                lemma_distinct_bounded(r, (n - 1) as nat);
            } else {
                assert forall|i: int| 0 <= i < s.len() implies s[i] < n - 1 by {
                    assert(s.contains(s[i]));
                    assert(s[i] < n);
                }
                lemma_distinct_bounded(s, (n - 1) as nat);
            }
        }
    }
}

/// Whether `x` occurs in `stack`.
pub fn on_stack(stack: &Vec<usize>, x: usize) -> (r: bool)
    ensures
        r == stack@.contains(x),
{
    let mut i: usize = 0;
    while i < stack.len()
        invariant
            i <= stack@.len(),
            forall|k: int| 0 <= k < i ==> stack@[k] != x,
        decreases stack@.len() - i,
    {
        if stack[i] == x {
            return true;
        }
        i += 1;
    }
    false
}

/// One level of the search: the node that the branch has reached, how
/// many of its edges have been tried, the weight of the heaviest path to
/// the end found through those, and the weight of the edge by which the
/// node was reached.
#[derive(Clone, Copy)]
pub struct Frame {
    pub node: usize,
    pub next: usize,
    pub best: Option<u64>,
    pub via: u64,
}

/// What holds of a level of the search whose node stands above the nodes
/// `below`: `best` is the weight of a simple path to `end`, and no simple
/// path that begins with one of the first `next` edges weighs more.
pub open spec fn frame_ok(g: Seq<Seq<Edge>>, end: int, below: Seq<usize>, f: Frame) -> bool {
    &&& f.node < g.len()
    &&& f.node != end
    &&& !below.contains(f.node)
    &&& f.next <= g[f.node as int].len()
    &&& match f.best {
        Some(m) => m <= MAX_WEIGHT * (g.len() - 1 - below.len()) && exists|ks: Seq<int>| #[trigger]
            simple_path(g, below, f.node as int, ks, end) && path_weight(g, f.node as int, ks) == m,
        None => true,
    }
    &&& forall|ks: Seq<int>| #[trigger]
        simple_path(g, below, f.node as int, ks, end) && ks[0] < f.next ==> f.best is Some
            && path_weight(g, f.node as int, ks) <= f.best->Some_0
}

/// The level `child` explores the edge that the level `parent` is about
/// to try.
pub open spec fn link_ok(g: Seq<Seq<Edge>>, parent: Frame, child: Frame) -> bool {
    &&& parent.next < g[parent.node as int].len()
    &&& g[parent.node as int][parent.next as int].to == child.node
    &&& g[parent.node as int][parent.next as int].weight == child.via
}

/// What holds of level `i` of the search: its node stands on the stack
/// at its place, above the nodes of the levels before it, and the level
/// after it explores one of its edges.
pub open spec fn level_ok(
    g: Seq<Seq<Edge>>,
    end: int,
    stack: Seq<usize>,
    base: int,
    frames: Seq<Frame>,
    i: int,
) -> bool {
    &&& stack[base + i] == frames[i].node
    &&& frame_ok(g, end, stack.take(base + i), frames[i])
    &&& (i + 1 < frames.len() ==> link_ok(g, frames[i], frames[i + 1]))
}

/// The heavier of what was found before and a new find.
pub open spec fn improved(best: Option<u64>, cand: u64) -> Option<u64> {
    match best {
        Some(b) => if cand > b {
            Some(cand)
        } else {
            Some(b)
        },
        None => Some(cand),
    }
}

/// The heavier of what was found before and a new find.
pub fn improve(best: Option<u64>, cand: u64) -> (r: Option<u64>)
    ensures
        r == improved(best, cand),
{
    match best {
        Some(b) => if cand > b {
            Some(cand)
        } else {
            Some(b)
        },
        None => Some(cand),
    }
}

/// At the end itself the heaviest path is the empty one.
pub proof fn lemma_at_end(g: Seq<Seq<Edge>>, avoid: Seq<usize>, end: int)
    requires
        0 <= end < g.len(),
        !avoid.contains(end as usize),
    ensures
        is_longest(g, avoid, end, end, 0),
{
    let ks = Seq::<int>::empty();
    assert(simple_path(g, avoid, end, ks, end));
    assert(path_weight(g, end, ks) == 0);
    assert forall|ks: Seq<int>| #[trigger] simple_path(g, avoid, end, ks, end) implies path_weight(
        g,
        end,
        ks,
    ) <= 0 by {
        assert(ks.len() == 0);
    }
}

/// A level that has tried no edge yet is in order.
pub proof fn lemma_frame_fresh(g: Seq<Seq<Edge>>, end: int, below: Seq<usize>, node: usize, via: u64)
    requires
        node < g.len(),
        node != end,
        !below.contains(node),
    ensures
        frame_ok(g, end, below, Frame { node, next: 0, best: None, via }),
{
}

/// An edge to a node of the branch begins no simple path, so the level
/// may pass it over.
pub proof fn lemma_frame_skip(g: Seq<Seq<Edge>>, end: int, below: Seq<usize>, f: Frame)
    requires
        frame_ok(g, end, below, f),
        f.next < g[f.node as int].len(),
        below.push(f.node).contains(g[f.node as int][f.next as int].to),
    ensures
        frame_ok(g, end, below, Frame { next: (f.next + 1) as usize, ..f }),
{
    let after = Frame { next: (f.next + 1) as usize, ..f };
    assert forall|ks: Seq<int>| #[trigger]
        simple_path(g, below, f.node as int, ks, end) && ks[0] < after.next implies after.best is Some
        && path_weight(g, f.node as int, ks) <= after.best->Some_0 by {
        if ks[0] == f.next {
            assert(simple_path(
                g,
                below.push(f.node),
                g[f.node as int][f.next as int].to as int,
                ks.drop_first(),
                end,
            ));
        }
    }
}

/// An edge behind which no simple path leads to the end adds nothing.
pub proof fn lemma_frame_blind(g: Seq<Seq<Edge>>, end: int, below: Seq<usize>, f: Frame)
    requires
        frame_ok(g, end, below, f),
        f.next < g[f.node as int].len(),
        no_simple_path(g, below.push(f.node), g[f.node as int][f.next as int].to as int, end),
    ensures
        frame_ok(g, end, below, Frame { next: (f.next + 1) as usize, ..f }),
{
    let after = Frame { next: (f.next + 1) as usize, ..f };
    assert forall|ks: Seq<int>| #[trigger]
        simple_path(g, below, f.node as int, ks, end) && ks[0] < after.next implies after.best is Some
        && path_weight(g, f.node as int, ks) <= after.best->Some_0 by {
        if ks[0] == f.next {
            assert(simple_path(
                g,
                below.push(f.node),
                g[f.node as int][f.next as int].to as int,
                ks.drop_first(),
                end,
            ));
        }
    }
}

/// An edge behind which the heaviest simple path to the end weighs `m`
/// offers the level a path of the edge's weight and `m` together.
pub proof fn lemma_frame_gain(g: Seq<Seq<Edge>>, end: int, below: Seq<usize>, f: Frame, m: u64)
    requires
        adjacency_ok(g),
        frame_ok(g, end, below, f),
        f.next < g[f.node as int].len(),
        below.len() + 2 <= g.len(),
        is_longest(
            g,
            below.push(f.node),
            g[f.node as int][f.next as int].to as int,
            end,
            m as int,
        ),
        m <= MAX_WEIGHT * (g.len() - 2 - below.len()),
    ensures
        g[f.node as int][f.next as int].weight + m <= MAX_WEIGHT * (g.len() - 1 - below.len()),
        MAX_WEIGHT * (g.len() - 1 - below.len()) <= u64::MAX,
        frame_ok(
            g,
            end,
            below,
            Frame {
                next: (f.next + 1) as usize,
                best: improved(f.best, (g[f.node as int][f.next as int].weight + m) as u64),
                ..f
            },
        ),
{
    let e = g[f.node as int][f.next as int];
    let inner = below.push(f.node);
    let cand = e.weight + m;
    let n = g.len() as int;
    assert(e.weight <= MAX_WEIGHT);
    assert(MAX_WEIGHT * (n - 1 - below.len()) == MAX_WEIGHT * (n - 2 - below.len()) + MAX_WEIGHT)
        by (nonlinear_arith);
    assert(MAX_WEIGHT * (n - 1 - below.len()) <= 0xFFFF_FFFF * 0xFFFF_FFFF) by (nonlinear_arith)
        requires
            MAX_WEIGHT == 0xFFFF_FFFF,
            0 <= n - 1 - below.len() <= 0xFFFF_FFFF,
    ;
    let after = Frame { next: (f.next + 1) as usize, best: improved(f.best, cand as u64), ..f };
    let tail = choose|tail: Seq<int>| #[trigger]
        simple_path(g, inner, e.to as int, tail, end) && path_weight(g, e.to as int, tail) == m;
    lemma_prepend_edge(g, below, f.node as int, f.next as int, tail, end);
    let found = seq![f.next as int] + tail;
    assert(simple_path(g, below, f.node as int, found, end));
    assert(path_weight(g, f.node as int, found) == cand);
    assert forall|ks: Seq<int>| #[trigger]
        simple_path(g, below, f.node as int, ks, end) && ks[0] < after.next implies after.best is Some
        && path_weight(g, f.node as int, ks) <= after.best->Some_0 by {
        if ks[0] == f.next {
            assert(simple_path(g, inner, e.to as int, ks.drop_first(), end));
        }
    }
}

/// A level that has tried all its edges knows the heaviest simple path
/// from its node to the end.
pub proof fn lemma_frame_result(g: Seq<Seq<Edge>>, end: int, below: Seq<usize>, f: Frame)
    requires
        frame_ok(g, end, below, f),
        f.next == g[f.node as int].len(),
    ensures
        match f.best {
            Some(m) => is_longest(g, below, f.node as int, end, m as int) && m <= MAX_WEIGHT * (g.len()
                - 1 - below.len()),
            None => no_simple_path(g, below, f.node as int, end),
        },
{
    assert forall|ks: Seq<int>| #[trigger] simple_path(g, below, f.node as int, ks, end) implies f.best is Some
        && path_weight(g, f.node as int, ks) <= f.best->Some_0 by {
        assert(ks.len() > 0);
        assert(ks[0] < f.next);
    }
}

/// The greatest number of edges that leave one of the first `upto`
/// nodes.
pub open spec fn widest(g: Seq<Seq<Edge>>, upto: int) -> nat
    decreases upto,
{
    if upto <= 0 {
        0
    } else if g[upto - 1].len() > widest(g, upto - 1) {
        g[upto - 1].len()
    } else {
        widest(g, upto - 1)
    }
}

/// No node has more edges than the widest.
pub proof fn lemma_widest(g: Seq<Seq<Edge>>, upto: int, a: int)
    requires
        0 <= a < upto,
    ensures
        g[a].len() <= widest(g, upto),
    decreases upto,
{
    if a < upto - 1 {
        lemma_widest(g, upto - 1, a);
    }
}

/// `c` to the power `k`.
pub open spec fn power(c: nat, k: nat) -> nat
    decreases k,
{
    if k == 0 {
        1
    } else {
        c * power(c, (k - 1) as nat)
    }
}

/// A power of a positive number is positive.
pub proof fn lemma_power_positive(c: nat, k: nat)
    requires
        c >= 1,
    ensures
        power(c, k) >= 1,
    decreases k,
{
    if k > 0 {
        lemma_power_positive(c, (k - 1) as nat);
        assert(c * power(c, (k - 1) as nat) >= 1) by (nonlinear_arith)
            requires
                c >= 1,
                power(c, (k - 1) as nat) >= 1,
        ;
    }
}

/// How much work is left to a search whose levels have `rem` edges left
/// to try, in a graph of `n` nodes none of which has `c - 1` edges or
/// more: each level weighs as much as all that can follow below it. The
/// number falls with every step of the search.
pub open spec fn work(rem: Seq<nat>, c: nat, n: nat) -> nat
    decreases rem.len(),
{
    if rem.len() == 0 {
        0
    } else {
        work(rem.drop_last(), c, n) + (rem.last() + 1) * power(c, (n - (rem.len() - 1)) as nat)
    }
}

/// Trying an edge of the last level leaves less work.
pub proof fn lemma_work_try(s: Seq<nat>, r: nat, c: nat, n: nat)
    requires
        c >= 1,
        r >= 1,
    ensures
        work(s.push((r - 1) as nat), c, n) < work(s.push(r), c, n),
{
    let p = power(c, (n - s.len()) as nat);
    lemma_power_positive(c, (n - s.len()) as nat);
    assert(s.push(r).drop_last() =~= s);
    assert(s.push((r - 1) as nat).drop_last() =~= s);
    assert(r * p < (r + 1) * p) by (nonlinear_arith)
        requires
            p >= 1,
    ;
}

/// Opening a level for an edge of the last level leaves less work.
pub proof fn lemma_work_push(s: Seq<nat>, r: nat, d: nat, c: nat, n: nat)
    requires
        c >= 1,
        r >= 1,
        d + 2 <= c,
        s.len() < n,
    ensures
        work(s.push((r - 1) as nat).push(d), c, n) < work(s.push(r), c, n),
{
    let k = (n - s.len()) as nat;
    let p = power(c, k);
    let q = power(c, (k - 1) as nat);
    lemma_power_positive(c, (k - 1) as nat);
    assert(p == c * q);
    let lower = s.push((r - 1) as nat);
    assert(s.push(r).drop_last() =~= s);
    assert(lower.drop_last() =~= s);
    assert(lower.push(d).drop_last() =~= lower);
    assert(work(lower.push(d), c, n) == work(lower, c, n) + (d + 1) * q);
    assert(work(lower, c, n) == work(s, c, n) + r * p);
    assert(work(s.push(r), c, n) == work(s, c, n) + (r + 1) * p);
    assert((d + 1) * q < c * q) by (nonlinear_arith)
        requires
            d + 1 < c,
            q >= 1,
    ;
    assert((r + 1) * p == r * p + p) by (nonlinear_arith);
}

/// Closing the last level leaves less work.
pub proof fn lemma_work_pop(s: Seq<nat>, r: nat, c: nat, n: nat)
    requires
        c >= 1,
    ensures
        work(s, c, n) < work(s.push(r), c, n),
{
    let p = power(c, (n - s.len()) as nat);
    lemma_power_positive(c, (n - s.len()) as nat);
    assert(s.push(r).drop_last() =~= s);
    assert((r + 1) * p >= 1) by (nonlinear_arith)
        requires
            p >= 1,
    ;
}

/// How many edges are left to the level `i` of the search: those not
/// yet tried, without the one that the level after it explores.
pub open spec fn edges_left(g: Seq<Seq<Edge>>, frames: Seq<Frame>, i: int) -> nat {
    (g[frames[i].node as int].len() - frames[i].next - if i + 1 < frames.len() {
        1int
    } else {
        0int
    }) as nat
}

/// The weight of a heaviest simple path from `current` to `end` that
/// enters no node on `stack`, or `None` where there is no such path.
/// `stack` holds the nodes of the branch being explored; it is handed
/// back as it came. The search keeps its levels in a list of its own and
/// tries every branch, one edge at a time.
pub fn search_simple_graph(
    adj: &Vec<Vec<Edge>>,
    current: usize,
    end: usize,
    stack: &mut Vec<usize>,
) -> (r: Option<u64>)
    requires
        adjacency_ok(adj.deep_view()),
        current < adj@.len(),
        old(stack)@.no_duplicates(),
        forall|i: int| 0 <= i < old(stack)@.len() ==> old(stack)@[i] < adj@.len(),
        !old(stack)@.contains(current),
    ensures
        final(stack)@ == old(stack)@,
        match r {
            Some(m) => is_longest(adj.deep_view(), old(stack)@, current as int, end as int, m as int)
                && m <= MAX_WEIGHT * (adj@.len() - 1 - old(stack)@.len()),
            None => no_simple_path(adj.deep_view(), old(stack)@, current as int, end as int),
        },
{
    let ghost g = adj.deep_view();
    let ghost avoid = stack@;
    let n = adj.len();
    let base = stack.len();
    proof {
        assert(g.len() == n);
        lemma_distinct_bounded(avoid.push(current), n as nat);
    }
    if current == end {
        proof {
            lemma_at_end(g, avoid, end as int);
        }
        return Some(0);
    }
    let ghost c: nat = widest(g, n as int) + 2;
    stack.push(current);
    let mut frames: Vec<Frame> = Vec::new();
    frames.push(Frame { node: current, next: 0, best: None, via: 0 });
    let mut result: Option<u64> = None;
    let ghost mut rem: Seq<nat> = seq![g[current as int].len()];
    proof {
        lemma_frame_fresh(g, end as int, avoid, current, 0);
        assert(stack@.take(base as int) =~= avoid);
        assert(level_ok(g, end as int, stack@, base as int, frames@, 0));
        assert(rem[0] == edges_left(g, frames@, 0));
    }
    while frames.len() > 0
        invariant
            n == adj@.len(),
            g == adj.deep_view(),
            adjacency_ok(g),
            avoid == old(stack)@,
            base == avoid.len(),
            c == widest(g, n as int) + 2,
            current < n,
            current != end,
            stack@.len() == base + frames@.len(),
            stack@.take(base as int) == avoid,
            stack@.no_duplicates(),
            forall|i: int| 0 <= i < stack@.len() ==> stack@[i] < n,
            forall|i: int|
                0 <= i < frames@.len() ==> #[trigger] level_ok(
                    g,
                    end as int,
                    stack@,
                    base as int,
                    frames@,
                    i,
                ),
            frames@.len() > 0 ==> frames@[0].node == current,
            frames@.len() == 0 ==> match result {
                Some(m) => is_longest(g, avoid, current as int, end as int, m as int) && m
                    <= MAX_WEIGHT * (n - 1 - avoid.len()),
                None => no_simple_path(g, avoid, current as int, end as int),
            },
            rem.len() == frames@.len(),
            forall|i: int| 0 <= i < frames@.len() ==> #[trigger] rem[i] == edges_left(g, frames@, i),
        decreases work(rem, c, n as nat),
    {
        let top = frames.len() - 1;
        let f = frames[top];
        let ghost old_frames = frames@;
        let ghost old_stack = stack@;
        let ghost old_rem = rem;
        let ghost below = stack@.take(base + top);
        proof {
            assert(level_ok(g, end as int, old_stack, base as int, old_frames, top as int));
            assert(old_stack =~= below.push(f.node));
            lemma_distinct_bounded(old_stack, n as nat);
            assert(old_rem[top as int] == edges_left(g, old_frames, top as int));
            assert(old_rem =~= old_rem.drop_last().push(old_rem[top as int]));
        }
        let degree = adj[f.node].len();
        assert(g[f.node as int].len() == degree);
        if f.next < degree {
            let e = adj[f.node][f.next];
            assert(e == g[f.node as int][f.next as int]);
            if on_stack(stack, e.to) {
                proof {
                    lemma_frame_skip(g, end as int, below, f);
                }
                frames.set(top, Frame { next: f.next + 1, ..f });
                proof {
                    rem = old_rem.drop_last().push((old_rem[top as int] - 1) as nat);
                    lemma_work_try(old_rem.drop_last(), old_rem[top as int], c, n as nat);
                    lemma_levels_kept(g, end as int, old_stack, base as int, old_frames, frames@);
                }
            } else if e.to == end {
                proof {
                    lemma_distinct_bounded(old_stack.push(e.to), n as nat);
                    lemma_at_end(g, old_stack, end as int);
                    lemma_frame_gain(g, end as int, below, f, 0);
                }
                let best = improve(f.best, e.weight);
                frames.set(top, Frame { next: f.next + 1, best, ..f });
                proof {
                    rem = old_rem.drop_last().push((old_rem[top as int] - 1) as nat);
                    lemma_work_try(old_rem.drop_last(), old_rem[top as int], c, n as nat);
                    lemma_levels_kept(g, end as int, old_stack, base as int, old_frames, frames@);
                }
            } else {
                proof {
                    lemma_distinct_bounded(old_stack.push(e.to), n as nat);
                    lemma_frame_fresh(g, end as int, old_stack, e.to, e.weight);
                    lemma_widest(g, n as int, e.to as int);
                }
                stack.push(e.to);
                frames.push(Frame { node: e.to, next: 0, best: None, via: e.weight });
                proof {
                    let d = g[e.to as int].len();
                    rem = old_rem.drop_last().push((old_rem[top as int] - 1) as nat).push(d);
                    lemma_work_push(old_rem.drop_last(), old_rem[top as int], d, c, n as nat);
                    lemma_levels_grown(g, end as int, old_stack, base as int, old_frames, e.to, e.weight);
                    assert(stack@.take(base as int) =~= avoid);
                    assert forall|i: int| 0 <= i < frames@.len() implies #[trigger] rem[i]
                        == edges_left(g, frames@, i) by {
                        if i < top {
                            assert(old_rem[i] == edges_left(g, old_frames, i));
                        }
                    }
                }
            }
        } else {
            proof {
                lemma_frame_result(g, end as int, below, f);
            }
            frames.pop();
            stack.pop();
            assert(stack@ =~= below);
            if frames.len() == 0 {
                result = f.best;
                proof {
                    rem = Seq::empty();
                    lemma_work_pop(old_rem.drop_last(), old_rem[top as int], c, n as nat);
                    assert(old_rem.drop_last() =~= rem);
                    assert(below =~= avoid);
                }
            } else {
                let p = frames[top - 1];
                proof {
                    assert(p == old_frames[top - 1]);
                    assert(level_ok(g, end as int, old_stack, base as int, old_frames, top - 1));
                }
                let width = adj[p.node].len();
                let ghost under = old_stack.take(base + top - 1);
                proof {
                    assert(p == old_frames[top - 1]);
                    assert(f == old_frames[top as int]);
                    assert(level_ok(g, end as int, old_stack, base as int, old_frames, top - 1));
                    assert(link_ok(g, p, f));
                    assert(under.push(p.node) =~= below);
                    assert(g[p.node as int].len() == width);
                }
                match f.best {
                    Some(m) => {
                        proof {
                            lemma_frame_gain(g, end as int, under, p, m);
                        }
                        let best = improve(p.best, f.via + m);
                        frames.set(top - 1, Frame { next: p.next + 1, best, ..p });
                    },
                    None => {
                        proof {
                            lemma_frame_blind(g, end as int, under, p);
                        }
                        frames.set(top - 1, Frame { next: p.next + 1, ..p });
                    },
                }
                proof {
                    rem = old_rem.drop_last();
                    lemma_work_pop(old_rem.drop_last(), old_rem[top as int], c, n as nat);
                    lemma_levels_shrunk(g, end as int, old_stack, base as int, old_frames, frames@);
                    assert(old_stack.drop_last() =~= stack@);
                    assert(stack@.take(base as int) =~= avoid);
                    assert forall|i: int| 0 <= i < frames@.len() implies #[trigger] rem[i]
                        == edges_left(g, frames@, i) by {
                        assert(old_rem[i] == edges_left(g, old_frames, i));
                    }
                }
            }
        }
    }
    assert(stack@ =~= avoid);
    result
}

/// Where the last level alone has changed, and neither its node nor how
/// it was reached, the levels are in order as before, given that the
/// last level is.
proof fn lemma_levels_kept(
    g: Seq<Seq<Edge>>,
    end: int,
    stack: Seq<usize>,
    base: int,
    before: Seq<Frame>,
    after: Seq<Frame>,
)
    requires
        before.len() >= 1,
        after.len() == before.len(),
        forall|i: int| 0 <= i < before.len() - 1 ==> after[i] == before[i],
        after.last().node == before.last().node,
        after.last().via == before.last().via,
        forall|i: int| 0 <= i < before.len() ==> #[trigger] level_ok(g, end, stack, base, before, i),
        frame_ok(g, end, stack.take(base + before.len() - 1), after.last()),
    ensures
        forall|i: int| 0 <= i < after.len() ==> #[trigger] level_ok(g, end, stack, base, after, i),
{
    assert forall|i: int| 0 <= i < after.len() implies #[trigger] level_ok(
        g,
        end,
        stack,
        base,
        after,
        i,
    ) by {
        assert(level_ok(g, end, stack, base, before, i));
    }
}

/// Where a level is opened for the edge that the last level is about to
/// try, the levels are in order as before, the new one with them.
proof fn lemma_levels_grown(
    g: Seq<Seq<Edge>>,
    end: int,
    stack: Seq<usize>,
    base: int,
    before: Seq<Frame>,
    to: usize,
    via: u64,
)
    requires
        before.len() >= 1,
        base >= 0,
        stack.len() == base + before.len(),
        forall|i: int| 0 <= i < before.len() ==> #[trigger] level_ok(g, end, stack, base, before, i),
        before.last().next < g[before.last().node as int].len(),
        g[before.last().node as int][before.last().next as int] == (Edge { to, weight: via }),
        frame_ok(g, end, stack, Frame { node: to, next: 0, best: None, via }),
    ensures
        forall|i: int|
            0 <= i < before.len() + 1 ==> #[trigger] level_ok(
                g,
                end,
                stack.push(to),
                base,
                before.push(Frame { node: to, next: 0, best: None, via }),
                i,
            ),
{
    let after = before.push(Frame { node: to, next: 0, best: None, via });
    let more = stack.push(to);
    assert forall|i: int| 0 <= i < after.len() implies #[trigger] level_ok(g, end, more, base, after, i) by {
        if i < before.len() {
            assert(level_ok(g, end, stack, base, before, i));
            assert(more.take(base + i) =~= stack.take(base + i));
        } else {
            assert(more.take(base + i) =~= stack);
        }
    }
}

/// Where the last level is closed and the level before it has changed,
/// but neither its node nor how it was reached, the levels that are left
/// are in order, given that the one before the last is.
proof fn lemma_levels_shrunk(
    g: Seq<Seq<Edge>>,
    end: int,
    stack: Seq<usize>,
    base: int,
    before: Seq<Frame>,
    after: Seq<Frame>,
)
    requires
        before.len() >= 2,
        base >= 0,
        stack.len() == base + before.len(),
        after.len() == before.len() - 1,
        forall|i: int| 0 <= i < after.len() - 1 ==> after[i] == before[i],
        after.last().node == before[before.len() - 2].node,
        after.last().via == before[before.len() - 2].via,
        forall|i: int| 0 <= i < before.len() ==> #[trigger] level_ok(g, end, stack, base, before, i),
        frame_ok(g, end, stack.take(base + after.len() - 1), after.last()),
    ensures
        forall|i: int|
            0 <= i < after.len() ==> #[trigger] level_ok(g, end, stack.drop_last(), base, after, i),
{
    let less = stack.drop_last();
    assert forall|i: int| 0 <= i < after.len() implies #[trigger] level_ok(g, end, less, base, after, i) by {
        assert(level_ok(g, end, stack, base, before, i));
        assert(less.take(base + i) =~= stack.take(base + i));
    }
}

/// A graph whose nodes are grid positions and whose edges are the
/// corridors between them.
pub struct JunctionGraph {
    nodes: Vec<Coordinate>,
    adj: Vec<Vec<Edge>>,
}

impl JunctionGraph {
    #[verifier::type_invariant]
    pub closed spec fn inv(&self) -> bool {
        adjacency_ok(self.adj.deep_view()) && self.nodes@.len() == self.adj@.len()
    }

    /// The position of each node.
    pub closed spec fn nodes(&self) -> Seq<Coordinate> {
        self.nodes@
    }

    /// The edges that leave each node.
    pub closed spec fn adjacency(&self) -> Seq<Seq<Edge>> {
        self.adj.deep_view()
    }

    /// Number of nodes.
    pub fn node_count(&self) -> (n: usize)
        ensures
            n == self.nodes().len(),
            n == self.adjacency().len(),
    {
        proof {
            use_type_invariant(self);
        }
        self.nodes.len()
    }

    /// The position of node `a`.
    pub fn node(&self, a: usize) -> (c: Coordinate)
        requires
            a < self.nodes().len(),
        ensures
            c == self.nodes()[a as int],
    {
        self.nodes[a]
    }

    /// The edges that leave node `a`.
    pub fn edges(&self, a: usize) -> (es: Vec<Edge>)
        requires
            a < self.adjacency().len(),
        ensures
            es@ == self.adjacency()[a as int],
    {
        let src = &self.adj[a];
        let mut out: Vec<Edge> = Vec::new();
        let mut i: usize = 0;
        while i < src.len()
            invariant
                i <= src@.len(),
                out@ == src@.subrange(0, i as int),
            decreases src@.len() - i,
        {
            out.push(src[i]);
            assert(out@ =~= src@.subrange(0, i as int + 1));
            i += 1;
        }
        assert(out@ =~= src@);
        assert(self.adj.deep_view()[a as int] =~= src@);
        out
    }

    /// The number of the node at `c`, or `None` where no node stands there.
    pub fn find(&self, c: Coordinate) -> (r: Option<usize>)
        ensures
            match r {
                Some(a) => a < self.nodes().len() && self.nodes()[a as int] == c && forall|b: int|
                    0 <= b < a ==> self.nodes()[b] != c,
                None => !self.nodes().contains(c),
            },
    {
        let mut i: usize = 0;
        while i < self.nodes.len()
            invariant
                i <= self.nodes@.len(),
                forall|b: int| 0 <= b < i ==> self.nodes@[b] != c,
            decreases self.nodes@.len() - i,
        {
            if self.nodes[i] == c {
                return Some(i);
            }
            i += 1;
        }
        None
    }

    /// What [`JunctionGraph::inv`] asks is what [`adjacency_ok`] and equal
    /// lengths give.
    pub proof fn lemma_assembled(&self)
        requires
            adjacency_ok(self.adjacency()),
            self.nodes().len() == self.adjacency().len(),
        ensures
            self.inv(),
    {
    }

    /// Puts together a graph whose parts are known to fit.
    pub(crate) fn assemble(nodes: Vec<Coordinate>, adj: Vec<Vec<Edge>>) -> (g: JunctionGraph)
        requires
            adjacency_ok(adj.deep_view()),
            nodes@.len() == adj@.len(),
        ensures
            g.nodes() == nodes@,
            g.adjacency() == adj.deep_view(),
    {
        JunctionGraph { nodes, adj }
    }

    /// Builds a graph from the positions of its nodes and the edges that
    /// leave each of them.
    pub fn new(nodes: Vec<Coordinate>, adj: Vec<Vec<Edge>>) -> (r: Option<JunctionGraph>)
        ensures
            match r {
                Some(g) => g.nodes() == nodes@ && g.adjacency() == adj.deep_view() && g.inv(),
                None => !(adjacency_ok(adj.deep_view()) && nodes@.len() == adj@.len()),
            },
    {
        let n = adj.len();
        if nodes.len() != n || n > MAX_NODES {
            return None;
        }
        let mut a: usize = 0;
        while a < n
            invariant
                a <= n,
                n == adj@.len(),
                n <= MAX_NODES,
                forall|i: int, k: int|
                    0 <= i < a && 0 <= k < adj.deep_view()[i].len() ==> {
                        &&& (#[trigger] adj.deep_view()[i][k]).to < n
                        &&& adj.deep_view()[i][k].weight <= MAX_WEIGHT
                    },
            decreases n - a,
        {
            let row = &adj[a];
            assert(adj.deep_view()[a as int] =~= row@);
            let mut k: usize = 0;
            while k < row.len()
                invariant
                    k <= row@.len(),
                    a < n,
                    n == adj@.len(),
                    adj.deep_view()[a as int] == row@,
                    forall|j: int|
                        0 <= j < k ==> (#[trigger] row@[j]).to < n && row@[j].weight <= MAX_WEIGHT,
                decreases row@.len() - k,
            {
                if row[k].to >= n || row[k].weight > MAX_WEIGHT {
                    proof {
                        let bad = adj.deep_view()[a as int][k as int];
                        assert(!(bad.to < n && bad.weight <= MAX_WEIGHT));
                    }
                    return None;
                }
                k += 1;
            }
            a += 1;
        }
        Some(JunctionGraph { nodes, adj })
    }

    /// The weight of a heaviest simple path from node `start` to node
    /// `end`, or `None` where no path joins them or either is no node.
    pub fn longest_path(&self, start: usize, end: usize) -> (r: Option<u64>)
        ensures
            match r {
                Some(m) => is_longest(
                    self.adjacency(),
                    Seq::empty(),
                    start as int,
                    end as int,
                    m as int,
                ),
                None => no_simple_path(self.adjacency(), Seq::empty(), start as int, end as int),
            },
    {
        proof {
            use_type_invariant(self);
        }
        if start >= self.adj.len() {
            return None;
        }
        let mut stack: Vec<usize> = Vec::new();
        search_simple_graph(&self.adj, start, end, &mut stack)
    }
}

} // verus!
