//! Cheapest-route search over run-limited states: a priority queue ordered
//! by accumulated cost, and a table of the states whose cost is final.

use crate::grid::{in_bounds, rectangular, Cells, Coordinate, Direction, Grid, SearchError};
use crate::heap::MinHeap;
use crate::state_space::{
    cost_of, entry_cost, is_route, is_shortest, is_start, legal_path, legal_step, lemma_cost_monotone,
    lemma_extend_legal, lemma_path_ok, lemma_prefix_legal, lemma_step_ok, no_route, path_cost,
    reaches_goal, state_ok, RunLimits, SearchState,
};
use std::collections::HashMap;
use vstd::multiset::Multiset;
use vstd::prelude::*;

verus! {

broadcast use vstd::std_specs::hash::group_hash_axioms;

/// One more than the largest key a state on a grid can have.
pub const KEY_SPACE: u64 = 0x4_0000_0000_0000;

/// The number under which a state is filed in the table of final costs.
pub open spec fn key_of(s: SearchState) -> int {
    ((s.pos.y * 65536 + s.pos.x) * 4 + s.dir.spec_index()) * 65536 + s.run
}

/// States that fit one grid have different keys.
pub proof fn lemma_key_injective(grid: Cells, s: SearchState, t: SearchState)
    requires
        rectangular(grid),
        state_ok(grid, s),
        state_ok(grid, t),
        key_of(s) == key_of(t),
    ensures
        s == t,
{
    assert(s.run < 65536 && t.run < 65536);
    assert(s.pos.x < 65536 && t.pos.x < 65536);
    let a = (s.pos.y * 65536 + s.pos.x) * 4 + s.dir.spec_index();
    let b = (t.pos.y * 65536 + t.pos.x) * 4 + t.dir.spec_index();
    assert(a == b);
    assert(s.dir.spec_index() == t.dir.spec_index());
    assert(s.dir == t.dir);
}

/// The key of a state that fits a grid lies below [`KEY_SPACE`].
pub proof fn lemma_key_bound(grid: Cells, s: SearchState)
    requires
        rectangular(grid),
        state_ok(grid, s),
    ensures
        0 <= key_of(s) < KEY_SPACE,
{
}

/// The number under which `s` is filed.
fn encode(grid: &Grid, s: &SearchState) -> (k: u64)
    requires
        state_ok(grid@, *s),
    ensures
        k == key_of(*s),
        k < KEY_SPACE,
{
    proof {
        use_type_invariant(grid);
        grid.lemma_rectangular();
        lemma_key_bound(grid@, *s);
    }
    let idx = s.dir.index() as u64;
    (((s.pos.y as u64) * 65536 + (s.pos.x as u64)) * 4 + idx) * 65536 + (s.run as u64)
}

/// Some entry for `t` is queued at a cost of at most `bound`.
spec fn queued_below(q: Multiset<(u64, SearchState)>, t: SearchState, bound: int) -> bool {
    exists|c: u64| c <= bound && #[trigger] q.count((c, t)) > 0
}

/// Some legal walk ends in `s` at cost `c`.
spec fn reached(grid: Cells, lim: RunLimits, start: Coordinate, s: SearchState, c: int) -> bool {
    exists|p: Seq<SearchState>|
        #[trigger] legal_path(grid, lim, start, p) && p.last() == s && path_cost(grid, p) == c
}

/// No legal walk ends in `s` at a cost below `c`.
spec fn no_cheaper(grid: Cells, lim: RunLimits, start: Coordinate, s: SearchState, c: int) -> bool {
    forall|p: Seq<SearchState>|
        #[trigger] legal_path(grid, lim, start, p) && p.last() == s ==> path_cost(grid, p) >= c
}

/// The cost of `s` is final.
spec fn is_done(done: Map<u64, u64>, s: SearchState) -> bool {
    done.contains_key(key_of(s) as u64)
}

/// The final cost of `s`.
spec fn dist(done: Map<u64, u64>, s: SearchState) -> int {
    done[key_of(s) as u64] as int
}

/// What the search maintains between two pops. While the successors of
/// the state `src` are being queued, `rest` holds those still to come;
/// otherwise `rest` is empty.
spec fn search_inv(
    grid: Cells,
    lim: RunLimits,
    start: Coordinate,
    end: Coordinate,
    done: Map<u64, u64>,
    q: Multiset<(u64, SearchState)>,
    src: SearchState,
    rest: Seq<SearchState>,
) -> bool {
    &&& done.dom().finite()
    &&& forall|k: u64| #[trigger] done.contains_key(k) ==> k < KEY_SPACE
    &&& forall|e: (u64, SearchState)| #[trigger]
        q.count(e) > 0 ==> {
            &&& state_ok(grid, e.1)
            &&& reached(grid, lim, start, e.1, e.0 as int)
            &&& e.0 <= 255 * done.dom().len()
        }
    &&& forall|s: SearchState|
        state_ok(grid, s) && #[trigger] is_done(done, s) ==> {
            &&& reached(grid, lim, start, s, dist(done, s))
            &&& no_cheaper(grid, lim, start, s, dist(done, s))
            &&& !reaches_goal(lim, end, s)
            &&& dist(done, s) + 255 <= 255 * done.dom().len()
        }
    &&& forall|s: SearchState, t: SearchState|
        state_ok(grid, s) && is_done(done, s) && #[trigger] legal_step(grid, lim, s, t) ==> {
            ||| is_done(done, t)
            ||| queued_below(q, t, dist(done, s) + entry_cost(grid, t.pos))
            ||| (s == src && rest.contains(t))
        }
    &&& forall|s: SearchState| #[trigger]
        is_start(grid, start, s) ==> is_done(done, s) || queued_below(q, s, 0)
}

/// An entry for another state stays queued when `e` leaves the queue.
proof fn lemma_queued_after_remove(
    q: Multiset<(u64, SearchState)>,
    e: (u64, SearchState),
    t: SearchState,
    bound: int,
)
    requires
        queued_below(q, t, bound),
        t != e.1,
    ensures
        queued_below(q.remove(e), t, bound),
{
    let c = choose|c: u64| c <= bound && #[trigger] q.count((c, t)) > 0;
    assert(q.remove(e).count((c, t)) > 0);
}

/// An entry stays queued when another joins the queue.
proof fn lemma_queued_after_insert(
    q: Multiset<(u64, SearchState)>,
    e: (u64, SearchState),
    t: SearchState,
    bound: int,
)
    requires
        queued_below(q, t, bound),
    ensures
        queued_below(q.insert(e), t, bound),
{
    let c = choose|c: u64| c <= bound && #[trigger] q.count((c, t)) > 0;
    assert(q.insert(e).count((c, t)) > 0);
}

/// A finite set of numbers below `n` has at most `n` members.
pub proof fn lemma_bounded_set_len(s: Set<u64>, n: u64)
    requires
        s.finite(),
        forall|k: u64| s.contains(k) ==> k < n,
    ensures
        s.len() <= n,
    decreases n,
{
    if n == 0 {
        if s.len() > 0 {
            let k = s.choose();
            assert(s.contains(k));
        }
    } else {
        let top = (n - 1) as u64;
        let r = s.remove(top);
        assert forall|k: u64| r.contains(k) implies k < top by {
            assert(s.contains(k));
        }
        lemma_bounded_set_len(r, top);
    }
}

/// Every legal walk that ends in a state whose cost is not final passes
/// through a queued entry that is no dearer than the walk.
proof fn lemma_frontier(
    grid: Cells,
    lim: RunLimits,
    start: Coordinate,
    end: Coordinate,
    done: Map<u64, u64>,
    q: Multiset<(u64, SearchState)>,
    src: SearchState,
    p: Seq<SearchState>,
)
    requires
        rectangular(grid),
        search_inv(grid, lim, start, end, done, q, src, Seq::empty()),
        legal_path(grid, lim, start, p),
        !is_done(done, p.last()),
    ensures
        exists|e: (u64, SearchState)| #[trigger] q.count(e) > 0 && e.0 <= path_cost(grid, p),
    decreases p.len(),
{
    lemma_cost_monotone(grid, p);
    if p.len() == 1 {
        assert(is_start(grid, start, p[0]));
        assert(queued_below(q, p[0], 0));
        let c = choose|c: u64| c <= 0 && #[trigger] q.count((c, p[0])) > 0;
        assert(q.count((c, p[0])) > 0 && (c, p[0]).0 <= path_cost(grid, p));
    } else {
        let pre = p.drop_last();
        let s = pre.last();
        let t = p.last();
        lemma_prefix_legal(grid, lim, start, p);
        lemma_path_ok(grid, lim, start, pre);
        if is_done(done, s) {
            assert(no_cheaper(grid, lim, start, s, dist(done, s)));
            assert(path_cost(grid, pre) >= dist(done, s));
            assert(legal_step(grid, lim, s, t));
            assert(!Seq::<SearchState>::empty().contains(t));
            let bound = dist(done, s) + entry_cost(grid, t.pos);
            assert(queued_below(q, t, bound));
            let c = choose|c: u64| c <= bound && #[trigger] q.count((c, t)) > 0;
            assert(q.count((c, t)) > 0 && (c, t).0 <= path_cost(grid, p));
        } else {
            lemma_frontier(grid, lim, start, end, done, q, src, pre);
            let e = choose|e: (u64, SearchState)| #[trigger]
                q.count(e) > 0 && e.0 <= path_cost(grid, pre);
            assert(q.count(e) > 0 && e.0 <= path_cost(grid, p));
        }
    }
}

/// With the four start states queued at cost zero and no cost final yet,
/// the search may begin.
proof fn lemma_init(
    grid: Cells,
    lim: RunLimits,
    start: Coordinate,
    end: Coordinate,
    q: Multiset<(u64, SearchState)>,
)
    requires
        rectangular(grid),
        in_bounds(grid, start.x as int, start.y as int),
        forall|e: (u64, SearchState)| #[trigger]
            q.count(e) > 0 <==> e.0 == 0 && e.1.pos == start && e.1.run == 0,
    ensures
        search_inv(
            grid,
            lim,
            start,
            end,
            Map::<u64, u64>::empty(),
            q,
            SearchState { pos: start, dir: Direction::North, run: 0 },
            Seq::empty(),
        ),
{
    let done = Map::<u64, u64>::empty();
    assert forall|e: (u64, SearchState)| #[trigger] q.count(e) > 0 implies {
        &&& state_ok(grid, e.1)
        &&& reached(grid, lim, start, e.1, e.0 as int)
        &&& e.0 <= 255 * done.dom().len()
    } by {
        let p = seq![e.1];
        assert(is_start(grid, start, p[0]));
        assert(legal_path(grid, lim, start, p));
        assert(p.last() == e.1);
        assert(path_cost(grid, p) == 0);
    }
    assert forall|s: SearchState| #[trigger] is_start(grid, start, s) implies is_done(done, s)
        || queued_below(q, s, 0) by {
        assert(q.count((0u64, s)) > 0);
    }
}

/// Dropping an entry whose state already has its final cost keeps the
/// search sound.
proof fn lemma_skip(
    grid: Cells,
    lim: RunLimits,
    start: Coordinate,
    end: Coordinate,
    done: Map<u64, u64>,
    q: Multiset<(u64, SearchState)>,
    src: SearchState,
    e: (u64, SearchState),
)
    requires
        search_inv(grid, lim, start, end, done, q, src, Seq::empty()),
        q.count(e) > 0,
        is_done(done, e.1),
    ensures
        search_inv(grid, lim, start, end, done, q.remove(e), src, Seq::empty()),
{
    let q2 = q.remove(e);
    assert forall|x: (u64, SearchState)| #[trigger] q2.count(x) > 0 implies q.count(x) > 0 by {}
    assert forall|s: SearchState, t: SearchState|
        state_ok(grid, s) && is_done(done, s) && #[trigger] legal_step(grid, lim, s, t) implies {
        ||| is_done(done, t)
        ||| queued_below(q2, t, dist(done, s) + entry_cost(grid, t.pos))
        ||| (s == src && Seq::<SearchState>::empty().contains(t))
    } by {
        if !is_done(done, t) {
            assert(!Seq::<SearchState>::empty().contains(t));
            lemma_queued_after_remove(q, e, t, dist(done, s) + entry_cost(grid, t.pos));
        }
    }
    assert forall|s: SearchState| #[trigger] is_start(grid, start, s) implies is_done(done, s)
        || queued_below(q2, s, 0) by {
        if !is_done(done, s) {
            lemma_queued_after_remove(q, e, s, 0);
        }
    }
}

/// The first popped entry whose state may stop at `end` carries the cost
/// of a cheapest route.
proof fn lemma_goal(
    grid: Cells,
    lim: RunLimits,
    start: Coordinate,
    end: Coordinate,
    done: Map<u64, u64>,
    q: Multiset<(u64, SearchState)>,
    src: SearchState,
    e: (u64, SearchState),
)
    requires
        rectangular(grid),
        search_inv(grid, lim, start, end, done, q, src, Seq::empty()),
        q.count(e) > 0,
        forall|o: (u64, SearchState)| q.count(o) > 0 ==> e.0 <= o.0,
        reaches_goal(lim, end, e.1),
    ensures
        is_shortest(grid, lim, start, end, e.0 as int),
{
    assert(reached(grid, lim, start, e.1, e.0 as int));
    let w = choose|p: Seq<SearchState>|
        #[trigger] legal_path(grid, lim, start, p) && p.last() == e.1 && path_cost(grid, p) == e.0;
    assert(is_route(grid, lim, start, end, w) && path_cost(grid, w) == e.0);
    assert forall|p: Seq<SearchState>| is_route(grid, lim, start, end, p) implies path_cost(grid, p)
        >= e.0 by {
        lemma_path_ok(grid, lim, start, p);
        if is_done(done, p.last()) {
            assert(!reaches_goal(lim, end, p.last()));
        }
        lemma_frontier(grid, lim, start, end, done, q, src, p);
        let o = choose|o: (u64, SearchState)| #[trigger] q.count(o) > 0 && o.0 <= path_cost(grid, p);
        assert(e.0 <= o.0);
    }
}

/// Once the queue is empty no route exists.
proof fn lemma_exhausted(
    grid: Cells,
    lim: RunLimits,
    start: Coordinate,
    end: Coordinate,
    done: Map<u64, u64>,
    q: Multiset<(u64, SearchState)>,
    src: SearchState,
)
    requires
        rectangular(grid),
        search_inv(grid, lim, start, end, done, q, src, Seq::empty()),
        q.len() == 0,
    ensures
        no_route(grid, lim, start, end),
{
    assert forall|p: Seq<SearchState>| !is_route(grid, lim, start, end, p) by {
        if is_route(grid, lim, start, end, p) {
            lemma_path_ok(grid, lim, start, p);
            if is_done(done, p.last()) {
                assert(!reaches_goal(lim, end, p.last()));
            }
            lemma_frontier(grid, lim, start, end, done, q, src, p);
            let o = choose|o: (u64, SearchState)| #[trigger]
                q.count(o) > 0 && o.0 <= path_cost(grid, p);
            assert(q.count(o) > 0);
            assert(q.len() > 0);
        }
    }
}

/// Fixing the cost of the state of a cheapest queued entry keeps the
/// search sound, with all its successors still to be queued.
proof fn lemma_commit(
    grid: Cells,
    lim: RunLimits,
    start: Coordinate,
    end: Coordinate,
    done: Map<u64, u64>,
    q: Multiset<(u64, SearchState)>,
    src: SearchState,
    e: (u64, SearchState),
    succ: Seq<SearchState>,
)
    requires
        rectangular(grid),
        search_inv(grid, lim, start, end, done, q, src, Seq::empty()),
        q.count(e) > 0,
        forall|o: (u64, SearchState)| q.count(o) > 0 ==> e.0 <= o.0,
        !is_done(done, e.1),
        !reaches_goal(lim, end, e.1),
        forall|t: SearchState| succ.contains(t) <==> legal_step(grid, lim, e.1, t),
    ensures
        search_inv(
            grid,
            lim,
            start,
            end,
            done.insert(key_of(e.1) as u64, e.0),
            q.remove(e),
            e.1,
            succ,
        ),
        done.insert(key_of(e.1) as u64, e.0).dom().len() == done.dom().len() + 1,
        done.dom().len() < KEY_SPACE,
{
    let s0 = e.1;
    let k0 = key_of(s0) as u64;
    let done2 = done.insert(k0, e.0);
    let q2 = q.remove(e);
    lemma_key_bound(grid, s0);
    assert(done2.dom() =~= done.dom().insert(k0));
    assert(done2.dom().len() == done.dom().len() + 1);
    lemma_bounded_set_len(done2.dom(), KEY_SPACE);
    assert forall|x: (u64, SearchState)| #[trigger] q2.count(x) > 0 implies {
        &&& state_ok(grid, x.1)
        &&& reached(grid, lim, start, x.1, x.0 as int)
        &&& x.0 <= 255 * done2.dom().len()
    } by {
        assert(q.count(x) > 0);
    }
    assert forall|s: SearchState| state_ok(grid, s) && #[trigger] is_done(done2, s) implies {
        &&& reached(grid, lim, start, s, dist(done2, s))
        &&& no_cheaper(grid, lim, start, s, dist(done2, s))
        &&& !reaches_goal(lim, end, s)
        &&& dist(done2, s) + 255 <= 255 * done2.dom().len()
    } by {
        lemma_key_bound(grid, s);
        if key_of(s) == key_of(s0) {
            lemma_key_injective(grid, s, s0);
            assert(dist(done2, s) == e.0);
            assert forall|p: Seq<SearchState>|
                #[trigger] legal_path(grid, lim, start, p) && p.last() == s implies path_cost(
                grid,
                p,
            ) >= e.0 by {
                lemma_frontier(grid, lim, start, end, done, q, src, p);
                let o = choose|o: (u64, SearchState)| #[trigger]
                    q.count(o) > 0 && o.0 <= path_cost(grid, p);
                assert(e.0 <= o.0);
            }
        } else {
            assert(is_done(done, s));
            assert(dist(done2, s) == dist(done, s));
        }
    }
    assert forall|s: SearchState, t: SearchState|
        state_ok(grid, s) && is_done(done2, s) && #[trigger] legal_step(grid, lim, s, t) implies {
        ||| is_done(done2, t)
        ||| queued_below(q2, t, dist(done2, s) + entry_cost(grid, t.pos))
        ||| (s == s0 && succ.contains(t))
    } by {
        lemma_key_bound(grid, s);
        lemma_step_ok(grid, lim, s, t);
        lemma_key_bound(grid, t);
        if key_of(s) == key_of(s0) {
            lemma_key_injective(grid, s, s0);
        } else {
            assert(is_done(done, s));
            assert(dist(done2, s) == dist(done, s));
            assert(!Seq::<SearchState>::empty().contains(t));
            if is_done(done, t) {
                assert(is_done(done2, t));
            } else if t == s0 {
                assert(is_done(done2, t));
            } else {
                lemma_queued_after_remove(q, e, t, dist(done, s) + entry_cost(grid, t.pos));
            }
        }
    }
    assert forall|s: SearchState| #[trigger] is_start(grid, start, s) implies is_done(done2, s)
        || queued_below(q2, s, 0) by {
        if is_done(done, s) {
            assert(is_done(done2, s));
        } else if s == s0 {
            assert(is_done(done2, s));
        } else {
            lemma_queued_after_remove(q, e, s, 0);
        }
    }
}

/// Queueing the next successor of `src` keeps the search sound.
proof fn lemma_push(
    grid: Cells,
    lim: RunLimits,
    start: Coordinate,
    end: Coordinate,
    done: Map<u64, u64>,
    q: Multiset<(u64, SearchState)>,
    src: SearchState,
    rest: Seq<SearchState>,
    c: u64,
)
    requires
        rectangular(grid),
        search_inv(grid, lim, start, end, done, q, src, rest),
        rest.len() > 0,
        state_ok(grid, src),
        is_done(done, src),
        legal_step(grid, lim, src, rest[0]),
        c == dist(done, src) + entry_cost(grid, rest[0].pos),
    ensures
        search_inv(grid, lim, start, end, done, q.insert((c, rest[0])), src, rest.drop_first()),
{
    let t0 = rest[0];
    let q2 = q.insert((c, t0));
    let rest2 = rest.drop_first();
    lemma_step_ok(grid, lim, src, t0);
    assert(reached(grid, lim, start, t0, c as int)) by {
        let p = choose|p: Seq<SearchState>|
            #[trigger] legal_path(grid, lim, start, p) && p.last() == src && path_cost(grid, p)
                == dist(done, src);
        lemma_extend_legal(grid, lim, start, p, t0);
        let other_route = p.push(t0);
        assert(legal_path(grid, lim, start, other_route) && other_route.last() == t0 && path_cost(grid, other_route) == c);
    }
    assert forall|x: (u64, SearchState)| #[trigger] q2.count(x) > 0 implies {
        &&& state_ok(grid, x.1)
        &&& reached(grid, lim, start, x.1, x.0 as int)
        &&& x.0 <= 255 * done.dom().len()
    } by {
        if x != (c, t0) {
            assert(q.count(x) > 0);
        }
    }
    assert forall|s: SearchState, t: SearchState|
        state_ok(grid, s) && is_done(done, s) && #[trigger] legal_step(grid, lim, s, t) implies {
        ||| is_done(done, t)
        ||| queued_below(q2, t, dist(done, s) + entry_cost(grid, t.pos))
        ||| (s == src && rest2.contains(t))
    } by {
        if is_done(done, t) {
        } else if queued_below(q, t, dist(done, s) + entry_cost(grid, t.pos)) {
            lemma_queued_after_insert(q, (c, t0), t, dist(done, s) + entry_cost(grid, t.pos));
        } else {
            assert(s == src && rest.contains(t));
            if t == t0 {
                assert(q2.count((c, t0)) > 0);
            } else {
                let i = choose|i: int| 0 <= i < rest.len() && rest[i] == t;
                assert(rest2[i - 1] == t);
            }
        }
    }
    assert forall|s: SearchState| #[trigger] is_start(grid, start, s) implies is_done(done, s)
        || queued_below(q2, s, 0) by {
        if !is_done(done, s) {
            lemma_queued_after_insert(q, (c, t0), s, 0);
        }
    }
}

/// The cost of a cheapest route from `start` to `end` under the run
/// limits `lim`, or `None` where no route exists.
///
/// Entries leave the queue cheapest first. An entry whose state already
/// has a final cost is dropped; otherwise its cost becomes final. The
/// search stops at the first state with a final cost that stands on `end`
/// with a run long enough to stop, so a state in the middle of a run is
/// never read out as an arrival.
pub fn dijkstra(grid: &Grid, start: Coordinate, end: Coordinate, lim: RunLimits) -> (r: Option<u64>)
    ensures
        match r {
            Some(c) => is_shortest(grid@, lim, start, end, c as int),
            None => no_route(grid@, lim, start, end),
        },
{
    proof {
        use_type_invariant(grid);
        grid.lemma_rectangular();
    }
    if grid.get(start).is_none() {
        proof {
            assert forall|p: Seq<SearchState>| !is_route(grid@, lim, start, end, p) by {
                if is_route(grid@, lim, start, end, p) {
                    assert(is_start(grid@, start, p[0]));
                }
            }
        }
        return None;
    }
    let mut done: HashMap<u64, u64> = HashMap::new();
    let mut queue: MinHeap<SearchState> = MinHeap::new();
    let mut i: usize = 0;
    while i < 4
        invariant
            i <= 4,
            queue.wf(),
            forall|e: (u64, SearchState)| #[trigger]
                queue@.count(e) > 0 <==> e.0 == 0 && e.1.pos == start && e.1.run == 0
                    && e.1.dir.spec_index() < i,
        decreases 4 - i,
    {
        let s = SearchState { pos: start, dir: Direction::from_index(i), run: 0 };
        queue.push(0, s);
        i += 1;
    }
    let ghost mut src = SearchState { pos: start, dir: Direction::North, run: 0 };
    proof {
        lemma_init(grid@, lim, start, end, queue@);
    }
    loop
        invariant
            rectangular(grid@),
            queue.wf(),
            search_inv(grid@, lim, start, end, done@, queue@, src, Seq::empty()),
        decreases KEY_SPACE - done@.dom().len(), queue.spec_len(),
    {
        let ghost q0 = queue@;
        let ghost d0 = done@;
        proof {
            lemma_bounded_set_len(done@.dom(), KEY_SPACE);
            queue.lemma_len();
        }
        match queue.pop() {
            None => {
                proof {
                    lemma_exhausted(grid@, lim, start, end, d0, q0, src);
                }
                return None;
            },
            Some(e) => {
                let c = e.0;
                let s = e.1;
                let k = encode(grid, &s);
                if done.contains_key(&k) {
                    proof {
                        lemma_skip(grid@, lim, start, end, d0, q0, src, e);
                    }
                } else {
                    if s.pos == end && s.run >= lim.min_run {
                        proof {
                            lemma_goal(grid@, lim, start, end, d0, q0, src, e);
                        }
                        return Some(c);
                    }
                    let succ = s.next(grid, lim);
                    done.insert(k, c);
                    proof {
                        lemma_commit(grid@, lim, start, end, d0, q0, src, e, succ@);
                        src = s;
                        assert(succ@.subrange(0, succ@.len() as int) =~= succ@);
                        assert(done@ == d0.insert(key_of(s) as u64, c));
                        assert(queue@ == q0.remove(e));
                    }
                    let mut j: usize = 0;
                    while j < succ.len()
                        invariant
                            j <= succ@.len(),
                            rectangular(grid@),
                            queue.wf(),
                            state_ok(grid@, s),
                            is_done(done@, s),
                            dist(done@, s) == c,
                            c <= 255 * (done@.dom().len() - 1),
                            done@.dom().len() <= KEY_SPACE,
                            forall|t: SearchState| succ@.contains(t) ==> legal_step(grid@, lim, s, t),
                            search_inv(
                                grid@,
                                lim,
                                start,
                                end,
                                done@,
                                queue@,
                                s,
                                succ@.subrange(j as int, succ@.len() as int),
                            ),
                        decreases succ@.len() - j,
                    {
                        let t = succ[j];
                        let ghost rest = succ@.subrange(j as int, succ@.len() as int);
                        proof {
                            assert(succ@.contains(t));
                            assert(rest[0] == t);
                            lemma_step_ok(grid@, lim, s, t);
                        }
                        let w = match grid.get(t.pos) {
                            Some(b) => cost_of(b),
                            None => 0,
                        };
                        let ghost qb = queue@;
                        queue.push(c + w, t);
                        proof {
                            lemma_push(grid@, lim, start, end, done@, qb, s, rest, (c + w) as u64);
                            assert(rest.drop_first() =~= succ@.subrange(
                                j as int + 1,
                                succ@.len() as int,
                            ));
                        }
                        j += 1;
                    }
                    proof {
                        assert(succ@.subrange(succ@.len() as int, succ@.len() as int)
                            =~= Seq::<SearchState>::empty());
                    }
                }
            },
        }
    }
}

/// The cost of a cheapest walk from `start` to `end` that never reverses,
/// never moves more than `max_run` steps in a row in one direction, and
/// turns or stops only after at least `min_run` steps in a row. The cost
/// of a walk is the summed cost of the cells it enters.
pub fn shortest_constrained_path(
    grid: &Grid,
    start: Coordinate,
    end: Coordinate,
    min_run: usize,
    max_run: usize,
) -> (r: Result<u64, SearchError>)
    ensures
        match r {
            Ok(c) => is_shortest(grid@, RunLimits { min_run, max_run }, start, end, c as int),
            Err(e) => e == SearchError::NoPathFound && no_route(
                grid@,
                RunLimits { min_run, max_run },
                start,
                end,
            ),
        },
{
    match dijkstra(grid, start, end, RunLimits { min_run, max_run }) {
        Some(c) => Ok(c),
        None => Err(SearchError::NoPathFound),
    }
}

} // verus!
