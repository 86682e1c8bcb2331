//! Wiring diagram: cutting three wires to split the apparatus in two.

use crate::chance::{pick_from_iter, pick_from_slice};
use crate::text::{fields_of, lines_equal, lines_of, split_fields, split_lines};
use vstd::prelude::*;
use vstd::string::StringSliceAdditionalSpecFns;

verus! {

/// The wires between `count` components: each wire joins the components
/// numbered by its two ends.
pub struct Wiring {
    pub count: usize,
    pub edges: Vec<(usize, usize)>,
}

/// How often a split into two groups is tried before giving up.
pub const ATTEMPTS: u64 = 1000000;

/// Whether both ends of every wire number a component.
pub open spec fn wiring_ok(count: int, edges: Seq<(usize, usize)>) -> bool {
    forall|k: int| 0 <= k < edges.len() ==> (#[trigger] edges[k]).0 < count && edges[k].1 < count
}

/// How many of the first `upto` wires join components of different
/// groups.
pub open spec fn cut_upto(edges: Seq<(usize, usize)>, groups: Seq<usize>, upto: int) -> int
    decreases upto,
{
    if upto <= 0 {
        0
    } else {
        cut_upto(edges, groups, upto - 1) + if groups[edges[upto - 1].0 as int]
            != groups[edges[upto - 1].1 as int] {
            1int
        } else {
            0int
        }
    }
}

/// How many of the first `upto` components belong to group `group`.
pub open spec fn size_upto(groups: Seq<usize>, group: usize, upto: int) -> int
    decreases upto,
{
    if upto <= 0 {
        0
    } else {
        size_upto(groups, group, upto - 1) + if groups[upto - 1] == group {
            1int
        } else {
            0int
        }
    }
}

/// `groups` parts the components into the two groups `a` and `b`, neither
/// of them empty, joined by exactly three wires, and `p` is the product
/// of the sizes of the two groups.
pub open spec fn three_cut(
    count: int,
    edges: Seq<(usize, usize)>,
    groups: Seq<usize>,
    a: usize,
    b: usize,
    p: int,
) -> bool {
    &&& groups.len() == count
    &&& a != b
    &&& forall|i: int| 0 <= i < count ==> #[trigger] groups[i] == a || groups[i] == b
    &&& size_upto(groups, a, count) >= 1
    &&& size_upto(groups, b, count) >= 1
    &&& cut_upto(edges, groups, edges.len() as int) == 3
    &&& p == size_upto(groups, a, count) * size_upto(groups, b, count)
}

/// Some split of the components in two is joined by exactly three wires
/// and gives the product `p`.
pub open spec fn splits(count: int, edges: Seq<(usize, usize)>, p: int) -> bool {
    exists|groups: Seq<usize>, a: usize, b: usize| #[trigger]
        three_cut(count, edges, groups, a, b, p)
}

/// What a merge of group `from` into group `into` makes of `groups`.
pub open spec fn merged(groups: Seq<usize>, from: usize, into: usize) -> Seq<usize> {
    Seq::new(
        groups.len(),
        |i: int|
            if groups[i] == from {
                into
            } else {
                groups[i]
            },
    )
}

/// A group has at least as many members as a member was seen.
proof fn lemma_size_member(groups: Seq<usize>, group: usize, upto: int, i: int)
    requires
        0 <= i < upto <= groups.len(),
        groups[i] == group,
    ensures
        size_upto(groups, group, upto) >= 1,
        size_upto(groups, group, upto) <= upto,
    decreases upto,
{
    lemma_size_bound(groups, group, upto);
    if i < upto - 1 {
        lemma_size_member(groups, group, upto - 1, i);
    } else {
        lemma_size_bound(groups, group, upto - 1);
    }
}

/// A group has at most as many members as components were counted.
proof fn lemma_size_bound(groups: Seq<usize>, group: usize, upto: int)
    requires
        0 <= upto,
    ensures
        0 <= size_upto(groups, group, upto) <= upto,
    decreases upto,
{
    if upto > 0 {
        lemma_size_bound(groups, group, upto - 1);
    }
}

/// Merges group `from` into group `into`.
pub fn merge(groups: &mut Vec<usize>, from: usize, into: usize)
    ensures
        final(groups)@ == merged(old(groups)@, from, into),
{
    let n = groups.len();
    let ghost before = groups@;
    let mut i: usize = 0;
    while i < n
        invariant
            i <= n,
            n == before.len(),
            groups@.len() == n,
            forall|k: int|
                0 <= k < i ==> #[trigger] groups@[k] == if before[k] == from {
                    into
                } else {
                    before[k]
                },
            forall|k: int| i <= k < n ==> #[trigger] groups@[k] == before[k],
        decreases n - i,
    {
        if groups[i] == from {
            groups.set(i, into);
        }
        i += 1;
    }
    assert(groups@ =~= merged(before, from, into));
}

/// The groups on the far side of those of the first `upto` wires that
/// leave group `group`, one for each such wire, in the order of the
/// wires.
pub open spec fn far_sides(
    edges: Seq<(usize, usize)>,
    groups: Seq<usize>,
    group: usize,
    upto: int,
) -> Seq<usize>
    decreases upto,
{
    if upto <= 0 {
        Seq::empty()
    } else {
        let before = far_sides(edges, groups, group, upto - 1);
        let gx = groups[edges[upto - 1].0 as int];
        let gy = groups[edges[upto - 1].1 as int];
        if gx == group && gy != group {
            before.push(gy)
        } else if gy == group && gx != group {
            before.push(gx)
        } else {
            before
        }
    }
}

/// The groups on the far side of the wires that leave group `group`, one
/// for each such wire, in the order of the wires.
pub fn neighbours(wiring: &Wiring, groups: &Vec<usize>, group: usize) -> (r: Vec<usize>)
    requires
        wiring_ok(wiring.count as int, wiring.edges@),
        groups@.len() == wiring.count,
    ensures
        r@ == far_sides(wiring.edges@, groups@, group, wiring.edges@.len() as int),
        forall|k: int| 0 <= k < r@.len() ==> (#[trigger] r@[k]) != group && groups@.contains(r@[k]),
{
    let mut out: Vec<usize> = Vec::new();
    let mut k: usize = 0;
    while k < wiring.edges.len()
        invariant
            k <= wiring.edges@.len(),
            wiring_ok(wiring.count as int, wiring.edges@),
            groups@.len() == wiring.count,
            out@ == far_sides(wiring.edges@, groups@, group, k as int),
            forall|j: int|
                0 <= j < out@.len() ==> (#[trigger] out@[j]) != group && groups@.contains(out@[j]),
        decreases wiring.edges@.len() - k,
    {
        let (x, y) = wiring.edges[k];
        assert(wiring.edges@[k as int].0 < wiring.count);
        let gx = groups[x];
        let gy = groups[y];
        if gx == group && gy != group {
            assert(groups@.contains(gy));
            out.push(gy);
        } else if gy == group && gx != group {
            assert(groups@.contains(gx));
            out.push(gx);
        }
        k += 1;
    }
    out
}

/// How many wires join components of different groups.
pub fn count_cut(wiring: &Wiring, groups: &Vec<usize>) -> (r: usize)
    requires
        wiring_ok(wiring.count as int, wiring.edges@),
        groups@.len() == wiring.count,
    ensures
        r == cut_upto(wiring.edges@, groups@, wiring.edges@.len() as int),
{
    let mut total: usize = 0;
    let mut k: usize = 0;
    while k < wiring.edges.len()
        invariant
            k <= wiring.edges@.len(),
            wiring_ok(wiring.count as int, wiring.edges@),
            groups@.len() == wiring.count,
            total == cut_upto(wiring.edges@, groups@, k as int),
            total <= k,
        decreases wiring.edges@.len() - k,
    {
        let (x, y) = wiring.edges[k];
        assert(wiring.edges@[k as int].0 < wiring.count);
        if groups[x] != groups[y] {
            total += 1;
        }
        k += 1;
    }
    total
}

/// How many components belong to group `group`.
pub fn group_size(groups: &Vec<usize>, group: usize) -> (r: usize)
    ensures
        r == size_upto(groups@, group, groups@.len() as int),
{
    let mut total: usize = 0;
    let mut i: usize = 0;
    while i < groups.len()
        invariant
            i <= groups@.len(),
            total == size_upto(groups@, group, i as int),
            total <= i,
        decreases groups@.len() - i,
    {
        if groups[i] == group {
            total += 1;
        }
        i += 1;
    }
    total
}

/// What a split of the components into the groups `a` and `b` is worth:
/// the product of the sizes of the groups where exactly three wires join
/// them and the product fits 64 bits, and nothing otherwise.
pub open spec fn judged(edges: Seq<(usize, usize)>, groups: Seq<usize>, a: usize, b: usize) -> Option<
    u64,
> {
    if cut_upto(edges, groups, edges.len() as int) == 3 && size_upto(groups, a, groups.len() as int)
        * size_upto(groups, b, groups.len() as int) <= u64::MAX {
        Some(
            (size_upto(groups, a, groups.len() as int) * size_upto(groups, b, groups.len() as int)) as u64,
        )
    } else {
        None
    }
}

/// What a split of the components into the groups `a` and `b` is worth.
pub fn judge(wiring: &Wiring, groups: &Vec<usize>, a: usize, b: usize) -> (r: Option<u64>)
    requires
        wiring_ok(wiring.count as int, wiring.edges@),
        groups@.len() == wiring.count,
    ensures
        r == judged(wiring.edges@, groups@, a, b),
{
    if count_cut(wiring, groups) != 3 {
        return None;
    }
    let sa = group_size(groups, a) as u64;
    let sb = group_size(groups, b) as u64;
    sa.checked_mul(sb)
}

/// `v` without every `x` in it, the rest in order.
pub open spec fn dropped(v: Seq<usize>, x: usize) -> Seq<usize>
    decreases v.len(),
{
    if v.len() == 0 {
        Seq::empty()
    } else if v.last() == x {
        dropped(v.drop_last(), x)
    } else {
        dropped(v.drop_last(), x).push(v.last())
    }
}

/// `v` without `x`.
pub fn without(v: &Vec<usize>, x: usize) -> (r: Vec<usize>)
    requires
        v@.no_duplicates(),
    ensures
        r@ == dropped(v@, x),
        r@.no_duplicates(),
        forall|y: usize| r@.contains(y) <==> (v@.contains(y) && y != x),
        v@.contains(x) ==> r@.len() + 1 == v@.len(),
{
    let mut out: Vec<usize> = Vec::new();
    let mut met = false;
    let mut i: usize = 0;
    assert(v@.take(0) =~= Seq::empty());
    while i < v.len()
        invariant
            i <= v@.len(),
            v@.no_duplicates(),
            out@ == dropped(v@.take(i as int), x),
            met <==> exists|k: int| 0 <= k < i && v@[k] == x,
            out@.len() + if met {
                1int
            } else {
                0int
            } == i,
            forall|j: int|
                0 <= j < out@.len() ==> (#[trigger] out@[j]) != x && exists|k: int|
                    0 <= k < i && v@[k] == out@[j],
            forall|k: int| 0 <= k < i && v@[k] != x ==> out@.contains(#[trigger] v@[k]),
            out@.no_duplicates(),
        decreases v@.len() - i,
    {
        let item = v[i];
        let ghost out0 = out@;
        proof {
            assert(v@.take(i + 1).drop_last() =~= v@.take(i as int));
            assert(v@.take(i + 1).last() == item);
        }
        if item == x {
            met = true;
        } else {
            out.push(item);
            proof {
                assert(out@[out0.len() as int] == item);
                assert forall|k: int| 0 <= k < i + 1 && v@[k] != x implies out@.contains(
                    #[trigger] v@[k],
                ) by {
                    if k < i {
                        let j = choose|j: int| 0 <= j < out0.len() && out0[j] == v@[k];
                        assert(out@[j] == v@[k]);
                    }
                }
                assert forall|a: int, b: int|
                    0 <= a < out@.len() && 0 <= b < out@.len() && a != b implies out@[a]
                    != out@[b] by {
                    if a == out0.len() {
                        let k = choose|k: int| 0 <= k < i && v@[k] == out0[b];
                        assert(v@[k] != v@[i as int]);
                    } else if b == out0.len() {
                        let k = choose|k: int| 0 <= k < i && v@[k] == out0[a];
                        assert(v@[k] != v@[i as int]);
                    } else {
                        assert(out0[a] != out0[b]);
                    }
                }
            }
        }
        proof {
            assert forall|j: int| 0 <= j < out@.len() implies (#[trigger] out@[j]) != x && exists|
                k: int,
            |
                0 <= k < i + 1 && v@[k] == out@[j] by {
                if j < out0.len() {
                    let k = choose|k: int| 0 <= k < i && v@[k] == out0[j];
                    assert(0 <= k < i + 1 && v@[k] == out@[j]);
                } else {
                    assert(v@[i as int] == out@[j]);
                }
            }
            if item == x {
                assert(v@[i as int] == x);
                assert forall|k: int| 0 <= k < i + 1 && v@[k] != x implies out@.contains(
                    #[trigger] v@[k],
                ) by {}
                assert forall|k: int| 0 <= k < i implies v@[k] != x by {
                    assert(v@[k] != v@[i as int]);
                }
            } else {
                assert((exists|k: int| 0 <= k < i + 1 && v@[k] == x) <==> (exists|k: int|
                    0 <= k < i && v@[k] == x));
            }
        }
        i += 1;
    }
    proof {
        assert forall|y: usize| out@.contains(y) <==> (v@.contains(y) && y != x) by {
            if out@.contains(y) {
                let j = choose|j: int| 0 <= j < out@.len() && out@[j] == y;
                let k = choose|k: int| 0 <= k < v@.len() && v@[k] == out@[j];
                assert(v@[k] == y);
            }
            if v@.contains(y) && y != x {
                let k = choose|k: int| 0 <= k < v@.len() && v@[k] == y;
                assert(out@.contains(v@[k]));
            }
        }
        if v@.contains(x) {
            let k = choose|k: int| 0 <= k < v@.len() && v@[k] == x;
            assert(met);
        }
        assert(v@.take(v@.len() as int) =~= v@);
    }
    out
}

/// What the contraction keeps true: every group in use is led by the
/// component of its own number, and every component belongs to a group in
/// use.
pub open spec fn grouped(count: int, groups: Seq<usize>, alive: Seq<usize>) -> bool {
    &&& groups.len() == count
    &&& alive.no_duplicates()
    &&& forall|k: int|
        0 <= k < alive.len() ==> (#[trigger] alive[k]) < count && groups[alive[k] as int] == alive[k]
    &&& forall|i: int| 0 <= i < count ==> alive.contains(#[trigger] groups[i])
}

/// Every component in a group of its own, which bears its number.
pub open spec fn each_alone(count: int) -> Seq<usize> {
    Seq::new(count as nat, |i: int| i as usize)
}

/// What the groups `alive` are worth once no more are merged: what
/// [`judged`] says of them where they are two, and nothing otherwise.
pub open spec fn settled(edges: Seq<(usize, usize)>, groups: Seq<usize>, alive: Seq<usize>) -> Option<
    u64,
> {
    if alive.len() == 2 {
        judged(edges, groups, alive[0], alive[1])
    } else {
        None
    }
}

/// What a try at a split comes to when chance picks as `picks` tells:
/// while more than two groups are left, the next pick names a group `u`
/// among those left and a group `v` on the far side of one of its
/// wires, and `v` is merged into `u`. Nothing comes of it where the
/// picks run out, or where a pick names what chance could not have
/// picked.
pub open spec fn played(
    edges: Seq<(usize, usize)>,
    groups: Seq<usize>,
    alive: Seq<usize>,
    picks: Seq<(usize, usize)>,
) -> Option<u64>
    decreases picks.len(),
{
    if alive.len() <= 2 {
        settled(edges, groups, alive)
    } else if picks.len() == 0 {
        None
    } else if alive.contains(picks[0].0) && far_sides(
        edges,
        groups,
        picks[0].0,
        edges.len() as int,
    ).contains(picks[0].1) {
        played(
            edges,
            merged(groups, picks[0].1, picks[0].0),
            dropped(alive, picks[0].1),
            picks.drop_first(),
        )
    } else {
        None
    }
}

/// `r` is what one try at a split of `count` components comes to for
/// some way in which chance may pick.
pub open spec fn outcome(count: int, edges: Seq<(usize, usize)>, r: Option<u64>) -> bool {
    exists|picks: Seq<(usize, usize)>| #[trigger]
        played(edges, each_alone(count), each_alone(count), picks) == r
}

/// One step of a try: merges group `v` into group `u` and strikes `v`
/// from the groups that are left.
pub fn merge_pair(groups: &mut Vec<usize>, alive: &mut Vec<usize>, u: usize, v: usize)
    requires
        old(alive)@.no_duplicates(),
    ensures
        final(groups)@ == merged(old(groups)@, v, u),
        final(alive)@ == dropped(old(alive)@, v),
        final(alive)@.no_duplicates(),
        forall|y: usize| final(alive)@.contains(y) <==> (old(alive)@.contains(y) && y != v),
        old(alive)@.contains(v) ==> final(alive)@.len() + 1 == old(alive)@.len(),
{
    merge(groups, v, u);
    let rest = without(alive, v);
    *alive = rest;
}

/// One try at a split: groups are merged along wires picked at random
/// until two are left. The product of their sizes is returned where
/// exactly three wires join them; a try that ends otherwise, or that
/// comes upon a group without wires, returns nothing. With two
/// components or fewer chance has no part in it.
pub fn contract_once(wiring: &Wiring) -> (r: Option<u64>)
    requires
        wiring_ok(wiring.count as int, wiring.edges@),
    ensures
        outcome(wiring.count as int, wiring.edges@, r),
        wiring.count <= 2 ==> r == settled(
            wiring.edges@,
            each_alone(wiring.count as int),
            each_alone(wiring.count as int),
        ),
        r is Some ==> splits(wiring.count as int, wiring.edges@, r->Some_0 as int),
{
    let n = wiring.count;
    let ghost edges = wiring.edges@;
    let ghost alone = each_alone(n as int);
    let mut groups: Vec<usize> = Vec::new();
    let mut alive: Vec<usize> = Vec::new();
    let mut i: usize = 0;
    while i < n
        invariant
            i <= n,
            groups@.len() == i,
            alive@.len() == i,
            forall|k: int| 0 <= k < i ==> #[trigger] groups@[k] == k,
            forall|k: int| 0 <= k < i ==> #[trigger] alive@[k] == k,
        decreases n - i,
    {
        groups.push(i);
        alive.push(i);
        i += 1;
    }
    let ghost mut trace: Seq<(usize, usize)> = Seq::empty();
    proof {
        assert forall|k: int| 0 <= k < n implies alive@.contains(#[trigger] groups@[k]) by {
            assert(alive@[k] == groups@[k]);
        }
        assert(groups@ =~= alone);
        assert(alive@ =~= alone);
        assert forall|rest: Seq<(usize, usize)>|
            played(edges, alone, alone, trace + rest) == #[trigger] played(
                edges,
                groups@,
                alive@,
                rest,
            ) by {
            assert(trace + rest =~= rest);
        }
    }
    while alive.len() > 2
        invariant
            n == wiring.count,
            edges == wiring.edges@,
            alone == each_alone(n as int),
            wiring_ok(n as int, wiring.edges@),
            grouped(n as int, groups@, alive@),
            n <= 2 ==> groups@ == alone && alive@ == alone,
            forall|rest: Seq<(usize, usize)>|
                played(edges, alone, alone, trace + rest) == #[trigger] played(
                    edges,
                    groups@,
                    alive@,
                    rest,
                ),
        decreases alive@.len(),
    {
        let ghost before = groups@;
        let ghost alive0 = alive@;
        let ghost trace0 = trace;
        let u = match pick_from_iter(&alive) {
            Some(u) => u,
            None => {
                return None;
            },
        };
        let options = neighbours(wiring, &groups, u);
        let v = match pick_from_slice(&options) {
            Some(v) => v,
            None => {
                proof {
                    let last = seq![(u, 0usize)];
                    assert(last[0] == (u, 0usize));
                    assert(played(edges, before, alive0, last) is None);
                    assert(played(edges, alone, alone, trace0 + last) is None);
                }
                return None;
            },
        };
        assert(v != u && before.contains(v));
        assert(alive0.contains(v)) by {
            let k = choose|k: int| 0 <= k < before.len() && before[k] == v;
            assert(alive0.contains(before[k]));
        }
        merge_pair(&mut groups, &mut alive, u, v);
        proof {
            trace = trace0.push((u, v));
            assert forall|k: int| 0 <= k < alive@.len() implies (#[trigger] alive@[k]) < n
                && groups@[alive@[k] as int] == alive@[k] by {
                let a = alive@[k];
                assert(alive@.contains(a));
                assert(alive0.contains(a) && a != v);
                let j = choose|j: int| 0 <= j < alive0.len() && alive0[j] == a;
                assert(before[a as int] == a);
            }
            assert forall|i: int| 0 <= i < n implies alive@.contains(#[trigger] groups@[i]) by {
                assert(alive0.contains(before[i]));
                if before[i] == v {
                    assert(groups@[i] == u);
                    assert(alive0.contains(u));
                } else {
                    assert(groups@[i] == before[i]);
                }
            }
            assert forall|rest: Seq<(usize, usize)>|
                played(edges, alone, alone, trace + rest) == #[trigger] played(
                    edges,
                    groups@,
                    alive@,
                    rest,
                ) by {
                let longer = seq![(u, v)] + rest;
                assert(longer[0] == (u, v));
                assert(longer.drop_first() =~= rest);
                assert(trace + rest =~= trace0 + longer);
                assert(played(edges, before, alive0, longer) == played(edges, groups@, alive@, rest));
            }
        }
    }
    proof {
        assert(trace + Seq::<(usize, usize)>::empty() =~= trace);
        assert(played(edges, alone, alone, trace) == played(
            edges,
            groups@,
            alive@,
            Seq::<(usize, usize)>::empty(),
        ));
        assert(played(edges, alone, alone, trace) == settled(edges, groups@, alive@));
    }
    if alive.len() != 2 {
        return None;
    }
    let a = alive[0];
    let b = alive[1];
    let found = judge(wiring, &groups, a, b);
    proof {
        if found is Some {
            assert(a != b);
            assert forall|i: int| 0 <= i < n implies #[trigger] groups@[i] == a || groups@[i] == b by {
                let k = choose|k: int| 0 <= k < alive@.len() && alive@[k] == groups@[i];
            }
            assert(alive@[0] == a && alive@[1] == b);
            lemma_size_member(groups@, a, n as int, a as int);
            lemma_size_member(groups@, b, n as int, b as int);
            assert(three_cut(n as int, wiring.edges@, groups@, a, b, found->Some_0 as int));
        }
    }
    found
}

/// What up to `attempts` tries at a split of `count` components may
/// come to: what one of the tries came to, and nothing only where none
/// was made or one came to nothing.
pub open spec fn tried(count: int, edges: Seq<(usize, usize)>, attempts: u64, r: Option<u64>) -> bool {
    match r {
        Some(p) => attempts > 0 && outcome(count, edges, Some(p)),
        None => attempts == 0 || outcome(count, edges, None),
    }
}

/// The product of the sizes of two groups of components that exactly
/// three wires join, found by trying random splits, at most `attempts`
/// of them: what the first try that comes to something comes to. With
/// two components or fewer chance has no part in it.
pub fn split_in_two(wiring: &Wiring, attempts: u64) -> (r: Option<u64>)
    requires
        wiring_ok(wiring.count as int, wiring.edges@),
    ensures
        tried(wiring.count as int, wiring.edges@, attempts, r),
        wiring.count <= 2 ==> r == if attempts > 0 {
            settled(wiring.edges@, each_alone(wiring.count as int), each_alone(wiring.count as int))
        } else {
            None
        },
        r is Some ==> splits(wiring.count as int, wiring.edges@, r->Some_0 as int),
{
    let mut tries: u64 = 0;
    while tries < attempts
        invariant
            tries <= attempts,
            wiring_ok(wiring.count as int, wiring.edges@),
            tries > 0 ==> outcome(wiring.count as int, wiring.edges@, None),
            tries > 0 && wiring.count <= 2 ==> settled(
                wiring.edges@,
                each_alone(wiring.count as int),
                each_alone(wiring.count as int),
            ) is None,
        decreases attempts - tries,
    {
        match contract_once(wiring) {
            Some(p) => {
                return Some(p);
            },
            None => {},
        }
        tries += 1;
    }
    None
}

/// The pairs of names that `line` joins by a wire: the name in its first
/// three bytes with each word from its fifth byte on. Nothing for a line
/// of fewer than four bytes.
pub open spec fn line_mentions(line: Seq<u8>) -> Option<Seq<(Seq<u8>, Seq<u8>)>> {
    if line.len() < 4 {
        None
    } else {
        let words = fields_of(line.subrange(4, line.len() as int));
        Some(Seq::new(words.len(), |k: int| (line.subrange(0, 3), words[k])))
    }
}

/// The pairs of names that the first `upto` of `lines` join by wires.
pub open spec fn mentions(lines: Seq<Seq<u8>>, upto: int) -> Option<Seq<(Seq<u8>, Seq<u8>)>>
    decreases upto,
{
    if upto <= 0 {
        Some(Seq::empty())
    } else {
        match (mentions(lines, upto - 1), line_mentions(lines[upto - 1])) {
            (Some(a), Some(b)) => Some(a + b),
            _ => None,
        }
    }
}

/// Whether `edges` are the wires that `pairs` name, with components
/// numbered as `names` lists them, each name once.
pub open spec fn wired_as(
    names: Seq<Seq<u8>>,
    edges: Seq<(usize, usize)>,
    pairs: Seq<(Seq<u8>, Seq<u8>)>,
) -> bool {
    &&& names.no_duplicates()
    &&& edges.len() == pairs.len()
    &&& wiring_ok(names.len() as int, edges)
    &&& forall|k: int|
        0 <= k < edges.len() ==> names[(#[trigger] edges[k]).0 as int] == pairs[k].0
            && names[edges[k].1 as int] == pairs[k].1
}

/// The first place from `from` on at which `names` lists `name`, or the
/// length of `names`.
pub open spec fn first_place(names: Seq<Seq<u8>>, name: Seq<u8>, from: int) -> int
    decreases names.len() - from,
{
    if from < 0 || from >= names.len() {
        names.len() as int
    } else if names[from] == name {
        from
    } else {
        first_place(names, name, from + 1)
    }
}

/// `names`, with `name` added at the end if it is new.
pub open spec fn enrolled(names: Seq<Seq<u8>>, name: Seq<u8>) -> Seq<Seq<u8>> {
    if first_place(names, name, 0) < names.len() {
        names
    } else {
        names.push(name)
    }
}

/// The names of the components that `pairs` mention, in the order in
/// which they are first mentioned, and for each pair the wire between
/// the numbers that its two names have in that list.
pub open spec fn wired(pairs: Seq<(Seq<u8>, Seq<u8>)>) -> (Seq<Seq<u8>>, Seq<(usize, usize)>)
    decreases pairs.len(),
{
    if pairs.len() == 0 {
        (Seq::empty(), Seq::empty())
    } else {
        let (names, edges) = wired(pairs.drop_last());
        let more = enrolled(names, pairs.last().0);
        (
            enrolled(more, pairs.last().1),
            edges.push(
                (
                    first_place(names, pairs.last().0, 0) as usize,
                    first_place(more, pairs.last().1, 0) as usize,
                ),
            ),
        )
    }
}

/// Where the search for a name has come as far as `i` without finding
/// it, the first place of the name is its first place from `i` on.
proof fn lemma_first_place(names: Seq<Seq<u8>>, name: Seq<u8>, from: int, i: int)
    requires
        0 <= from <= i <= names.len(),
        forall|k: int| from <= k < i ==> #[trigger] names[k] != name,
    ensures
        first_place(names, name, from) == first_place(names, name, i),
    decreases i - from,
{
    if from < i {
        lemma_first_place(names, name, from + 1, i);
    }
}

/// The number under which `names` lists `name`, which is added at the end
/// if it is new.
pub fn number_of(names: &mut Vec<Vec<u8>>, name: Vec<u8>) -> (r: usize)
    requires
        old(names).deep_view().no_duplicates(),
    ensures
        r == first_place(old(names).deep_view(), name@, 0),
        final(names).deep_view() == enrolled(old(names).deep_view(), name@),
        final(names).deep_view().no_duplicates(),
        r < final(names)@.len(),
        final(names).deep_view()[r as int] == name@,
        old(names)@.len() <= final(names)@.len(),
        forall|k: int| 0 <= k < old(names)@.len() ==> #[trigger] final(names).deep_view()[k] == old(
            names,
        ).deep_view()[k],
{
    let ghost before = names.deep_view();
    let mut i: usize = 0;
    while i < names.len()
        invariant
            i <= names@.len(),
            names.deep_view() == before,
            before == old(names).deep_view(),
            names@.len() == old(names)@.len(),
            before.no_duplicates(),
            forall|k: int| 0 <= k < i ==> #[trigger] before[k] != name@,
        decreases names@.len() - i,
    {
        assert(before[i as int] =~= names@[i as int]@);
        if lines_equal(&names[i], &name) {
            proof {
                lemma_first_place(before, name@, 0, i as int);
            }
            return i;
        }
        i += 1;
    }
    let ghost old_names = *names;
    names.push(name);
    proof {
        lemma_first_place(before, name@, 0, before.len() as int);
        crate::text::lemma_rows_push(old_names, *names, name);
        let now = names.deep_view();
        assert forall|a: int, b: int| 0 <= a < now.len() && 0 <= b < now.len() && a != b implies now[a]
            != now[b] by {
            if a < before.len() && b < before.len() {
                assert(before[a] != before[b]);
            } else if a < before.len() {
                assert(before[a] != name@);
            } else {
                assert(before[b] != name@);
            }
        }
    }
    names.len() - 1
}

/// The wiring that `bytes` write, line by line, and the names of its
/// components.
pub fn parse(bytes: &[u8]) -> (r: Option<(Vec<Vec<u8>>, Wiring)>)
    ensures
        match r {
            Some((names, wiring)) => mentions(lines_of(bytes@), lines_of(bytes@).len() as int) is Some
                && wiring.count == names@.len() && (names.deep_view(), wiring.edges@) == wired(
                mentions(lines_of(bytes@), lines_of(bytes@).len() as int)->Some_0,
            ) && wired_as(
                names.deep_view(),
                wiring.edges@,
                mentions(lines_of(bytes@), lines_of(bytes@).len() as int)->Some_0,
            ),
            None => mentions(lines_of(bytes@), lines_of(bytes@).len() as int) is None,
        },
{
    let lines = split_lines(bytes);
    let ghost model = lines.deep_view();
    let mut names: Vec<Vec<u8>> = Vec::new();
    let mut edges: Vec<(usize, usize)> = Vec::new();
    let mut i: usize = 0;
    assert(names.deep_view() =~= Seq::<Seq<u8>>::empty());
    while i < lines.len()
        invariant
            i <= lines@.len(),
            model == lines.deep_view(),
            model == lines_of(bytes@),
            mentions(model, i as int) is Some,
            wired_as(names.deep_view(), edges@, mentions(model, i as int)->Some_0),
            (names.deep_view(), edges@) == wired(mentions(model, i as int)->Some_0),
        decreases lines@.len() - i,
    {
        let line = &lines[i];
        assert(model[i as int] =~= line@);
        if line.len() < 4 {
            proof {
                assert(mentions(model, i + 1) is None);
                lemma_mentions_lost(model, i + 1, model.len() as int);
            }
            return None;
        }
        let from = crate::day08::cut(line, 0, 3);
        let rest = crate::day08::cut(line, 4, line.len());
        let words = split_fields(rest.as_slice());
        let ghost here = line_mentions(line@)->Some_0;
        let ghost done = mentions(model, i as int)->Some_0;
        assert(done + here.subrange(0, 0) =~= done);
        let mut k: usize = 0;
        while k < words.len()
            invariant
                k <= words@.len(),
                words.deep_view() == fields_of(line@.subrange(4, line@.len() as int)),
                from@ == line@.subrange(0, 3),
                line@.len() >= 4,
                here == line_mentions(line@)->Some_0,
                here.len() == words@.len(),
                wired_as(names.deep_view(), edges@, done + here.subrange(0, k as int)),
                (names.deep_view(), edges@) == wired(done + here.subrange(0, k as int)),
            decreases words@.len() - k,
        {
            let ghost names0 = names.deep_view();
            let ghost edges0 = edges@;
            let ghost pairs0 = done + here.subrange(0, k as int);
            let a = number_of(&mut names, crate::text::copy_line(&from));
            let b = number_of(&mut names, crate::text::copy_line(&words[k]));
            edges.push((a, b));
            proof {
                assert(words.deep_view()[k as int] =~= words@[k as int]@);
                let pairs1 = done + here.subrange(0, k + 1);
                assert(pairs1 =~= pairs0.push(here[k as int]));
                assert(pairs1.drop_last() =~= pairs0);
                assert(pairs1.last() == here[k as int]);
                assert(here[k as int] == (from@, words@[k as int]@));
                assert(edges@ =~= edges0.push((a, b)));
                let now = names.deep_view();
                assert forall|j: int| 0 <= j < edges@.len() implies (#[trigger] edges@[j]).0 < now.len()
                    && edges@[j].1 < now.len() && now[edges@[j].0 as int] == pairs1[j].0
                    && now[edges@[j].1 as int] == pairs1[j].1 by {
                    if j < edges0.len() {
                        assert(edges@[j] == edges0[j]);
                        assert(names0[edges0[j].0 as int] == pairs0[j].0);
                    }
                }
            }
            k += 1;
        }
        proof {
            assert(here.subrange(0, here.len() as int) =~= here);
            assert(mentions(model, i + 1) == Some(done + here));
        }
        i += 1;
    }
    let count = names.len();
    Some((names, Wiring { count, edges }))
}

/// Once a line is too short the wiring is lost.
pub proof fn lemma_mentions_lost(lines: Seq<Seq<u8>>, a: int, b: int)
    requires
        mentions(lines, a) is None,
        a <= b,
    ensures
        mentions(lines, b) is None,
    decreases b - a,
{
    if a < b {
        lemma_mentions_lost(lines, a, b - 1);
    }
}

/// What the search for a split of the wiring written in `text` may come
/// to: nothing where a line is too short to name a wire, and else what
/// [`ATTEMPTS`] tries at most come to for the wiring that [`wired`]
/// reads from the names.
pub open spec fn searched(text: Seq<u8>, r: Option<u64>) -> bool {
    match mentions(lines_of(text), lines_of(text).len() as int) {
        None => r is None,
        Some(pairs) => {
            let count = wired(pairs).0.len() as int;
            let edges = wired(pairs).1;
            &&& tried(count, edges, ATTEMPTS, r)
            &&& (count <= 2 ==> r == settled(edges, each_alone(count), each_alone(count)))
            &&& (r is Some ==> splits(count, edges, r->Some_0 as int))
        },
    }
}

/// The product of the sizes of two groups of components of the wiring
/// written in `input` that exactly three wires join. Splits are tried at
/// random, [`ATTEMPTS`] times at most, so nothing may come back even
/// where such groups exist. With two components or fewer chance has no
/// part in it.
pub fn part_one(input: &str) -> (r: Option<u64>)
    ensures
        searched(input.spec_bytes(), r),
{
    match parse(input.as_bytes()) {
        Some((names, wiring)) => split_in_two(&wiring, ATTEMPTS),
        None => None,
    }
}

/// The second part of this puzzle asks for nothing.
pub fn part_two(input: &str) -> (r: Option<u32>)
    ensures
        r is None,
{
    None
}

} // verus!
