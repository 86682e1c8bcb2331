//! Haunted wasteland: following left and right turns through a network
//! of named nodes until a goal node is entered.

use crate::numbers::{lcm_checked, lcm_of};
use crate::text::{lines_of, split_lines, split_once, split_once_of};
use vstd::prelude::*;
use vstd::string::StringSliceAdditionalSpecFns;

verus! {

/// The byte that tells the walker to turn right.
pub const RIGHT: u8 = 82;

/// A network of nodes. Node `i` is named `names[i]`; its left and right
/// exits name the nodes `left[i]` and `right[i]`.
pub struct Network {
    pub names: Vec<Vec<u8>>,
    pub left: Vec<Vec<u8>>,
    pub right: Vec<Vec<u8>>,
}

/// The mathematical model of a [`Network`].
pub struct Net {
    pub names: Seq<Seq<u8>>,
    pub left: Seq<Seq<u8>>,
    pub right: Seq<Seq<u8>>,
}

impl View for Network {
    type V = Net;

    open spec fn view(&self) -> Net {
        Net {
            names: self.names.deep_view(),
            left: self.left.deep_view(),
            right: self.right.deep_view(),
        }
    }
}

/// Whether `net` lists a name and two exits for each node.
pub open spec fn net_ok(net: Net) -> bool {
    net.left.len() == net.names.len() && net.right.len() == net.names.len()
}

/// The last of the first `upto` nodes that is named `name`, or `-1`.
pub open spec fn lookup(names: Seq<Seq<u8>>, name: Seq<u8>, upto: int) -> int
    decreases upto,
{
    if upto <= 0 {
        -1
    } else if names[upto - 1] == name {
        upto - 1
    } else {
        lookup(names, name, upto - 1)
    }
}

/// The node named `name`: the last of that name, or `-1` where there is
/// none.
pub open spec fn node_named(net: Net, name: Seq<u8>) -> int {
    lookup(net.names, name, net.names.len() as int)
}

/// The name of the node entered from node `i` when turning as `turn`
/// tells.
pub open spec fn exit_name(net: Net, i: int, turn: u8) -> Seq<u8> {
    if turn == RIGHT {
        net.right[i]
    } else {
        net.left[i]
    }
}

/// The node the walker stands on after `k` steps from node `start`,
/// turning as `turns` tells over and over; `-1` once an exit names no
/// node.
pub open spec fn node_after(net: Net, turns: Seq<u8>, start: int, k: nat) -> int
    decreases k,
{
    if k == 0 {
        start
    } else {
        let before = node_after(net, turns, start, (k - 1) as nat);
        if before < 0 {
            -1
        } else {
            node_named(net, exit_name(net, before, turns[(k - 1) % (turns.len() as int)]))
        }
    }
}

/// Whether the name of node `i` marks a goal: the name `ZZZ`, or, where
/// `any_z` is set, any name whose third byte is `Z`.
pub open spec fn is_goal(net: Net, i: int, any_z: bool) -> bool {
    let name = net.names[i];
    if any_z {
        name.len() >= 3 && name[2] == 90
    } else {
        name == seq![90u8, 90u8, 90u8]
    }
}

/// The walker enters a goal with step `k`, having entered only nodes that
/// exist and are no goal before.
pub open spec fn arrives_at(net: Net, turns: Seq<u8>, start: int, any_z: bool, k: nat) -> bool {
    &&& k >= 1
    &&& node_after(net, turns, start, k) >= 0
    &&& is_goal(net, node_after(net, turns, start, k), any_z)
    &&& forall|j: nat|
        1 <= j < k ==> #[trigger] node_after(net, turns, start, j) >= 0 && !is_goal(
            net,
            node_after(net, turns, start, j),
            any_z,
        )
}

/// With none of the first `limit` steps does the walker first enter a
/// goal.
pub open spec fn strays(net: Net, turns: Seq<u8>, start: int, any_z: bool, limit: nat) -> bool {
    forall|k: nat| 1 <= k <= limit ==> !#[trigger] arrives_at(net, turns, start, any_z, k)
}

/// A walker who has left the network does not come back.
pub proof fn lemma_lost_for_good(net: Net, turns: Seq<u8>, start: int, j: nat, c: nat)
    requires
        node_after(net, turns, start, j) < 0,
        j <= c,
    ensures
        node_after(net, turns, start, c) < 0,
    decreases c - j,
{
    if j < c {
        lemma_lost_for_good(net, turns, start, j, (c - 1) as nat);
    }
}

/// The most steps a walk is followed for: as many as there are pairs of
/// a node and a place in the list of turns, at most the largest 64-bit
/// number.
pub open spec fn step_limit(net: Net, turns: Seq<u8>) -> nat {
    if net.names.len() * turns.len() > u64::MAX {
        u64::MAX as nat
    } else {
        net.names.len() * turns.len()
    }
}

impl Network {
    /// The node named `name`: the last of that name.
    pub fn find(&self, name: &Vec<u8>) -> (r: Option<usize>)
        ensures
            match r {
                Some(i) => i == node_named(self@, name@) && i < self@.names.len(),
                None => node_named(self@, name@) == -1,
            },
    {
        let mut i: usize = self.names.len();
        while i > 0
            invariant
                i <= self.names@.len(),
                node_named(self@, name@) == lookup(self@.names, name@, i as int),
            decreases i,
        {
            assert(self@.names[i - 1] =~= self.names@[i - 1]@);
            if crate::text::lines_equal(&self.names[i - 1], name) {
                return Some(i - 1);
            }
            i -= 1;
        }
        None
    }

    /// Whether node `i` is a goal.
    pub fn goal(&self, i: usize, any_z: bool) -> (r: bool)
        requires
            i < self@.names.len(),
        ensures
            r == is_goal(self@, i as int, any_z),
    {
        let name = &self.names[i];
        assert(self@.names[i as int] =~= name@);
        if any_z {
            name.len() >= 3 && name[2] == 90
        } else {
            let r = name.len() == 3 && name[0] == 90 && name[1] == 90 && name[2] == 90;
            assert(r == (name@ =~= seq![90u8, 90u8, 90u8]));
            r
        }
    }

    /// The number of the step with which a walker who starts on node
    /// `start` and turns as `turns` tells, over and over, first enters a
    /// goal. `None` where the walker leaves the network or enters no goal
    /// within as many steps as there are pairs of a node and a place in
    /// `turns`. Without turns the walk ends before its first step.
    pub fn walk(&self, turns: &Vec<u8>, start: usize, any_z: bool) -> (r: Option<u64>)
        requires
            net_ok(self@),
            start < self@.names.len(),
        ensures
            match r {
                Some(k) => if turns@.len() == 0 {
                    k == 0
                } else {
                    arrives_at(self@, turns@, start as int, any_z, k as nat) && k <= step_limit(
                        self@,
                        turns@,
                    )
                },
                None => turns@.len() > 0 && strays(
                    self@,
                    turns@,
                    start as int,
                    any_z,
                    step_limit(self@, turns@),
                ),
            },
    {
        let n = turns.len();
        if n == 0 {
            return Some(0);
        }
        let limit: u64 = match (self.names.len() as u64).checked_mul(n as u64) {
            Some(v) => v,
            None => u64::MAX,
        };
        let ghost net = self@;
        let mut cur = start;
        let mut steps: u64 = 0;
        let mut at: usize = 0;
        while steps < limit
            invariant
                n == turns@.len(),
                n > 0,
                net == self@,
                net_ok(net),
                limit == step_limit(net, turns@),
                steps <= limit,
                at < n,
                at == steps % (n as u64),
                cur < net.names.len(),
                cur == node_after(net, turns@, start as int, steps as nat),
                forall|j: nat|
                    1 <= j <= steps ==> #[trigger] node_after(net, turns@, start as int, j) >= 0
                        && !is_goal(net, node_after(net, turns@, start as int, j), any_z),
            decreases limit - steps,
        {
            let turn = turns[at];
            let name = if turn == RIGHT {
                &self.right[cur]
            } else {
                &self.left[cur]
            };
            proof {
                assert(net.right[cur as int] =~= self.right@[cur as int]@);
                assert(net.left[cur as int] =~= self.left@[cur as int]@);
                assert(name@ == exit_name(net, cur as int, turn));
                assert((steps + 1 - 1) % (n as int) == at);
            }
            steps = steps + 1;
            match self.find(name) {
                None => {
                    assert(node_after(net, turns@, start as int, steps as nat) < 0);
                    assert forall|k: nat| 1 <= k <= limit implies !#[trigger] arrives_at(
                        net,
                        turns@,
                        start as int,
                        any_z,
                        k,
                    ) by {
                        if k >= steps {
                            lemma_lost_for_good(net, turns@, start as int, steps as nat, k);
                        }
                    }
                    return None;
                },
                Some(next) => {
                    assert(node_after(net, turns@, start as int, steps as nat) == next);
                    if self.goal(next, any_z) {
                        return Some(steps);
                    }
                    cur = next;
                },
            }
            at = if at + 1 == n {
                0
            } else {
                at + 1
            };
            proof {
                lemma_next_place(steps as int - 1, n as int);
            }
        }
        None
    }
}

/// The place in a list of `n` turns moves on by one with each step and
/// starts over at the end.
proof fn lemma_next_place(s: int, n: int)
    requires
        0 <= s,
        0 < n,
    ensures
        (s + 1) % n == if s % n + 1 == n {
            0
        } else {
            s % n + 1
        },
{
    vstd::arithmetic::div_mod::lemma_fundamental_div_mod(s, n);
    vstd::arithmetic::div_mod::lemma_mod_bound(s, n);
    let q = s / n;
    let r = s % n;
    if r + 1 == n {
        assert(s + 1 == n * (q + 1)) by (nonlinear_arith)
            requires
                s == n * q + r,
                r + 1 == n,
        ;
        vstd::arithmetic::div_mod::lemma_mod_multiples_basic(q + 1, n);
        assert((q + 1) * n == n * (q + 1)) by (nonlinear_arith);
    } else {
        assert(q * n == n * q) by (nonlinear_arith);
        vstd::arithmetic::div_mod::lemma_fundamental_div_mod_converse(s + 1, n, q, r + 1);
    }
}

/// The number of the step with which the walker first enters a goal, as
/// far as that happens within the step limit.
pub open spec fn first_goal(net: Net, turns: Seq<u8>, start: int, any_z: bool) -> Option<u64> {
    if turns.len() == 0 {
        Some(0)
    } else if exists|k: nat|
        k <= step_limit(net, turns) && #[trigger] arrives_at(net, turns, start, any_z, k) {
        Some(
            (choose|k: nat|
                k <= step_limit(net, turns) && #[trigger] arrives_at(net, turns, start, any_z, k)) as u64,
        )
    } else {
        None
    }
}

/// A walk has one first goal.
pub proof fn lemma_arrival_unique(net: Net, turns: Seq<u8>, start: int, any_z: bool, a: nat, b: nat)
    requires
        arrives_at(net, turns, start, any_z, a),
        arrives_at(net, turns, start, any_z, b),
    ensures
        a == b,
{
    if a < b {
        assert(node_after(net, turns, start, a) >= 0 && !is_goal(
            net,
            node_after(net, turns, start, a),
            any_z,
        ));
    }
    if b < a {
        assert(node_after(net, turns, start, b) >= 0 && !is_goal(
            net,
            node_after(net, turns, start, b),
            any_z,
        ));
    }
}

/// What [`Network::walk`] returns is the first goal of the walk.
pub proof fn lemma_walk_result(
    net: Net,
    turns: Seq<u8>,
    start: int,
    any_z: bool,
    r: Option<u64>,
)
    requires
        turns.len() > 0,
        match r {
            Some(k) => arrives_at(net, turns, start, any_z, k as nat) && k <= step_limit(net, turns),
            None => strays(net, turns, start, any_z, step_limit(net, turns)),
        },
    ensures
        r == first_goal(net, turns, start, any_z),
{
    match r {
        Some(k) => {
            let c = choose|c: nat|
                c <= step_limit(net, turns) && #[trigger] arrives_at(net, turns, start, any_z, c);
            lemma_arrival_unique(net, turns, start, any_z, k as nat, c);
        },
        None => {
            if exists|k: nat|
                k <= step_limit(net, turns) && #[trigger] arrives_at(net, turns, start, any_z, k) {
                let c = choose|c: nat|
                    c <= step_limit(net, turns) && #[trigger] arrives_at(
                        net,
                        turns,
                        start,
                        any_z,
                        c,
                    );
                assert(false);
            }
        },
    }
}

/// The nodes written on `lines`: the name in the first three bytes, the
/// names of the left and right exits in the bytes 7 to 9 and 12 to 14.
pub open spec fn network_of(lines: Seq<Seq<u8>>) -> Option<Net> {
    if forall|i: int| 0 <= i < lines.len() ==> (#[trigger] lines[i]).len() >= 15 {
        Some(
            Net {
                names: Seq::new(lines.len(), |i: int| lines[i].subrange(0, 3)),
                left: Seq::new(lines.len(), |i: int| lines[i].subrange(7, 10)),
                right: Seq::new(lines.len(), |i: int| lines[i].subrange(12, 15)),
            },
        )
    } else {
        None
    }
}

/// The bytes `from..to` of `line`.
pub fn cut(line: &Vec<u8>, from: usize, to: usize) -> (r: Vec<u8>)
    requires
        from <= to <= line@.len(),
    ensures
        r@ == line@.subrange(from as int, to as int),
{
    let mut out: Vec<u8> = Vec::new();
    let mut i = from;
    while i < to
        invariant
            from <= i <= to <= line@.len(),
            out@ == line@.subrange(from as int, i as int),
        decreases to - i,
    {
        out.push(line[i]);
        assert(out@ =~= line@.subrange(from as int, i as int + 1));
        i += 1;
    }
    out
}

/// The network written on `lines`.
pub fn read_network(lines: &Vec<Vec<u8>>) -> (r: Option<Network>)
    ensures
        match r {
            Some(net) => network_of(lines.deep_view()) == Some(net@) && net_ok(net@)
                && net@.names.len() == lines@.len(),
            None => network_of(lines.deep_view()) is None,
        },
{
    let ghost model = lines.deep_view();
    let mut names: Vec<Vec<u8>> = Vec::new();
    let mut left: Vec<Vec<u8>> = Vec::new();
    let mut right: Vec<Vec<u8>> = Vec::new();
    let mut i: usize = 0;
    while i < lines.len()
        invariant
            i <= lines@.len(),
            model == lines.deep_view(),
            names@.len() == i,
            left@.len() == i,
            right@.len() == i,
            forall|k: int| 0 <= k < i ==> (#[trigger] model[k]).len() >= 15,
            forall|k: int| 0 <= k < i ==> (#[trigger] names@[k])@ == model[k].subrange(0, 3),
            forall|k: int| 0 <= k < i ==> (#[trigger] left@[k])@ == model[k].subrange(7, 10),
            forall|k: int| 0 <= k < i ==> (#[trigger] right@[k])@ == model[k].subrange(12, 15),
        decreases lines@.len() - i,
    {
        let line = &lines[i];
        assert(model[i as int] =~= line@);
        if line.len() < 15 {
            return None;
        }
        names.push(cut(line, 0, 3));
        left.push(cut(line, 7, 10));
        right.push(cut(line, 12, 15));
        i += 1;
    }
    let net = Network { names, left, right };
    proof {
        let want = network_of(model)->Some_0;
        assert(net@.names =~= want.names) by {
            assert forall|k: int| 0 <= k < net@.names.len() implies net@.names[k] == want.names[k] by {
                assert(net@.names[k] =~= net.names@[k]@);
            }
        }
        assert(net@.left =~= want.left) by {
            assert forall|k: int| 0 <= k < net@.left.len() implies net@.left[k] == want.left[k] by {
                assert(net@.left[k] =~= net.left@[k]@);
            }
        }
        assert(net@.right =~= want.right) by {
            assert forall|k: int| 0 <= k < net@.right.len() implies net@.right[k] == want.right[k] by {
                assert(net@.right[k] =~= net.right@[k]@);
            }
        }
    }
    Some(net)
}

/// The blank line between the turns and the nodes.
pub open spec fn blank_line() -> Seq<u8> {
    seq![10u8, 10u8]
}

/// The name of the node where the single walker starts.
pub open spec fn first_name() -> Seq<u8> {
    seq![65u8, 65u8, 65u8]
}

/// What the walk of a single walker through the network written in `text`
/// comes to: the number of the step that first enters `ZZZ`, cut to 32
/// bits. Nothing where the text has no blank line, a line of nodes is
/// short, no node is named `AAA`, or the walk finds no goal.
pub open spec fn single_walk(text: Seq<u8>) -> Option<u32> {
    match split_once_of(text, blank_line()) {
        None => None,
        Some((turns, nodes)) => match network_of(lines_of(nodes)) {
            None => None,
            Some(net) => if node_named(net, first_name()) < 0 {
                None
            } else {
                match first_goal(net, turns, node_named(net, first_name()), false) {
                    Some(k) => Some((k % 0x1_0000_0000) as u32),
                    None => None,
                }
            },
        },
    }
}

/// The number of steps from `AAA` to `ZZZ`.
pub fn part_one(input: &str) -> (r: Option<u32>)
    ensures
        r == single_walk(input.spec_bytes()),
{
    let gap: [u8; 2] = [10, 10];
    assert(gap@ =~= blank_line());
    let (turns, nodes) = match split_once(input.as_bytes(), gap.as_slice()) {
        Some(p) => p,
        None => {
            return None;
        },
    };
    let lines = split_lines(nodes.as_slice());
    let net = match read_network(&lines) {
        Some(n) => n,
        None => {
            return None;
        },
    };
    let mut aaa: Vec<u8> = Vec::new();
    aaa.push(65);
    aaa.push(65);
    aaa.push(65);
    assert(aaa@ =~= first_name());
    let start = match net.find(&aaa) {
        Some(s) => s,
        None => {
            return None;
        },
    };
    let found = net.walk(&turns, start, false);
    proof {
        if turns@.len() > 0 {
            lemma_walk_result(net@, turns@, start as int, false, found);
        }
    }
    match found {
        Some(k) => Some((k % 0x1_0000_0000) as u32),
        None => None,
    }
}

/// The least common multiple of all of `lens`, folded from the left;
/// nothing for no numbers, or where a product on the way does not fit 64
/// bits.
pub open spec fn fold_lcm(lens: Seq<u64>) -> Option<u64>
    decreases lens.len(),
{
    if lens.len() == 0 {
        None
    } else if lens.len() == 1 {
        Some(lens[0])
    } else {
        match fold_lcm(lens.drop_last()) {
            Some(a) => if a * lens.last() <= u64::MAX {
                Some(lcm_of(a as nat, lens.last() as nat) as u64)
            } else {
                None
            },
            None => None,
        }
    }
}

/// Whether a ghost starts on node `i`: the third byte of its name is `A`.
pub open spec fn is_start(net: Net, i: int) -> bool {
    net.names[i].len() >= 3 && net.names[i][2] == 65
}

/// For each of the first `upto` nodes on which a ghost starts, the number
/// of the step with which that ghost first enters a goal; nothing where
/// one of them finds none.
pub open spec fn ghost_cycles(net: Net, turns: Seq<u8>, upto: int) -> Option<Seq<u64>>
    decreases upto,
{
    if upto <= 0 {
        Some(Seq::empty())
    } else {
        match ghost_cycles(net, turns, upto - 1) {
            None => None,
            Some(before) => if is_start(net, upto - 1) {
                match first_goal(net, turns, node_named(net, net.names[upto - 1]), true) {
                    Some(k) => Some(before.push(k)),
                    None => None,
                }
            } else {
                Some(before)
            },
        }
    }
}

/// What the walk of all ghosts through the network written in `text`
/// comes to: the least common multiple of the step counts with which
/// each ghost first enters a goal.
pub open spec fn ghost_walk(text: Seq<u8>) -> Option<u64> {
    match split_once_of(text, blank_line()) {
        None => None,
        Some((turns, nodes)) => match network_of(lines_of(nodes)) {
            None => None,
            Some(net) => match ghost_cycles(net, turns, net.names.len() as int) {
                Some(cycles) => fold_lcm(cycles),
                None => None,
            },
        },
    }
}

/// The number of the first step with which every ghost stands on a goal,
/// taken to be the least common multiple of the step counts with which
/// each ghost first enters one.
pub fn part_two(input: &str) -> (r: Option<u64>)
    ensures
        r == ghost_walk(input.spec_bytes()),
{
    let gap: [u8; 2] = [10, 10];
    assert(gap@ =~= blank_line());
    let (turns, nodes) = match split_once(input.as_bytes(), gap.as_slice()) {
        Some(p) => p,
        None => {
            return None;
        },
    };
    let lines = split_lines(nodes.as_slice());
    let net = match read_network(&lines) {
        Some(n) => n,
        None => {
            return None;
        },
    };
    let n = net.names.len();
    let ghost cycles: Seq<u64> = Seq::empty();
    let mut acc: Option<u64> = None;
    let mut count: usize = 0;
    let mut i: usize = 0;
    while i < n
        invariant
            i <= n,
            n == net@.names.len(),
            net_ok(net@),
            split_once_of(input.spec_bytes(), blank_line()) == Some((turns@, nodes@)),
            network_of(lines_of(nodes@)) == Some(net@),
            ghost_cycles(net@, turns@, i as int) == Some(cycles),
            count == cycles.len(),
            count <= i,
            acc == fold_lcm(cycles),
        decreases n - i,
    {
        let name = &net.names[i];
        assert(net@.names[i as int] =~= name@);
        if name.len() >= 3 && name[2] == 65 {
            let start = match net.find(name) {
                Some(s) => s,
                None => {
                    proof {
                        lemma_named(net@, name@, n as int, i as int);
                    }
                    0
                },
            };
            let found = net.walk(&turns, start, true);
            proof {
                if turns@.len() > 0 {
                    lemma_walk_result(net@, turns@, start as int, true, found);
                }
            }
            match found {
                None => {
                    proof {
                        assert(ghost_cycles(net@, turns@, i + 1) is None);
                        lemma_cycles_lost(net@, turns@, i + 1, n as int);
                    }
                    return None;
                },
                Some(k) => {
                    let ghost longer = cycles.push(k);
                    proof {
                        assert(longer.drop_last() =~= cycles);
                        assert(longer.last() == k);
                        assert(longer.len() == count + 1);
                        assert(ghost_cycles(net@, turns@, i + 1) == Some(longer));
                    }
                    let ghost old_acc = acc;
                    assert(old_acc == fold_lcm(longer.drop_last()));
                    acc = if count == 0 {
                        Some(k)
                    } else {
                        match acc {
                            Some(a) => lcm_checked(a, k),
                            None => None,
                        }
                    };
                    proof {
                        if count == 0 {
                            assert(longer.len() == 1);
                            assert(longer[0] == k);
                        } else {
                            assert(longer.len() >= 2);
                            assert(fold_lcm(longer) == match fold_lcm(longer.drop_last()) {
                                Some(a) => if a * longer.last() <= u64::MAX {
                                    Some(lcm_of(a as nat, longer.last() as nat) as u64)
                                } else {
                                    None
                                },
                                None => None,
                            });
                            match old_acc {
                                Some(a) => {
                                    if a * k <= u64::MAX {
                                        assert(acc == Some(lcm_of(a as nat, k as nat) as u64));
                                    }
                                },
                                None => {},
                            }
                        }
                        assert(acc == fold_lcm(longer));
                    }
                    count += 1;
                    proof {
                        cycles = longer;
                    }
                },
            }
        }
        i += 1;
    }
    acc
}

/// Once a ghost finds no goal, the count for all ghosts is lost.
pub proof fn lemma_cycles_lost(net: Net, turns: Seq<u8>, a: int, b: int)
    requires
        ghost_cycles(net, turns, a) is None,
        a <= b,
    ensures
        ghost_cycles(net, turns, b) is None,
    decreases b - a,
{
    if a < b {
        lemma_cycles_lost(net, turns, a, b - 1);
    }
}

/// A name that some node bears is found.
pub proof fn lemma_named(net: Net, name: Seq<u8>, upto: int, i: int)
    requires
        0 <= i < upto <= net.names.len(),
        net.names[i] == name,
    ensures
        lookup(net.names, name, upto) >= i,
    decreases upto,
{
    if upto - 1 > i && net.names[upto - 1] != name {
        lemma_named(net, name, upto - 1, i);
    }
}

} // verus!
