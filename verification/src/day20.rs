//! Pulse propagation: a network of flip-flops and conjunctions answers
//! each press of a button with a cascade of low and high pulses.

use crate::grid::SearchError;
use crate::period::Simulation;
use crate::day08::lookup;
use crate::text::{lines_of, parts_of, split_by, split_lines, split_once, split_once_of};
use vstd::prelude::*;
use vstd::string::StringSliceAdditionalSpecFns;

verus! {

/// A module that only passes pulses on, such as the broadcaster.
pub const PASS_THROUGH: u8 = 0;

/// A module that flips between off and on with each low pulse.
pub const FLIP_FLOP: u8 = 1;

/// A module that remembers the last pulse from each of its inputs.
pub const CONJUNCTION: u8 = 2;

/// How many pulses one press of the button may set off before the press
/// is given up.
pub const PULSE_BUDGET: u64 = 1000000;

/// A pulse on its way: from module `source` to module `target`, if the
/// target names a module, and high or low.
#[derive(Clone, Copy, Debug, PartialEq, Eq, Structural)]
pub struct Pulse {
    pub source: usize,
    pub target: Option<usize>,
    pub high: bool,
}

/// The wiring of the modules. Module `i` is of kind `kinds[i]`, sends to
/// the modules `targets[i]`, and, as a conjunction, hears from the
/// modules `sources[i]`.
pub struct Network {
    pub kinds: Vec<u8>,
    pub targets: Vec<Vec<Option<usize>>>,
    pub sources: Vec<Vec<usize>>,
    pub broadcaster: usize,
}

/// The mathematical model of a [`Network`].
pub struct Net {
    pub kinds: Seq<u8>,
    pub targets: Seq<Seq<Option<usize>>>,
    pub sources: Seq<Seq<usize>>,
    pub broadcaster: int,
}

/// What the modules remember: for each module whether it is on, and for
/// each input of each module whether the last pulse from it was high.
pub struct Machine {
    pub flip: Vec<bool>,
    pub memory: Vec<Vec<bool>>,
}

/// The mathematical model of a [`Machine`].
pub struct State {
    pub flip: Seq<bool>,
    pub memory: Seq<Seq<bool>>,
}

impl View for Network {
    type V = Net;

    open spec fn view(&self) -> Net {
        Net {
            kinds: self.kinds@,
            targets: Seq::new(self.targets@.len(), |i: int| self.targets@[i]@),
            sources: Seq::new(self.sources@.len(), |i: int| self.sources@[i]@),
            broadcaster: self.broadcaster as int,
        }
    }
}

impl View for Machine {
    type V = State;

    open spec fn view(&self) -> State {
        State {
            flip: self.flip@,
            memory: Seq::new(self.memory@.len(), |i: int| self.memory@[i]@),
        }
    }
}

/// Whether `net` lists targets and sources for each module, and names
/// only modules that exist.
pub open spec fn net_ok(net: Net) -> bool {
    &&& net.targets.len() == net.kinds.len()
    &&& net.sources.len() == net.kinds.len()
    &&& 0 <= net.broadcaster < net.kinds.len()
    &&& forall|i: int, k: int|
        0 <= i < net.targets.len() && 0 <= k < net.targets[i].len() ==> match #[trigger] net.targets[i][k] {
            Some(t) => t < net.kinds.len(),
            None => true,
        }
    &&& forall|i: int, k: int|
        0 <= i < net.sources.len() && 0 <= k < net.sources[i].len() ==> (#[trigger] net.sources[i][k])
            < net.kinds.len()
}

/// Whether `st` remembers something for each module and each of its
/// inputs.
pub open spec fn state_ok(net: Net, st: State) -> bool {
    &&& st.flip.len() == net.kinds.len()
    &&& st.memory.len() == net.kinds.len()
    &&& forall|i: int| 0 <= i < st.memory.len() ==> (#[trigger] st.memory[i]).len() == net.sources[i].len()
}

/// Where module `source` stands among the first `upto` of `sources`, or
/// `-1`.
pub open spec fn input_slot(sources: Seq<usize>, source: usize, upto: int) -> int
    decreases upto,
{
    if upto <= 0 {
        -1
    } else if input_slot(sources, source, upto - 1) >= 0 {
        input_slot(sources, source, upto - 1)
    } else if sources[upto - 1] == source {
        upto - 1
    } else {
        -1
    }
}

/// Whether some of the first `upto` of `memory` is low.
pub open spec fn any_low(memory: Seq<bool>, upto: int) -> bool
    decreases upto,
{
    if upto <= 0 {
        false
    } else {
        any_low(memory, upto - 1) || !memory[upto - 1]
    }
}

/// The pulses that module `from` sends to the first `upto` of its
/// targets.
pub open spec fn sent(net: Net, from: int, high: bool, upto: int) -> Seq<Pulse>
    decreases upto,
{
    if upto <= 0 {
        Seq::empty()
    } else {
        sent(net, from, high, upto - 1).push(
            Pulse { source: from as usize, target: net.targets[from][upto - 1], high },
        )
    }
}

/// What becomes of the state when `pulse` arrives, and which pulses go
/// out in answer. A pulse to no module is lost. A flip-flop ignores a
/// high pulse and answers a low one by flipping and sending its new
/// state. A conjunction notes the pulse for its source and sends low only
/// if all its inputs were last high. Nothing where the pulse arrives at a
/// module that only passes on, or at a conjunction that does not know its
/// source.
pub open spec fn delivered(net: Net, st: State, pulse: Pulse) -> Option<(State, Seq<Pulse>)> {
    match pulse.target {
        None => Some((st, Seq::empty())),
        Some(t) => {
            let at = t as int;
            if net.kinds[at] == FLIP_FLOP {
                if pulse.high {
                    Some((st, Seq::empty()))
                } else {
                    let on = !st.flip[at];
                    Some(
                        (
                            State { flip: st.flip.update(at, on), memory: st.memory },
                            sent(net, at, on, net.targets[at].len() as int),
                        ),
                    )
                }
            } else if net.kinds[at] == CONJUNCTION {
                let slot = input_slot(net.sources[at], pulse.source, net.sources[at].len() as int);
                if slot < 0 {
                    None
                } else {
                    let noted = st.memory[at].update(slot, pulse.high);
                    Some(
                        (
                            State { flip: st.flip, memory: st.memory.update(at, noted) },
                            sent(
                                net,
                                at,
                                any_low(noted, noted.len() as int),
                                net.targets[at].len() as int,
                            ),
                        ),
                    )
                }
            } else {
                None
            }
        },
    }
}

/// What a cascade comes to: the state at rest, the low and high pulses
/// counted, and for each module whether a high pulse of it was counted.
pub struct Outcome {
    pub state: State,
    pub lows: int,
    pub highs: int,
    pub fired: Seq<bool>,
}

/// What the cascade of the waiting pulses `queue` comes to within `fuel`
/// deliveries, first come first served: the state at rest and the low and
/// high pulses counted, `lows` and `highs` of them before. Nothing where
/// a delivery fails or the cascade does not come to rest.
pub open spec fn cascade(
    net: Net,
    st: State,
    queue: Seq<Pulse>,
    lows: int,
    highs: int,
    fired: Seq<bool>,
    fuel: nat,
) -> Option<Outcome>
    decreases fuel,
{
    if queue.len() == 0 {
        Some(Outcome { state: st, lows, highs, fired })
    } else if fuel == 0 {
        None
    } else {
        let pulse = queue[0];
        match delivered(net, st, pulse) {
            None => None,
            Some((next, out)) => cascade(
                net,
                next,
                queue.drop_first() + out,
                if pulse.high {
                    lows
                } else {
                    lows + 1
                },
                if pulse.high {
                    highs + 1
                } else {
                    highs
                },
                if pulse.high {
                    fired.update(pulse.source as int, true)
                } else {
                    fired
                },
                (fuel - 1) as nat,
            ),
        }
    }
}

/// What one press of the button comes to: a low pulse to the broadcaster,
/// which sends a low pulse to each of its targets.
pub open spec fn pressed(net: Net, st: State, fuel: nat) -> Option<Outcome> {
    cascade(
        net,
        st,
        sent(net, net.broadcaster, false, net.targets[net.broadcaster].len() as int),
        1,
        0,
        Seq::new(net.kinds.len(), |i: int| false),
        fuel,
    )
}

/// Whether every pulse of `queue` comes from a module and goes to a
/// module or to none.
pub open spec fn pulses_ok(net: Net, queue: Seq<Pulse>) -> bool {
    forall|k: int|
        0 <= k < queue.len() ==> (#[trigger] queue[k]).source < net.kinds.len() && match queue[k].target {
            Some(t) => t < net.kinds.len(),
            None => true,
        }
}

/// Queues the pulses that module `from` sends to its targets.
pub fn send(net: &Network, from: usize, high: bool, queue: &mut Vec<Pulse>)
    requires
        net_ok(net@),
        from < net@.kinds.len(),
        pulses_ok(net@, old(queue)@),
    ensures
        final(queue)@ == old(queue)@ + sent(net@, from as int, high, net@.targets[from as int].len() as int),
        pulses_ok(net@, final(queue)@),
{
    let list = &net.targets[from];
    assert(net@.targets[from as int] == list@);
    let ghost before = queue@;
    let mut k: usize = 0;
    assert(queue@ =~= before + sent(net@, from as int, high, 0));
    while k < list.len()
        invariant
            k <= list@.len(),
            net_ok(net@),
            from < net@.kinds.len(),
            net@.targets[from as int] == list@,
            queue@ == before + sent(net@, from as int, high, k as int),
            pulses_ok(net@, queue@),
        decreases list@.len() - k,
    {
        let ghost so_far = sent(net@, from as int, high, k as int);
        let pulse = Pulse { source: from, target: list[k], high };
        assert(net@.targets[from as int][k as int] == list@[k as int]);
        let ghost q0 = queue@;
        queue.push(pulse);
        proof {
            assert(queue@ =~= before + so_far.push(pulse));
            assert forall|j: int| 0 <= j < queue@.len() implies (#[trigger] queue@[j]).source
                < net@.kinds.len() && match queue@[j].target {
                Some(t) => t < net@.kinds.len(),
                None => true,
            } by {
                if j < q0.len() {
                    assert(queue@[j] == q0[j]);
                }
            }
        }
        k += 1;
    }
}

/// Where module `source` stands among `sources`.
pub fn find_slot(sources: &Vec<usize>, source: usize) -> (r: Option<usize>)
    ensures
        match r {
            Some(s) => s == input_slot(sources@, source, sources@.len() as int) && s < sources@.len(),
            None => input_slot(sources@, source, sources@.len() as int) == -1,
        },
{
    let mut k: usize = 0;
    while k < sources.len()
        invariant
            k <= sources@.len(),
            input_slot(sources@, source, k as int) == -1,
        decreases sources@.len() - k,
    {
        if sources[k] == source {
            proof {
                lemma_slot_stays(sources@, source, k + 1, sources@.len() as int);
            }
            return Some(k);
        }
        k += 1;
    }
    None
}

/// Once the slot of a source is found, it stays.
proof fn lemma_slot_stays(sources: Seq<usize>, source: usize, a: int, b: int)
    requires
        input_slot(sources, source, a) >= 0,
        a <= b,
    ensures
        input_slot(sources, source, b) == input_slot(sources, source, a),
    decreases b - a,
{
    if a < b {
        lemma_slot_stays(sources, source, a, b - 1);
    }
}

/// Whether some of `memory` is low.
pub fn some_low(memory: &Vec<bool>) -> (r: bool)
    ensures
        r == any_low(memory@, memory@.len() as int),
{
    let mut found = false;
    let mut k: usize = 0;
    while k < memory.len()
        invariant
            k <= memory@.len(),
            found == any_low(memory@, k as int),
        decreases memory@.len() - k,
    {
        if !memory[k] {
            found = true;
        }
        k += 1;
    }
    found
}

/// Delivers `pulse`: changes what the modules remember and queues the
/// pulses sent in answer. Returns `false`, with nothing changed, where
/// the delivery fails.
pub fn deliver(net: &Network, machine: &mut Machine, pulse: Pulse, queue: &mut Vec<Pulse>) -> (ok: bool)
    requires
        net_ok(net@),
        state_ok(net@, old(machine)@),
        pulses_ok(net@, old(queue)@),
        pulse.source < net@.kinds.len(),
        match pulse.target {
            Some(t) => t < net@.kinds.len(),
            None => true,
        },
    ensures
        state_ok(net@, final(machine)@),
        pulses_ok(net@, final(queue)@),
        match delivered(net@, old(machine)@, pulse) {
            Some((st, out)) => ok && final(machine)@ == st && final(queue)@ == old(queue)@ + out,
            None => !ok && final(machine)@ == old(machine)@ && final(queue)@ == old(queue)@,
        },
{
    let ghost st0 = machine@;
    let ghost q0 = queue@;
    match pulse.target {
        None => {
            assert(queue@ + Seq::<Pulse>::empty() =~= queue@);
            true
        },
        Some(t) => {
            let kind = net.kinds[t];
            if kind == FLIP_FLOP {
                if pulse.high {
                    assert(queue@ + Seq::<Pulse>::empty() =~= queue@);
                    true
                } else {
                    let on = !machine.flip[t];
                    machine.flip.set(t, on);
                    send(net, t, on, queue);
                    proof {
                        assert(machine@.memory =~= st0.memory);
                        assert(machine@ == State { flip: st0.flip.update(t as int, on), memory: st0.memory });
                    }
                    true
                }
            } else if kind == CONJUNCTION {
                assert(net@.sources[t as int] == net.sources@[t as int]@);
                match find_slot(&net.sources[t], pulse.source) {
                    None => false,
                    Some(slot) => {
                        let mut noted: Vec<bool> = Vec::new();
                        assert(st0.memory[t as int] == machine.memory@[t as int]@);
                        std::mem::swap(&mut noted, &mut machine.memory[t]);
                        noted.set(slot, pulse.high);
                        let low = some_low(&noted);
                        let ghost noted_seq = noted@;
                        machine.memory.set(t, noted);
                        send(net, t, low, queue);
                        proof {
                            let want = st0.memory.update(t as int, noted_seq);
                            assert(machine@.memory =~= want) by {
                                assert forall|i: int| 0 <= i < want.len() implies machine@.memory[i]
                                    == want[i] by {}
                            }
                            assert(machine@ == State { flip: st0.flip, memory: want });
                            assert forall|i: int| 0 <= i < machine@.memory.len() implies (
                            #[trigger] machine@.memory[i]).len() == net@.sources[i].len() by {
                                if i != t {
                                    assert(machine@.memory[i] == st0.memory[i]);
                                }
                            }
                        }
                        true
                    },
                }
            } else {
                false
            }
        },
    }
}

/// What one press of the button sets off: the low and the high pulses
/// counted, and for each module whether it sent a high pulse, with the
/// modules left as the cascade leaves them. `None`, with the modules left
/// somewhere on the way, where a delivery fails or more than `budget`
/// pulses are sent.
pub fn press(net: &Network, machine: &mut Machine, budget: u64) -> (r: Option<(u64, u64, Vec<bool>)>)
    requires
        net_ok(net@),
        state_ok(net@, old(machine)@),
        budget < u64::MAX,
    ensures
        state_ok(net@, final(machine)@),
        match pressed(net@, old(machine)@, budget as nat) {
            Some(outcome) => r is Some && r->Some_0.0 == outcome.lows && r->Some_0.1
                == outcome.highs && r->Some_0.2@ == outcome.fired && final(machine)@
                == outcome.state && outcome.lows + outcome.highs <= budget + 1
                && outcome.fired.len() == net@.kinds.len(),
            None => r is None,
        },
{
    let ghost st0 = machine@;
    let mut queue: Vec<Pulse> = Vec::new();
    send(net, net.broadcaster, false, &mut queue);
    let ghost q0 = queue@;
    assert(q0 =~= sent(
        net@,
        net@.broadcaster,
        false,
        net@.targets[net@.broadcaster].len() as int,
    ));
    let mut head: usize = 0;
    let mut lows: u64 = 1;
    let mut highs: u64 = 0;
    let mut fuel: u64 = budget;
    let mut fired: Vec<bool> = Vec::new();
    let mut m: usize = 0;
    while m < net.kinds.len()
        invariant
            m <= net.kinds@.len(),
            fired@.len() == m,
            forall|i: int| 0 <= i < m ==> !#[trigger] fired@[i],
        decreases net.kinds@.len() - m,
    {
        fired.push(false);
        m += 1;
    }
    assert(fired@ =~= Seq::new(net@.kinds.len(), |i: int| false));
    assert(queue@.subrange(0, queue@.len() as int) =~= queue@);
    loop
        invariant
            st0 == old(machine)@,
            net_ok(net@),
            state_ok(net@, machine@),
            pulses_ok(net@, queue@),
            head <= queue@.len(),
            lows + highs + fuel == budget + 1,
            budget < u64::MAX,
            fired@.len() == net@.kinds.len(),
            pressed(net@, st0, budget as nat) == cascade(
                net@,
                machine@,
                queue@.subrange(head as int, queue@.len() as int),
                lows as int,
                highs as int,
                fired@,
                fuel as nat,
            ),
        decreases fuel,
    {
        if head >= queue.len() {
            return Some((lows, highs, fired));
        }
        if fuel == 0 {
            return None;
        }
        let pulse = queue[head];
        let ghost waiting = queue@.subrange(head as int, queue@.len() as int);
        let ghost before = queue@;
        let ghost here = machine@;
        assert(waiting[0] == pulse);
        assert(waiting.len() > 0);
        if !deliver(net, machine, pulse, &mut queue) {
            assert(delivered(net@, here, pulse) is None);
            return None;
        }
        proof {
            let out = delivered(net@, here, pulse)->Some_0.1;
            assert(queue@ == before + out);
            assert(queue@.subrange(head + 1, queue@.len() as int) =~= waiting.drop_first() + out);
        }
        if pulse.high {
            highs += 1;
            assert(before[head as int] == pulse);
            fired.set(pulse.source, true);
        } else {
            lows += 1;
        }
        head += 1;
        fuel -= 1;
    }
}

/// The state in which every flip-flop is off and every conjunction
/// remembers a low pulse from each input.
pub open spec fn at_rest(net: Net) -> State {
    State {
        flip: Seq::new(net.kinds.len(), |i: int| false),
        memory: Seq::new(net.kinds.len(), |i: int| Seq::new(net.sources[i].len(), |k: int| false)),
    }
}

/// The modules at rest.
pub fn rest(net: &Network) -> (machine: Machine)
    requires
        net_ok(net@),
    ensures
        machine@ == at_rest(net@),
        state_ok(net@, machine@),
{
    let n = net.kinds.len();
    let mut flip: Vec<bool> = Vec::new();
    let mut memory: Vec<Vec<bool>> = Vec::new();
    let mut i: usize = 0;
    while i < n
        invariant
            i <= n,
            n == net@.kinds.len(),
            net_ok(net@),
            flip@.len() == i,
            memory@.len() == i,
            forall|j: int| 0 <= j < i ==> !#[trigger] flip@[j],
            forall|j: int|
                0 <= j < i ==> (#[trigger] memory@[j])@ == Seq::new(
                    net@.sources[j].len(),
                    |k: int| false,
                ),
        decreases n - i,
    {
        flip.push(false);
        let mut row: Vec<bool> = Vec::new();
        let mut k: usize = 0;
        assert(net@.sources[i as int] == net.sources@[i as int]@);
        while k < net.sources[i].len()
            invariant
                k <= net.sources@[i as int]@.len(),
                i < net.sources@.len(),
                row@.len() == k,
                forall|j: int| 0 <= j < k ==> !#[trigger] row@[j],
            decreases net.sources@[i as int]@.len() - k,
        {
            row.push(false);
            k += 1;
        }
        assert(row@ =~= Seq::new(net@.sources[i as int].len(), |k: int| false));
        memory.push(row);
        i += 1;
    }
    let machine = Machine { flip, memory };
    assert(machine@.flip =~= at_rest(net@).flip);
    assert(machine@.memory =~= at_rest(net@).memory);
    machine
}

/// The low and the high pulses that `presses` presses of the button set
/// off from the state `st`, `lows` and `highs` of them counted before;
/// nothing where a press fails.
pub open spec fn counted(net: Net, st: State, presses: nat, lows: int, highs: int, fuel: nat) -> Option<
    (int, int),
>
    decreases presses,
{
    if presses == 0 {
        Some((lows, highs))
    } else {
        match pressed(net, st, fuel) {
            Some(o) => counted(
                net,
                o.state,
                (presses - 1) as nat,
                lows + o.lows,
                highs + o.highs,
                fuel,
            ),
            None => None,
        }
    }
}

/// The number of low pulses times the number of high pulses that
/// `presses` presses of the button set off from rest, each press within
/// `budget` pulses; `None` where a press fails or the product exceeds 64
/// bits.
pub fn count_pulses(net: &Network, presses: u32, budget: u32) -> (r: Option<u64>)
    requires
        net_ok(net@),
    ensures
        match counted(net@, at_rest(net@), presses as nat, 0, 0, budget as nat) {
            Some((lows, highs)) => r == if lows * highs <= u64::MAX {
                Some((lows * highs) as u64)
            } else {
                None
            },
            None => r is None,
        },
{
    let mut machine = rest(net);
    let mut lows: u64 = 0;
    let mut highs: u64 = 0;
    let mut done: u32 = 0;
    while done < presses
        invariant
            done <= presses,
            net_ok(net@),
            state_ok(net@, machine@),
            lows + highs <= done * (budget + 1),
            counted(net@, at_rest(net@), presses as nat, 0, 0, budget as nat) == counted(
                net@,
                machine@,
                (presses - done) as nat,
                lows as int,
                highs as int,
                budget as nat,
            ),
        decreases presses - done,
    {
        assert(done * (budget + 1) + (budget + 1) == (done + 1) * (budget + 1)) by (nonlinear_arith);
        assert((done + 1) * (budget + 1) <= 0xFFFF_FFFF_0000_0000) by (nonlinear_arith)
            requires
                0 <= done < 0xFFFF_FFFF,
                0 <= budget <= 0xFFFF_FFFF,
        ;
        match press(net, &mut machine, budget as u64) {
            Some((l, h, _)) => {
                lows = lows + l;
                highs = highs + h;
            },
            None => {
                return None;
            },
        }
        done += 1;
    }
    assert(lows * highs >= 0) by (nonlinear_arith)
        requires
            lows >= 0,
            highs >= 0,
    ;
    lows.checked_mul(highs)
}

/// Whether module `watched` sends a high pulse during press number `k`
/// from rest, counted from one, with all presses before and this one
/// coming to rest.
pub open spec fn fires_at(net: Net, watched: int, k: nat, fuel: nat) -> bool {
    k >= 1 && state_after_presses(net, (k - 1) as nat, fuel) is Some && match pressed(
        net,
        state_after_presses(net, (k - 1) as nat, fuel)->Some_0,
        fuel,
    ) {
        Some(o) => o.fired[watched],
        None => false,
    }
}

/// The state after `k` presses from rest; nothing where a press fails.
pub open spec fn state_after_presses(net: Net, k: nat, fuel: nat) -> Option<State>
    decreases k,
{
    if k == 0 {
        Some(at_rest(net))
    } else {
        match state_after_presses(net, (k - 1) as nat, fuel) {
            Some(st) => match pressed(net, st, fuel) {
                Some(o) => Some(o.state),
                None => None,
            },
            None => None,
        }
    }
}

/// The number of the first press, counted from one, during which module
/// `watched` sends a high pulse. The search gives up after `max_presses`
/// presses, and where a press fails.
pub fn presses_until_high(net: &Network, watched: usize, max_presses: u64, budget: u32) -> (r: Result<
    u64,
    SearchError,
>)
    requires
        net_ok(net@),
        watched < net@.kinds.len(),
    ensures
        match r {
            Ok(k) => 1 <= k <= max_presses && fires_at(net@, watched as int, k as nat, budget as nat)
                && forall|j: nat| 1 <= j < k ==> !#[trigger] fires_at(
                net@,
                watched as int,
                j,
                budget as nat,
            ),
            Err(e) => e == SearchError::NonTerminatingSimulation && forall|j: nat|
                1 <= j <= max_presses ==> !#[trigger] fires_at(
                    net@,
                    watched as int,
                    j,
                    budget as nat,
                ),
        },
{
    let mut machine = rest(net);
    let mut done: u64 = 0;
    while done < max_presses
        invariant
            done <= max_presses,
            net_ok(net@),
            watched < net@.kinds.len(),
            state_ok(net@, machine@),
            state_after_presses(net@, done as nat, budget as nat) == Some(machine@),
            forall|j: nat|
                1 <= j <= done ==> !#[trigger] fires_at(net@, watched as int, j, budget as nat),
        decreases max_presses - done,
    {
        let ghost here = machine@;
        match press(net, &mut machine, budget as u64) {
            Some((_, _, fired)) => {
                done += 1;
                if fired[watched] {
                    assert(fires_at(net@, watched as int, done as nat, budget as nat));
                    return Ok(done);
                }
                assert(!fires_at(net@, watched as int, done as nat, budget as nat));
            },
            None => {
                proof {
                    assert(pressed(net@, here, budget as nat) is None);
                    assert forall|j: nat| 1 <= j <= max_presses implies !#[trigger] fires_at(
                        net@,
                        watched as int,
                        j,
                        budget as nat,
                    ) by {
                        if j > done {
                            lemma_presses_lost(net@, (done + 1) as nat, (j - 1) as nat, budget as nat);
                            if j == done + 1 {
                            } else {
                                lemma_presses_lost(
                                    net@,
                                    (done + 1) as nat,
                                    (j - 1) as nat,
                                    budget as nat,
                                );
                            }
                        }
                    }
                }
                return Err(SearchError::NonTerminatingSimulation);
            },
        }
    }
    Err(SearchError::NonTerminatingSimulation)
}

/// Once a press fails, no later state is reached.
pub proof fn lemma_presses_lost(net: Net, a: nat, b: nat, fuel: nat)
    requires
        state_after_presses(net, a, fuel) is None,
    ensures
        a <= b ==> state_after_presses(net, b, fuel) is None,
    decreases b,
{
    if a < b {
        lemma_presses_lost(net, a, (b - 1) as nat, fuel);
    }
}

/// A delivery leaves a state that fits the network.
pub proof fn lemma_delivered_ok(net: Net, st: State, pulse: Pulse)
    requires
        net_ok(net),
        state_ok(net, st),
        match pulse.target {
            Some(t) => t < net.kinds.len(),
            None => true,
        },
        delivered(net, st, pulse) is Some,
    ensures
        state_ok(net, delivered(net, st, pulse)->Some_0.0),
        pulses_ok_from(net, delivered(net, st, pulse)->Some_0.1),
{
    let (next, out) = delivered(net, st, pulse)->Some_0;
    match pulse.target {
        None => {},
        Some(t) => {
            let at = t as int;
            lemma_sent_ok(net, at, !st.flip[at], net.targets[at].len() as int);
            if net.kinds[at] == CONJUNCTION {
                let slot = input_slot(net.sources[at], pulse.source, net.sources[at].len() as int);
                lemma_slot_bound(net.sources[at], pulse.source, net.sources[at].len() as int);
                let noted = st.memory[at].update(slot, pulse.high);
                lemma_sent_ok(net, at, any_low(noted, noted.len() as int), net.targets[at].len() as int);
                assert forall|i: int| 0 <= i < next.memory.len() implies (#[trigger] next.memory[i]).len()
                    == net.sources[i].len() by {
                    if i != at {
                        assert(next.memory[i] == st.memory[i]);
                    }
                }
            }
        },
    }
}

/// Whether every pulse of `queue` goes to a module or to none.
pub open spec fn pulses_ok_from(net: Net, queue: Seq<Pulse>) -> bool {
    forall|k: int|
        0 <= k < queue.len() ==> match (#[trigger] queue[k]).target {
            Some(t) => t < net.kinds.len(),
            None => true,
        }
}

/// A slot that is found lies among the sources.
proof fn lemma_slot_bound(sources: Seq<usize>, source: usize, upto: int)
    requires
        0 <= upto <= sources.len(),
    ensures
        input_slot(sources, source, upto) < upto,
        input_slot(sources, source, upto) >= -1,
    decreases upto,
{
    if upto > 0 {
        lemma_slot_bound(sources, source, upto - 1);
    }
}

/// What a module sends goes to modules or to none.
proof fn lemma_sent_ok(net: Net, from: int, high: bool, upto: int)
    requires
        net_ok(net),
        0 <= from < net.kinds.len(),
        0 <= upto <= net.targets[from].len(),
    ensures
        pulses_ok_from(net, sent(net, from, high, upto)),
        sent(net, from, high, upto).len() == upto,
    decreases upto,
{
    if upto > 0 {
        lemma_sent_ok(net, from, high, upto - 1);
        let before = sent(net, from, high, upto - 1);
        let here = sent(net, from, high, upto);
        assert forall|k: int| 0 <= k < here.len() implies match (#[trigger] here[k]).target {
            Some(t) => t < net.kinds.len(),
            None => true,
        } by {
            if k < before.len() {
                assert(here[k] == before[k]);
            } else {
                assert(here[k].target == net.targets[from][upto - 1]);
            }
        }
    }
}

/// A cascade that comes to rest leaves a state that fits the network.
pub proof fn lemma_cascade_ok(
    net: Net,
    st: State,
    queue: Seq<Pulse>,
    lows: int,
    highs: int,
    fired: Seq<bool>,
    fuel: nat,
)
    requires
        net_ok(net),
        state_ok(net, st),
        pulses_ok_from(net, queue),
        cascade(net, st, queue, lows, highs, fired, fuel) is Some,
    ensures
        state_ok(net, cascade(net, st, queue, lows, highs, fired, fuel)->Some_0.state),
    decreases fuel,
{
    if queue.len() > 0 && fuel > 0 {
        let pulse = queue[0];
        lemma_delivered_ok(net, st, pulse);
        let (next, out) = delivered(net, st, pulse)->Some_0;
        let rest = queue.drop_first() + out;
        assert forall|k: int| 0 <= k < rest.len() implies match (#[trigger] rest[k]).target {
            Some(t) => t < net.kinds.len(),
            None => true,
        } by {
            if k < queue.len() - 1 {
                assert(rest[k] == queue[k + 1]);
            } else {
                assert(rest[k] == out[k - (queue.len() - 1)]);
            }
        }
        lemma_cascade_ok(
            net,
            next,
            rest,
            if pulse.high {
                lows
            } else {
                lows + 1
            },
            if pulse.high {
                highs + 1
            } else {
                highs
            },
            if pulse.high {
                fired.update(pulse.source as int, true)
            } else {
                fired
            },
            (fuel - 1) as nat,
        );
    }
}

/// One step of the fingerprint.
pub open spec fn blend(h: u64, bit: bool) -> u64 {
    ((h * 31 + if bit {
        2int
    } else {
        1int
    }) % 0x1FFF_FFFF_FFFF_FFFF) as u64
}

/// The fingerprint of the first `upto` of `bits`, continued from `h`.
pub open spec fn bits_print(h: u64, bits: Seq<bool>, upto: int) -> u64
    decreases upto,
{
    if upto <= 0 {
        h
    } else {
        blend(bits_print(h, bits, upto - 1), bits[upto - 1])
    }
}

/// The fingerprint of the first `upto` rows of `memory`, continued from
/// `h`.
pub open spec fn memory_print(h: u64, memory: Seq<Seq<bool>>, upto: int) -> u64
    decreases upto,
{
    if upto <= 0 {
        h
    } else {
        bits_print(memory_print(h, memory, upto - 1), memory[upto - 1], memory[upto - 1].len() as int)
    }
}

/// Continues the fingerprint `h` with `bits`.
pub fn print_bits(h: u64, bits: &Vec<bool>) -> (r: u64)
    ensures
        r == bits_print(h, bits@, bits@.len() as int),
{
    let mut acc = h;
    let mut i: usize = 0;
    while i < bits.len()
        invariant
            i <= bits@.len(),
            acc == bits_print(h, bits@, i as int),
        decreases bits@.len() - i,
    {
        let add: u128 = if bits[i] {
            2
        } else {
            1
        };
        acc = (((acc as u128) * 31 + add) % 0x1FFF_FFFF_FFFF_FFFF) as u64;
        i += 1;
    }
    acc
}

/// Whether `a` and `b` hold the same bits.
pub fn bits_equal(a: &Vec<bool>, b: &Vec<bool>) -> (r: bool)
    ensures
        r == (a@ == b@),
{
    if a.len() != b.len() {
        return false;
    }
    let mut i: usize = 0;
    while i < a.len()
        invariant
            i <= a@.len(),
            a@.len() == b@.len(),
            forall|k: int| 0 <= k < i ==> a@[k] == b@[k],
        decreases a@.len() - i,
    {
        if a[i] != b[i] {
            return false;
        }
        i += 1;
    }
    assert(a@ =~= b@);
    true
}

/// A copy of `bits`.
pub fn copy_bits(bits: &Vec<bool>) -> (r: Vec<bool>)
    ensures
        r@ == bits@,
{
    let mut out: Vec<bool> = Vec::new();
    let mut i: usize = 0;
    while i < bits.len()
        invariant
            i <= bits@.len(),
            out@ == bits@.subrange(0, i as int),
        decreases bits@.len() - i,
    {
        out.push(bits[i]);
        assert(out@ =~= bits@.subrange(0, i + 1));
        i += 1;
    }
    assert(out@ =~= bits@);
    out
}

impl Simulation for Network {
    type State = Machine;

    open spec fn valid(&self, s: State) -> bool {
        net_ok(self@) && state_ok(self@, s)
    }

    /// A press of the button, or nothing at all where the press fails.
    open spec fn step_of(&self, s: State) -> State {
        match pressed(self@, s, PULSE_BUDGET as nat) {
            Some(o) => o.state,
            None => s,
        }
    }

    open spec fn fingerprint_of(&self, s: State) -> u64 {
        memory_print(bits_print(0, s.flip, s.flip.len() as int), s.memory, s.memory.len() as int)
    }

    proof fn lemma_step_valid(&self, s: State) {
        let net = self@;
        if pressed(net, s, PULSE_BUDGET as nat) is Some {
            lemma_sent_ok(net, net.broadcaster, false, net.targets[net.broadcaster].len() as int);
            lemma_cascade_ok(
                net,
                s,
                sent(net, net.broadcaster, false, net.targets[net.broadcaster].len() as int),
                1,
                0,
                Seq::new(net.kinds.len(), |i: int| false),
                PULSE_BUDGET as nat,
            );
        }
    }

    fn step(&self, s: &Machine) -> (t: Machine) {
        let mut next = self.duplicate(s);
        match press(self, &mut next, PULSE_BUDGET) {
            Some(_) => next,
            None => self.duplicate(s),
        }
    }

    fn fingerprint(&self, s: &Machine) -> (k: u64) {
        let mut acc = print_bits(0, &s.flip);
        let mut i: usize = 0;
        while i < s.memory.len()
            invariant
                i <= s.memory@.len(),
                acc == memory_print(bits_print(0, s@.flip, s@.flip.len() as int), s@.memory, i as int),
            decreases s.memory@.len() - i,
        {
            assert(s@.memory[i as int] == s.memory@[i as int]@);
            acc = print_bits(acc, &s.memory[i]);
            i += 1;
        }
        acc
    }

    fn same(&self, a: &Machine, b: &Machine) -> (r: bool) {
        if !bits_equal(&a.flip, &b.flip) || a.memory.len() != b.memory.len() {
            assert(a@ != b@) by {
                if a@ == b@ {
                    assert(a@.memory.len() == b@.memory.len());
                }
            }
            return false;
        }
        let mut i: usize = 0;
        while i < a.memory.len()
            invariant
                i <= a.memory@.len(),
                a.memory@.len() == b.memory@.len(),
                a.flip@ == b.flip@,
                forall|k: int| 0 <= k < i ==> (#[trigger] a.memory@[k])@ == b.memory@[k]@,
            decreases a.memory@.len() - i,
        {
            if !bits_equal(&a.memory[i], &b.memory[i]) {
                assert(a@.memory[i as int] != b@.memory[i as int]);
                return false;
            }
            i += 1;
        }
        assert(a@.memory =~= b@.memory);
        true
    }

    fn duplicate(&self, s: &Machine) -> (t: Machine) {
        let flip = copy_bits(&s.flip);
        let mut memory: Vec<Vec<bool>> = Vec::new();
        let mut i: usize = 0;
        while i < s.memory.len()
            invariant
                i <= s.memory@.len(),
                memory@.len() == i,
                forall|k: int| 0 <= k < i ==> (#[trigger] memory@[k])@ == s.memory@[k]@,
            decreases s.memory@.len() - i,
        {
            memory.push(copy_bits(&s.memory[i]));
            i += 1;
        }
        let t = Machine { flip, memory };
        assert(t@.memory =~= s@.memory);
        t
    }
}

/// The arrow between a module and its targets.
pub open spec fn arrow() -> Seq<u8> {
    seq![32u8, 45u8, 62u8, 32u8]
}

/// The comma and space between two targets.
pub open spec fn comma_space() -> Seq<u8> {
    seq![44u8, 32u8]
}

/// The name of the module that the button sends to.
pub open spec fn broadcaster_name() -> Seq<u8> {
    seq![98u8, 114u8, 111u8, 97u8, 100u8, 99u8, 97u8, 115u8, 116u8, 101u8, 114u8]
}

/// The parts of `s` that end at an occurrence of `sep` or at the end of
/// `s`; nothing follows a separator at the very end.
pub open spec fn terms_of(s: Seq<u8>, sep: Seq<u8>) -> Seq<Seq<u8>> {
    let p = parts_of(s, sep);
    if p.len() > 0 && p.last().len() == 0 {
        p.drop_last()
    } else {
        p
    }
}

/// The kind that the first byte of `head` gives a module: `%` a
/// flip-flop, `&` a conjunction.
pub open spec fn kind_of(head: Seq<u8>) -> u8 {
    if head.len() > 0 && head[0] == 37 {
        FLIP_FLOP
    } else if head.len() > 0 && head[0] == 38 {
        CONJUNCTION
    } else {
        PASS_THROUGH
    }
}

/// The name that `head` gives a module: all of it, but for the byte that
/// gives the kind.
pub open spec fn name_of(head: Seq<u8>) -> Seq<u8> {
    if kind_of(head) == PASS_THROUGH {
        head
    } else {
        head.subrange(1, head.len() as int)
    }
}

/// The modules that send to module `i`, among the first `upto`, in
/// ascending order.
pub open spec fn hears(targets: Seq<Seq<Option<usize>>>, i: usize, upto: int) -> Seq<usize>
    decreases upto,
{
    if upto <= 0 {
        Seq::empty()
    } else if targets[upto - 1].contains(Some(i)) {
        hears(targets, i, upto - 1).push((upto - 1) as usize)
    } else {
        hears(targets, i, upto - 1)
    }
}

/// The module that `name` resolves to among `names`: the last of that
/// name.
pub open spec fn resolved(names: Seq<Seq<u8>>, name: Seq<u8>) -> Option<usize> {
    if lookup(names, name, names.len() as int) >= 0 {
        Some(lookup(names, name, names.len() as int) as usize)
    } else {
        None
    }
}

/// The network that `lines` write, one module to a line;
/// nothing where a line has no arrow or no module is the broadcaster.
pub open spec fn net_of(lines: Seq<Seq<u8>>) -> Option<Net> {
    if (forall|i: int| 0 <= i < lines.len() ==> (#[trigger] split_once_of(lines[i], arrow())) is Some) {
        let names = Seq::new(lines.len(), |i: int| name_of(split_once_of(lines[i], arrow())->Some_0.0));
        let targets = Seq::new(
            lines.len(),
            |i: int|
                {
                    let terms = terms_of(split_once_of(lines[i], arrow())->Some_0.1, comma_space());
                    Seq::new(terms.len(), |k: int| resolved(names, terms[k]))
                },
        );
        if lookup(names, broadcaster_name(), names.len() as int) >= 0 {
            Some(
                Net {
                    kinds: Seq::new(
                        lines.len(),
                        |i: int| kind_of(split_once_of(lines[i], arrow())->Some_0.0),
                    ),
                    targets,
                    sources: Seq::new(lines.len(), |i: int| hears(targets, i as usize, lines.len() as int)),
                    broadcaster: lookup(names, broadcaster_name(), names.len() as int),
                },
            )
        } else {
            None
        }
    } else {
        None
    }
}

/// What a lookup among the first `upto` names finds lies among them.
pub proof fn lemma_lookup_bound(names: Seq<Seq<u8>>, name: Seq<u8>, upto: int)
    requires
        0 <= upto,
    ensures
        -1 <= lookup(names, name, upto) < upto,
    decreases upto,
{
    if upto > 0 && names[upto - 1] != name {
        lemma_lookup_bound(names, name, upto - 1);
    }
}

/// The last of `names` that equals `name`.
pub fn resolve(names: &Vec<Vec<u8>>, name: &Vec<u8>) -> (r: Option<usize>)
    ensures
        r == resolved(names.deep_view(), name@),
        r is Some ==> r->Some_0 < names@.len(),
{
    let ghost model = names.deep_view();
    let mut i: usize = names.len();
    while i > 0
        invariant
            i <= names@.len(),
            model == names.deep_view(),
            lookup(model, name@, model.len() as int) == lookup(model, name@, i as int),
        decreases i,
    {
        assert(model[i - 1] =~= names@[i - 1]@);
        if crate::text::lines_equal(&names[i - 1], name) {
            return Some(i - 1);
        }
        i -= 1;
    }
    None
}

/// Whether `list` holds `Some(i)`.
pub fn sends_to(list: &Vec<Option<usize>>, i: usize) -> (r: bool)
    ensures
        r == list@.contains(Some(i)),
{
    let mut k: usize = 0;
    while k < list.len()
        invariant
            k <= list@.len(),
            forall|j: int| 0 <= j < k ==> list@[j] != Some(i),
        decreases list@.len() - k,
    {
        if list[k] == Some(i) {
            return true;
        }
        k += 1;
    }
    false
}

/// The network that `bytes` write, line by line.
pub fn parse(bytes: &[u8]) -> (r: Option<Network>)
    ensures
        match net_of(lines_of(bytes@)) {
            Some(net) => r is Some && r->Some_0@ == net && net_ok(net),
            None => r is None,
        },
{
    let lines = split_lines(bytes);
    let ghost model = lines.deep_view();
    let n = lines.len();
    let arrow_bytes: [u8; 4] = [32, 45, 62, 32];
    let comma_bytes: [u8; 2] = [44, 32];
    assert(arrow_bytes@ =~= arrow());
    assert(comma_bytes@ =~= comma_space());
    let mut kinds: Vec<u8> = Vec::new();
    let mut names: Vec<Vec<u8>> = Vec::new();
    let mut wanted: Vec<Vec<Vec<u8>>> = Vec::new();
    let mut i: usize = 0;
    while i < n
        invariant
            i <= n,
            n == lines@.len(),
            model == lines.deep_view(),
            model == lines_of(bytes@),
            arrow_bytes@ == arrow(),
            comma_bytes@ == comma_space(),
            kinds@.len() == i,
            names@.len() == i,
            wanted@.len() == i,
            forall|j: int| 0 <= j < i ==> (#[trigger] split_once_of(model[j], arrow())) is Some,
            forall|j: int|
                0 <= j < i ==> #[trigger] kinds@[j] == kind_of(split_once_of(model[j], arrow())->Some_0.0),
            forall|j: int|
                0 <= j < i ==> (#[trigger] names@[j])@ == name_of(
                    split_once_of(model[j], arrow())->Some_0.0,
                ),
            forall|j: int|
                0 <= j < i ==> (#[trigger] wanted@[j]).deep_view() == terms_of(
                    split_once_of(model[j], arrow())->Some_0.1,
                    comma_space(),
                ),
        decreases n - i,
    {
        assert(model[i as int] =~= lines@[i as int]@);
        let (head, dests) = match split_once(lines[i].as_slice(), arrow_bytes.as_slice()) {
            Some(p) => p,
            None => {
                assert(split_once_of(model[i as int], arrow()) is None);
                return None;
            },
        };
        let kind: u8 = if head.len() > 0 && head[0] == 37 {
            FLIP_FLOP
        } else if head.len() > 0 && head[0] == 38 {
            CONJUNCTION
        } else {
            PASS_THROUGH
        };
        let name = if kind == PASS_THROUGH {
            crate::text::copy_line(&head)
        } else {
            crate::day08::cut(&head, 1, head.len())
        };
        let mut terms = split_by(dests.as_slice(), comma_bytes.as_slice());
        let ghost all_parts = terms.deep_view();
        let last = terms.len() - 1;
        assert(all_parts[last as int] =~= terms@[last as int]@);
        if terms[last].len() == 0 {
            let ghost before = terms;
            terms.pop();
            assert(terms.deep_view() =~= all_parts.drop_last()) by {
                assert forall|k: int| 0 <= k < terms@.len() implies terms.deep_view()[k]
                    == all_parts.drop_last()[k] by {
                    assert(terms@[k] == before@[k]);
                }
            }
        }
        kinds.push(kind);
        names.push(name);
        wanted.push(terms);
        i += 1;
    }
    let ghost name_model = names.deep_view();
    proof {
        assert(name_model =~= Seq::new(
            model.len(),
            |j: int| name_of(split_once_of(model[j], arrow())->Some_0.0),
        )) by {
            assert forall|j: int| 0 <= j < name_model.len() implies name_model[j] == name_of(
                split_once_of(model[j], arrow())->Some_0.0,
            ) by {
                assert(name_model[j] =~= names@[j]@);
            }
        }
    }
    let mut targets: Vec<Vec<Option<usize>>> = Vec::new();
    let mut i: usize = 0;
    while i < n
        invariant
            i <= n,
            n == lines@.len(),
            n == names@.len(),
            n == wanted@.len(),
            name_model == names.deep_view(),
            targets@.len() == i,
            forall|j: int, k: int|
                0 <= j < i && 0 <= k < targets@[j]@.len() ==> match #[trigger] targets@[j]@[k] {
                    Some(t) => t < n,
                    None => true,
                },
            forall|j: int|
                0 <= j < i ==> (#[trigger] targets@[j])@ == Seq::new(
                    wanted@[j].deep_view().len(),
                    |k: int| resolved(name_model, wanted@[j].deep_view()[k]),
                ),
        decreases n - i,
    {
        let list = &wanted[i];
        let ghost terms = list.deep_view();
        let mut row: Vec<Option<usize>> = Vec::new();
        let mut k: usize = 0;
        while k < list.len()
            invariant
                k <= list@.len(),
                terms == list.deep_view(),
                name_model == names.deep_view(),
                n == names@.len(),
                row@.len() == k,
                forall|j: int| 0 <= j < k ==> #[trigger] row@[j] == resolved(name_model, terms[j]),
                forall|j: int|
                    0 <= j < k ==> match #[trigger] row@[j] {
                        Some(t) => t < n,
                        None => true,
                    },
            decreases list@.len() - k,
        {
            assert(terms[k as int] =~= list@[k as int]@);
            row.push(resolve(&names, &list[k]));
            k += 1;
        }
        assert(row@ =~= Seq::new(terms.len(), |k: int| resolved(name_model, terms[k])));
        targets.push(row);
        i += 1;
    }
    let ghost target_model = Seq::new(targets@.len(), |j: int| targets@[j]@);
    let mut sources: Vec<Vec<usize>> = Vec::new();
    let mut i: usize = 0;
    while i < n
        invariant
            i <= n,
            n == targets@.len(),
            target_model == Seq::new(targets@.len(), |j: int| targets@[j]@),
            sources@.len() == i,
            forall|j: int| 0 <= j < i ==> (#[trigger] sources@[j])@ == hears(target_model, j as usize, n as int),
            forall|j: int, k: int|
                0 <= j < i && 0 <= k < sources@[j]@.len() ==> (#[trigger] sources@[j]@[k]) < n,
        decreases n - i,
    {
        let mut row: Vec<usize> = Vec::new();
        let mut j: usize = 0;
        while j < n
            invariant
                j <= n,
                n == targets@.len(),
                target_model == Seq::new(targets@.len(), |j: int| targets@[j]@),
                row@ == hears(target_model, i, j as int),
                forall|k: int| 0 <= k < row@.len() ==> (#[trigger] row@[k]) < n,
            decreases n - j,
        {
            assert(target_model[j as int] == targets@[j as int]@);
            if sends_to(&targets[j], i) {
                row.push(j);
            }
            j += 1;
        }
        sources.push(row);
        i += 1;
    }
    let mut base: Vec<u8> = Vec::new();
    let text: [u8; 11] = [98, 114, 111, 97, 100, 99, 97, 115, 116, 101, 114];
    let mut k: usize = 0;
    while k < 11
        invariant
            k <= 11,
            base@ == text@.subrange(0, k as int),
        decreases 11 - k,
    {
        base.push(text[k]);
        assert(base@ =~= text@.subrange(0, k + 1));
        k += 1;
    }
    assert(base@ =~= broadcaster_name());
    let broadcaster = match resolve(&names, &base) {
        Some(b) => b,
        None => {
            return None;
        },
    };
    let net = Network { kinds, targets, sources, broadcaster };
    proof {
        assert(net_of(model) is Some);
        let want = net_of(model)->Some_0;
        assert(net@.targets.len() == n);
        assert(net@.sources.len() == n);
        assert(net@.kinds =~= want.kinds);
        assert(net@.targets =~= want.targets) by {
            assert forall|j: int| 0 <= j < net@.targets.len() implies net@.targets[j]
                == want.targets[j] by {
                assert(wanted@[j].deep_view() == terms_of(
                    split_once_of(model[j], arrow())->Some_0.1,
                    comma_space(),
                ));
            }
        }
        assert(net@.sources =~= want.sources) by {
            assert(target_model =~= want.targets);
            assert forall|j: int| 0 <= j < net@.sources.len() implies net@.sources[j]
                == want.sources[j] by {
                assert(sources@[j]@ == hears(target_model, j as usize, n as int));
            }
        }
        lemma_lookup_bound(name_model, broadcaster_name(), name_model.len() as int);
        assert(broadcaster == lookup(name_model, broadcaster_name(), name_model.len() as int));
        assert(name_model == Seq::new(
            model.len(),
            |j: int| name_of(split_once_of(model[j], arrow())->Some_0.0),
        ));
        assert(net@.broadcaster == want.broadcaster);
        assert(net@ == want);
        assert(net_ok(net@)) by {
            assert forall|a: int, b: int|
                0 <= a < net@.targets.len() && 0 <= b < net@.targets[a].len() implies match #[trigger] net@.targets[a][b] {
                Some(t) => t < net@.kinds.len(),
                None => true,
            } by {
                assert(net@.targets[a][b] == targets@[a]@[b]);
            }
            assert forall|a: int, b: int|
                0 <= a < net@.sources.len() && 0 <= b < net@.sources[a].len() implies (
            #[trigger] net@.sources[a][b]) < net@.kinds.len() by {
                assert(net@.sources[a][b] == sources@[a]@[b]);
            }
        }
    }
    Some(net)
}

/// The number of low pulses times the number of high pulses after a
/// thousand presses of the button on the network written in `input`.
pub fn part_one(input: &str) -> (r: Option<u64>)
    ensures
        match net_of(lines_of(input.spec_bytes())) {
            Some(net) => match counted(net, at_rest(net), 1000, 0, 0, PULSE_BUDGET as nat) {
                Some((lows, highs)) => r == if lows * highs <= u64::MAX {
                    Some((lows * highs) as u64)
                } else {
                    None
                },
                None => r is None,
            },
            None => r is None,
        },
{
    match parse(input.as_bytes()) {
        Some(net) => count_pulses(&net, 1000, PULSE_BUDGET as u32),
        None => None,
    }
}

/// The names of the modules that `lines` write.
pub open spec fn names_of(lines: Seq<Seq<u8>>) -> Seq<Seq<u8>> {
    Seq::new(
        lines.len(),
        |i: int|
            match split_once_of(lines[i], arrow()) {
                Some((head, _)) => name_of(head),
                None => name_of(lines[i]),
            },
    )
}

/// The names of the modules that `bytes` write, line by line.
pub fn module_names(bytes: &[u8]) -> (r: Vec<Vec<u8>>)
    ensures
        r.deep_view() == names_of(lines_of(bytes@)),
{
    let lines = split_lines(bytes);
    let ghost model = lines.deep_view();
    let n = lines.len();
    let arrow_bytes: [u8; 4] = [32, 45, 62, 32];
    assert(arrow_bytes@ =~= arrow());
    let mut names: Vec<Vec<u8>> = Vec::new();
    let mut i: usize = 0;
    while i < n
        invariant
            i <= n,
            n == lines@.len(),
            model == lines.deep_view(),
            arrow_bytes@ == arrow(),
            names@.len() == i,
            forall|j: int| 0 <= j < i ==> (#[trigger] names@[j])@ == names_of(model)[j],
        decreases n - i,
    {
        assert(model[i as int] =~= lines@[i as int]@);
        let head = match split_once(lines[i].as_slice(), arrow_bytes.as_slice()) {
            Some((head, _)) => head,
            None => crate::text::copy_line(&lines[i]),
        };
        let name = if head.len() > 0 && (head[0] == 37 || head[0] == 38) {
            crate::day08::cut(&head, 1, head.len())
        } else {
            head
        };
        names.push(name);
        i += 1;
    }
    assert(names.deep_view() =~= names_of(model)) by {
        assert forall|j: int| 0 <= j < names@.len() implies names.deep_view()[j] == names_of(
            model,
        )[j] by {
            assert(names.deep_view()[j] =~= names@[j]@);
        }
    }
    names
}

/// The number of the first press during which the module named `name`
/// sends a high pulse, on the network written in `input`. The text must
/// write a network with a module of that name; the search gives up
/// after `max_presses` presses.
pub fn watch(input: &[u8], name: &Vec<u8>, max_presses: u64, budget: u32) -> (r: Result<
    u64,
    SearchError,
>)
    ensures
        match (net_of(lines_of(input@)), resolved(names_of(lines_of(input@)), name@)) {
            (Some(net), Some(watched)) => match r {
                Ok(k) => 1 <= k <= max_presses && fires_at(net, watched as int, k as nat, budget as nat)
                    && forall|j: nat| 1 <= j < k ==> !#[trigger] fires_at(
                    net,
                    watched as int,
                    j,
                    budget as nat,
                ),
                Err(e) => e == SearchError::NonTerminatingSimulation && forall|j: nat|
                    1 <= j <= max_presses ==> !#[trigger] fires_at(
                        net,
                        watched as int,
                        j,
                        budget as nat,
                    ),
            },
            _ => r == Err::<u64, SearchError>(SearchError::MalformedInput),
        },
{
    let net = match parse(input) {
        Some(net) => net,
        None => {
            return Err(SearchError::MalformedInput);
        },
    };
    let names = module_names(input);
    match resolve(&names, name) {
        Some(watched) => {
            assert(names@.len() == lines_of(input@).len());
            presses_until_high(&net, watched, max_presses, budget)
        },
        None => Err(SearchError::MalformedInput),
    }
}

} // verus!
