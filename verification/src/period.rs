//! Fast-forwarding a simulation that eventually repeats: find a state
//! that was seen before, then read the far future out of the cycle.

use crate::grid::SearchError;
use std::collections::HashMap;
use vstd::arithmetic::div_mod::{lemma_mod_bound, lemma_mod_sub_multiples_vanish, lemma_small_mod};
use vstd::prelude::*;

verus! {

broadcast use vstd::std_specs::hash::group_hash_axioms;

/// A deterministic system that moves from state to state.
pub trait Simulation {
    /// What the system looks like at one moment.
    type State: View;

    /// Which states the system can take a step from.
    spec fn valid(&self, s: <Self::State as View>::V) -> bool;

    /// The state that follows `s`.
    spec fn step_of(&self, s: <Self::State as View>::V) -> <Self::State as View>::V;

    /// A number that equal states share.
    spec fn fingerprint_of(&self, s: <Self::State as View>::V) -> u64;

    /// A step leads from a valid state to a valid state.
    proof fn lemma_step_valid(&self, s: <Self::State as View>::V)
        requires
            self.valid(s),
        ensures
            self.valid(self.step_of(s)),
    ;

    /// Takes one step.
    fn step(&self, s: &Self::State) -> (t: Self::State)
        requires
            self.valid(s@),
        ensures
            t@ == self.step_of(s@),
    ;

    /// The fingerprint of `s`.
    fn fingerprint(&self, s: &Self::State) -> (k: u64)
        requires
            self.valid(s@),
        ensures
            k == self.fingerprint_of(s@),
    ;

    /// Whether `a` and `b` are the same state.
    fn same(&self, a: &Self::State, b: &Self::State) -> (r: bool)
        ensures
            r == (a@ == b@),
    ;

    /// A copy of `s`.
    fn duplicate(&self, s: &Self::State) -> (t: Self::State)
        ensures
            t@ == s@,
    ;
}

/// The state reached from `init` after `n` steps.
pub open spec fn state_after<S: Simulation>(
    sim: &S,
    init: <S::State as View>::V,
    n: nat,
) -> <S::State as View>::V
    decreases n,
{
    if n == 0 {
        init
    } else {
        sim.step_of(state_after(sim, init, (n - 1) as nat))
    }
}

/// Step `r` is the first whose state has fingerprint `fp`.
pub open spec fn first_with<S: Simulation>(
    sim: &S,
    init: <S::State as View>::V,
    fp: u64,
    r: int,
) -> bool {
    &&& 0 <= r
    &&& sim.fingerprint_of(state_after(sim, init, r as nat)) == fp
    &&& forall|k: int|
        0 <= k < r ==> sim.fingerprint_of(#[trigger] state_after(sim, init, k as nat)) != fp
}

/// The state after `j` steps equals the first earlier state that shares
/// its fingerprint: a repetition that the detector recognises.
pub open spec fn repeats_at<S: Simulation>(sim: &S, init: <S::State as View>::V, j: int) -> bool {
    exists|r: int|
        0 <= r < j && #[trigger] first_with(
            sim,
            init,
            sim.fingerprint_of(state_after(sim, init, j as nat)),
            r,
        ) && state_after(sim, init, r as nat) == state_after(sim, init, j as nat)
}

/// Every state reached from a valid state is valid.
pub proof fn lemma_states_valid<S: Simulation>(sim: &S, init: <S::State as View>::V, n: nat)
    requires
        sim.valid(init),
    ensures
        sim.valid(state_after(sim, init, n)),
    decreases n,
{
    if n > 0 {
        lemma_states_valid(sim, init, (n - 1) as nat);
        sim.lemma_step_valid(state_after(sim, init, (n - 1) as nat));
    }
}

/// Equal states stay equal, step for step.
pub proof fn lemma_in_step<S: Simulation>(
    sim: &S,
    init: <S::State as View>::V,
    a: nat,
    b: nat,
    k: nat,
)
    requires
        state_after(sim, init, a) == state_after(sim, init, b),
    ensures
        state_after(sim, init, a + k) == state_after(sim, init, b + k),
    decreases k,
{
    if k > 0 {
        lemma_in_step(sim, init, a, b, (k - 1) as nat);
        assert(state_after(sim, init, a + k) == sim.step_of(
            state_after(sim, init, (a + k - 1) as nat),
        ));
        assert(state_after(sim, init, b + k) == sim.step_of(
            state_after(sim, init, (b + k - 1) as nat),
        ));
    }
}

/// Once the state after `r` steps recurs after `r + p` steps, the state
/// after any `n >= r` steps is found within the first cycle.
pub proof fn lemma_projection<S: Simulation>(
    sim: &S,
    init: <S::State as View>::V,
    r: nat,
    p: nat,
    n: nat,
)
    requires
        p > 0,
        n >= r,
        state_after(sim, init, r) == state_after(sim, init, r + p),
    ensures
        0 <= (n - r) % (p as int) < p,
        state_after(sim, init, n) == state_after(sim, init, (r + (n - r) % (p as int)) as nat),
    decreases n,
{
    lemma_mod_bound(n - r, p as int);
    if n - r < p {
        lemma_small_mod((n - r) as nat, p);
    } else {
        let m = (n - p) as nat;
        lemma_projection(sim, init, r, p, m);
        lemma_in_step(sim, init, r, r + p, (m - r) as nat);
        assert(r + (m - r) == m);
        assert(r + p + (m - r) == n);
        lemma_mod_sub_multiples_vanish(n - r, p as int);
        assert((m - r) == -(p as int) + (n - r));
    }
}

/// At most one step is the first with a given fingerprint.
pub proof fn lemma_first_unique<S: Simulation>(
    sim: &S,
    init: <S::State as View>::V,
    fp: u64,
    a: int,
    b: int,
)
    requires
        first_with(sim, init, fp, a),
        first_with(sim, init, fp, b),
    ensures
        a == b,
{
    if a < b {
        assert(sim.fingerprint_of(state_after(sim, init, a as nat)) != fp);
    }
    if b < a {
        assert(sim.fingerprint_of(state_after(sim, init, b as nat)) != fp);
    }
}

/// Among the first `n + 1` states, equal fingerprints mean equal states.
pub open spec fn collision_free<S: Simulation>(
    sim: &S,
    init: <S::State as View>::V,
    n: int,
) -> bool {
    forall|a: int, b: int|
        0 <= a <= n && 0 <= b <= n && sim.fingerprint_of(#[trigger] state_after(sim, init, a as nat))
            == sim.fingerprint_of(#[trigger] state_after(sim, init, b as nat)) ==> state_after(
            sim,
            init,
            a as nat,
        ) == state_after(sim, init, b as nat)
}

/// Some step up to `upto` is the first with fingerprint `fp`, if any step
/// up to `upto` has it.
pub proof fn lemma_first_exists<S: Simulation>(
    sim: &S,
    init: <S::State as View>::V,
    fp: u64,
    upto: int,
) -> (r: int)
    requires
        0 <= upto,
        sim.fingerprint_of(state_after(sim, init, upto as nat)) == fp,
    ensures
        0 <= r <= upto,
        first_with(sim, init, fp, r),
    decreases upto,
{
    if exists|k: int|
        0 <= k < upto && sim.fingerprint_of(#[trigger] state_after(sim, init, k as nat)) == fp {
        let k = choose|k: int|
            0 <= k < upto && sim.fingerprint_of(#[trigger] state_after(sim, init, k as nat)) == fp;
        lemma_first_exists(sim, init, fp, k)
    } else {
        upto
    }
}

/// What the detector may answer when asked for the state after
/// `target` steps with a budget of `max_steps`: that state, where the
/// target lies within the budget or a repetition shows within it; else
/// that it gives up.
pub open spec fn projection<S: Simulation>(
    sim: &S,
    init: <S::State as View>::V,
    target: nat,
    max_steps: nat,
    r: Result<<S::State as View>::V, SearchError>,
) -> bool {
    match r {
        Ok(s) => s == state_after(sim, init, target) && (target <= max_steps || exists|j: int|
            0 <= j <= max_steps && #[trigger] repeats_at(sim, init, j)),
        Err(e) => e == SearchError::NonTerminatingSimulation && target > max_steps && forall|j: int|
            0 <= j <= max_steps ==> !#[trigger] repeats_at(sim, init, j),
    }
}

/// A simulation that returns, after `offset + period` steps, to the state
/// it had after `offset` steps shows the detector a repetition within
/// `offset + period` steps, provided no two different states among those
/// share a fingerprint. So with a budget of at least `offset + period`
/// steps [`detect_period_and_project`] does not give up, and what it
/// returns is, for every target, the state that stepping would reach.
pub proof fn lemma_period_found<S: Simulation>(
    sim: &S,
    init: <S::State as View>::V,
    offset: nat,
    period: nat,
    max_steps: nat,
)
    requires
        period > 0,
        state_after(sim, init, offset) == state_after(sim, init, offset + period),
        offset + period <= max_steps,
        collision_free(sim, init, (offset + period) as int),
    ensures
        exists|j: int| 0 <= j <= max_steps && #[trigger] repeats_at(sim, init, j),
{
    let j = (offset + period) as int;
    let fp = sim.fingerprint_of(state_after(sim, init, j as nat));
    let r = lemma_first_exists(sim, init, fp, offset as int);
    assert(first_with(sim, init, fp, r));
    assert(state_after(sim, init, r as nat) == state_after(sim, init, j as nat));
    assert(repeats_at(sim, init, j));
}

/// For a simulation that returns, after `offset + period` steps, to the
/// state it had after `offset` steps, the detector with a budget of at
/// least `offset + period` steps answers, for every target, with the
/// state that stepping would reach, provided no two different states
/// among the first `offset + period + 1` share a fingerprint.
pub proof fn lemma_period_correct<S: Simulation>(
    sim: &S,
    init: <S::State as View>::V,
    offset: nat,
    period: nat,
    target: nat,
    max_steps: nat,
    r: Result<<S::State as View>::V, SearchError>,
)
    requires
        period > 0,
        state_after(sim, init, offset) == state_after(sim, init, offset + period),
        offset + period <= max_steps,
        collision_free(sim, init, (offset + period) as int),
        projection(sim, init, target, max_steps, r),
    ensures
        r == Ok::<<S::State as View>::V, SearchError>(state_after(sim, init, target)),
{
    lemma_period_found(sim, init, offset, period, max_steps);
}

/// The state of `sim` after `target` steps from `init`.
///
/// The detector steps through the simulation and files each state's
/// fingerprint under the step that first showed it. When the state after
/// `S` steps equals the state filed at step `R`, the cycle has length
/// `S - R`, and the answer is the state kept for step
/// `R + (target - R) mod (S - R)`. Where `target` lies beyond `max_steps`
/// and no state recurs within `max_steps` steps, the detector gives up.
pub fn detect_period_and_project<S: Simulation>(
    sim: &S,
    init: S::State,
    target: usize,
    max_steps: usize,
) -> (r: Result<S::State, SearchError>)
    requires
        sim.valid(init@),
    ensures
        projection(
            sim,
            init@,
            target as nat,
            max_steps as nat,
            match r {
                Ok(s) => Ok(s@),
                Err(e) => Err(e),
            },
        ),
{
    let ghost init0 = init@;
    let mut history: Vec<S::State> = Vec::new();
    let mut seen: HashMap<u64, usize> = HashMap::new();
    let mut cur = init;
    let mut i: usize = 0;
    loop
        invariant
            init0 == init@,
            sim.valid(init0),
            sim.valid(cur@),
            cur@ == state_after(sim, init0, i as nat),
            i <= max_steps,
            i <= target,
            history@.len() == i,
            forall|k: int|
                0 <= k < i ==> (#[trigger] history@[k])@ == state_after(sim, init0, k as nat),
            forall|fp: u64| #[trigger]
                seen@.contains_key(fp) ==> seen@[fp] < i && first_with(
                    sim,
                    init0,
                    fp,
                    seen@[fp] as int,
                ),
            forall|k: int|
                0 <= k < i ==> seen@.contains_key(
                    sim.fingerprint_of(#[trigger] state_after(sim, init0, k as nat)),
                ),
            forall|j: int| 0 <= j < i ==> !#[trigger] repeats_at(sim, init0, j),
        decreases max_steps - i,
    {
        if i == target {
            return Ok(cur);
        }
        let fp = sim.fingerprint(&cur);
        let earlier = match seen.get(&fp) {
            Some(r) => Some(*r),
            None => None,
        };
        match earlier {
            Some(r) => {
                if sim.same(&history[r], &cur) {
                    let period = i - r;
                    let idx = r + (target - r) % period;
                    proof {
                        assert(seen@.contains_key(fp) && seen@[fp] == r);
                        assert(r < i);
                        assert(history@[r as int]@ == state_after(sim, init0, r as nat));
                        assert(state_after(sim, init0, r as nat) == state_after(
                            sim,
                            init0,
                            (r + period) as nat,
                        ));
                        lemma_projection(sim, init0, r as nat, period as nat, target as nat);
                        assert(first_with(
                            sim,
                            init0,
                            sim.fingerprint_of(state_after(sim, init0, i as nat)),
                            r as int,
                        ));
                        assert(repeats_at(sim, init0, i as int));
                    }
                    return Ok(sim.duplicate(&history[idx]));
                }
                proof {
                    assert(!repeats_at(sim, init0, i as int)) by {
                        if repeats_at(sim, init0, i as int) {
                            let r2 = choose|r2: int|
                                0 <= r2 < i && #[trigger] first_with(sim, init0, fp, r2)
                                    && state_after(sim, init0, r2 as nat) == state_after(
                                    sim,
                                    init0,
                                    i as nat,
                                );
                            lemma_first_unique(sim, init0, fp, r as int, r2);
                        }
                    }
                }
            },
            None => {
                seen.insert(fp, i);
                proof {
                    assert(first_with(sim, init0, fp, i as int));
                    assert(!repeats_at(sim, init0, i as int)) by {
                        if repeats_at(sim, init0, i as int) {
                            let r2 = choose|r2: int|
                                0 <= r2 < i && #[trigger] first_with(sim, init0, fp, r2)
                                    && state_after(sim, init0, r2 as nat) == state_after(
                                    sim,
                                    init0,
                                    i as nat,
                                );
                            assert(sim.fingerprint_of(state_after(sim, init0, r2 as nat)) == fp);
                        }
                    }
                }
            },
        }
        if i == max_steps {
            return Err(SearchError::NonTerminatingSimulation);
        }
        let kept = sim.duplicate(&cur);
        history.push(kept);
        let next = sim.step(&cur);
        proof {
            sim.lemma_step_valid(cur@);
        }
        cur = next;
        i += 1;
    }
}

} // verus!
