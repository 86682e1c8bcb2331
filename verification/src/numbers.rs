//! Least common multiples, taken from the `num-integer` crate.

use vstd::prelude::*;

verus! {

/// `m` is a positive multiple of both `a` and `b`.
pub open spec fn common_multiple(a: nat, b: nat, m: nat) -> bool {
    m > 0 && a > 0 && b > 0 && m % a == 0 && m % b == 0
}

/// `m` is the least common multiple of `a` and `b`: the least positive
/// number that both divide, and zero where either is zero.
pub open spec fn is_lcm(a: nat, b: nat, m: nat) -> bool {
    if a == 0 || b == 0 {
        m == 0
    } else {
        common_multiple(a, b, m) && forall|k: nat| 0 < k < m ==> !#[trigger] common_multiple(a, b, k)
    }
}

/// The least common multiple of `a` and `b`.
pub open spec fn lcm_of(a: nat, b: nat) -> nat {
    choose|m: nat| is_lcm(a, b, m)
}

/// Two numbers have one least common multiple.
pub proof fn lemma_lcm_unique(a: nat, b: nat, m: nat)
    requires
        is_lcm(a, b, m),
    ensures
        lcm_of(a, b) == m,
{
    let c = lcm_of(a, b);
    assert(is_lcm(a, b, c));
    if a != 0 && b != 0 {
        if c < m {
            assert(!common_multiple(a, b, c));
        }
        if m < c {
            assert(!common_multiple(a, b, m));
        }
    }
}

/// The least common multiple of `a` and `b`, as `num_integer::lcm`
/// computes it. The crate multiplies `a` by `b` divided by their greatest
/// common divisor; the product of `a` and `b` bounds that, so it is asked
/// to fit.
#[verifier::external_body]
pub(crate) fn lcm(a: u64, b: u64) -> (m: u64)
    requires
        a * b <= u64::MAX,
    ensures
        is_lcm(a as nat, b as nat, m as nat),
{
    num_integer::lcm(a, b)
}

/// The least common multiple of `a` and `b`, or `None` where their
/// product does not fit 64 bits.
pub fn lcm_checked(a: u64, b: u64) -> (r: Option<u64>)
    ensures
        match r {
            Some(m) => a * b <= u64::MAX && m == lcm_of(a as nat, b as nat) && is_lcm(
                a as nat,
                b as nat,
                m as nat,
            ),
            None => a * b > u64::MAX,
        },
{
    match a.checked_mul(b) {
        Some(_) => {
            let m = lcm(a, b);
            proof {
                lemma_lcm_unique(a as nat, b as nat, m as nat);
            }
            Some(m)
        },
        None => None,
    }
}

} // verus!
