//! Pairs of the items of a list, formed by the `itertools` crate.

use itertools::Itertools;
use vstd::prelude::*;

verus! {

/// Each item of `s` with the one after it; the last with the first.
pub open spec fn ring_pairs<T>(s: Seq<T>) -> Seq<(T, T)> {
    Seq::new(s.len(), |i: int| (s[i], s[(i + 1) % (s.len() as int)]))
}

/// Each item of `s` but the last with the one after it.
pub open spec fn chain_pairs<T>(s: Seq<T>) -> Seq<(T, T)> {
    Seq::new(
        if s.len() == 0 {
            0
        } else {
            (s.len() - 1) as nat
        },
        |i: int| (s[i], s[i + 1]),
    )
}

/// Item `i` of `s` with each of the first `upto` items after it.
pub open spec fn pairs_with<T>(s: Seq<T>, i: int, upto: int) -> Seq<(T, T)>
    decreases upto,
{
    if upto <= 0 {
        Seq::empty()
    } else {
        pairs_with(s, i, upto - 1).push((s[i], s[i + upto]))
    }
}

/// Every pair of two items of `s` of which the first stands at one of
/// the first `upto` places and before the second, ordered by the place of
/// the first item and then of the second.
pub open spec fn pairs_upto<T>(s: Seq<T>, upto: int) -> Seq<(T, T)>
    decreases upto,
{
    if upto <= 0 {
        Seq::empty()
    } else {
        pairs_upto(s, upto - 1) + pairs_with(s, upto - 1, s.len() - upto)
    }
}

/// Every pair of two items of `s` of which the first stands before the
/// second.
pub open spec fn all_pairs<T>(s: Seq<T>) -> Seq<(T, T)> {
    pairs_upto(s, s.len() as int)
}

/// What `Itertools::circular_tuple_windows` yields for pairs: as many
/// windows as items, each item with its successor, the last item with
/// the first.
#[verifier::external_body]
pub(crate) fn circular_pairs<T: Copy>(v: &Vec<T>) -> (r: Vec<(T, T)>)
    ensures
        r@ == ring_pairs(v@),
{
    v.iter().copied().circular_tuple_windows().collect()
}

/// What `Itertools::tuple_windows` yields for pairs: each item but the
/// last with its successor.
#[verifier::external_body]
pub(crate) fn window_pairs<T: Copy>(v: &Vec<T>) -> (r: Vec<(T, T)>)
    ensures
        r@ == chain_pairs(v@),
{
    v.iter().copied().tuple_windows().collect()
}

/// What `Itertools::tuple_combinations` yields for pairs: every pair of
/// an earlier and a later item, ordered by the place of the earlier item
/// and then of the later.
#[verifier::external_body]
pub(crate) fn combination_pairs<T: Copy>(v: &Vec<T>) -> (r: Vec<(T, T)>)
    ensures
        r@ == all_pairs(v@),
{
    v.iter().copied().tuple_combinations().collect()
}

} // verus!
