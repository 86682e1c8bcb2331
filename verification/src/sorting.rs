//! Sorting and run-length counting, done by the `itertools` crate.

use itertools::Itertools;
use vstd::prelude::*;
use vstd::relations::{sorted_by, total_ordering};
use vstd::seq_lib::lemma_sorted_unique;

verus! {

/// The order of numbers by size.
pub open spec fn by_size() -> spec_fn(u64, u64) -> bool {
    |a: u64, b: u64| a <= b
}

/// `s` in ascending order.
pub open spec fn ascending(s: Seq<u64>) -> Seq<u64> {
    s.sort_by(by_size())
}

/// The runs of equal neighbours in `s`: for each run its length and the
/// value that repeats.
pub open spec fn runs_of(s: Seq<u64>) -> Seq<(usize, u64)>
    decreases s.len(),
{
    if s.len() == 0 {
        Seq::empty()
    } else {
        let before = runs_of(s.drop_last());
        if before.len() > 0 && before.last().1 == s.last() {
            before.drop_last().push(((before.last().0 + 1) as usize, s.last()))
        } else {
            before.push((1, s.last()))
        }
    }
}

/// What `Itertools::sorted` yields for numbers: the same numbers, each as
/// often as before, in ascending order.
#[verifier::external_body]
pub(crate) fn sorted(v: &Vec<u64>) -> (r: Vec<u64>)
    ensures
        sorted_by(r@, by_size()),
        r@.to_multiset() == v@.to_multiset(),
{
    v.iter().copied().sorted().collect()
}

/// What `Itertools::dedup_with_count` yields for numbers: one item for
/// each run of equal neighbours, made of the length of the run and the
/// number that repeats.
#[verifier::external_body]
pub(crate) fn dedup_with_count(v: &Vec<u64>) -> (r: Vec<(usize, u64)>)
    ensures
        r@ == runs_of(v@),
{
    v.iter().copied().dedup_with_count().collect()
}

/// The order of numbers by size is total.
pub proof fn lemma_by_size_total()
    ensures
        total_ordering(by_size()),
{
    let leq = by_size();
    assert(vstd::relations::reflexive(leq));
    assert(vstd::relations::antisymmetric(leq));
    assert(vstd::relations::transitive(leq));
    assert(vstd::relations::strongly_connected(leq));
}

/// `v` in ascending order.
pub fn sort(v: &Vec<u64>) -> (r: Vec<u64>)
    ensures
        r@ == ascending(v@),
        r@.len() == v@.len(),
{
    let r = sorted(v);
    proof {
        lemma_by_size_total();
        v@.lemma_sort_by_ensures(by_size());
        lemma_sorted_unique(r@, ascending(v@), by_size());
        broadcast use vstd::seq_lib::group_to_multiset_ensures;

        assert(r@.to_multiset().len() == v@.to_multiset().len());
    }
    r
}

/// The runs of equal neighbours in `v`.
pub fn tally(v: &Vec<u64>) -> (r: Vec<(usize, u64)>)
    ensures
        r@ == runs_of(v@),
{
    dedup_with_count(v)
}

} // verus!
