//! Random picks, made by the `rand` crate.

use rand::seq::{IteratorRandom, SliceRandom};
use vstd::prelude::*;

verus! {

/// One item of `v`, as `SliceRandom::choose` picks it with the
/// thread-local generator: some item of `v`, and `None` only for an empty
/// `v`. Which item comes back is left open.
#[verifier::external_body]
pub(crate) fn pick_from_slice(v: &Vec<usize>) -> (r: Option<usize>)
    ensures
        match r {
            Some(x) => v@.contains(x),
            None => v@.len() == 0,
        },
{
    v.choose(&mut rand::thread_rng()).copied()
}

/// One item of `v`, as `IteratorRandom::choose` picks it from an iterator
/// over `v` with the thread-local generator: some item of `v`, and `None`
/// only for an empty `v`. Which item comes back is left open.
#[verifier::external_body]
pub(crate) fn pick_from_iter(v: &Vec<usize>) -> (r: Option<usize>)
    ensures
        match r {
            Some(x) => v@.contains(x),
            None => v@.len() == 0,
        },
{
    v.iter().copied().choose(&mut rand::thread_rng())
}

} // verus!
