//! Crucible routing: the cheapest walk across a field of heat-loss digits
//! for a cart that cannot reverse and is limited in how far it may run
//! straight.

use crate::grid::{height_of, rectangular, width_of, Coordinate, Grid};
use crate::pathfinder::shortest_constrained_path;
use crate::state_space::{is_shortest, no_route, RunLimits};
use crate::text::{lines_of, split_lines};
use vstd::prelude::*;
use vstd::string::StringSliceAdditionalSpecFns;

verus! {

/// The top-left corner.
pub open spec fn origin() -> Coordinate {
    Coordinate { x: 0, y: 0 }
}

/// The bottom-right corner of `g`.
pub open spec fn far_corner(g: Seq<Seq<u8>>) -> Coordinate {
    Coordinate { x: (width_of(g) - 1) as usize, y: (height_of(g) - 1) as usize }
}

/// What a crossing from the top-left to the bottom-right corner of the
/// field written in `text` may yield under the run limits `lim`: the cost
/// of a cheapest route, or nothing where the text is no rectangle or no
/// route exists.
pub open spec fn crossing(text: Seq<u8>, lim: RunLimits, r: Option<u64>) -> bool {
    let g = lines_of(text);
    match r {
        Some(c) => rectangular(g) && is_shortest(g, lim, origin(), far_corner(g), c as int),
        None => !rectangular(g) || no_route(g, lim, origin(), far_corner(g)),
    }
}

/// Crosses the field written in `bytes` under the run limits
/// `min_run`, `max_run`.
pub fn cross(bytes: &[u8], min_run: usize, max_run: usize) -> (r: Option<u64>)
    ensures
        crossing(bytes@, RunLimits { min_run, max_run }, r),
{
    let rows = split_lines(bytes);
    match Grid::from_rows(rows) {
        Err(_) => None,
        Ok(grid) => {
            let end = Coordinate { x: grid.width() - 1, y: grid.height() - 1 };
            match shortest_constrained_path(&grid, Coordinate { x: 0, y: 0 }, end, min_run, max_run) {
                Ok(c) => Some(c),
                Err(_) => None,
            }
        },
    }
}

/// The least heat loss for a cart that moves at most three blocks in a
/// row in one direction.
pub fn part_one(input: &str) -> (r: Option<u64>)
    ensures
        crossing(input.spec_bytes(), RunLimits { min_run: 1, max_run: 3 }, r),
{
    cross(input.as_bytes(), 1, 3)
}

/// The least heat loss for a cart that moves at least four and at most
/// ten blocks in a row in one direction, also before it stops.
pub fn part_two(input: &str) -> (r: Option<u64>)
    ensures
        crossing(input.spec_bytes(), RunLimits { min_run: 4, max_run: 10 }, r),
{
    cross(input.as_bytes(), 4, 10)
}

} // verus!
