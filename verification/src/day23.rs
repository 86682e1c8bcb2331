//! Hiking trails: the longest walk from the first open cell of a trail
//! map to the last one that enters no cell twice.

use crate::grid::{cell_at, first_cell, lacks, last_cell, rectangular, Grid, SearchError};
use crate::text::{lines_of, split_lines};
use crate::corridors::longest_walk;
use crate::trails::longest_simple_path;
use vstd::prelude::*;
use vstd::string::StringSliceAdditionalSpecFns;

verus! {

/// The byte of an open trail cell.
pub const PATH: u8 = 46;

/// What a hike across the map written in `text` may yield: the steps of a
/// longest walk from the first open cell to the last that enters no cell
/// twice, or nothing where the text is no rectangle, holds no open cell,
/// or no walk leads from the one to the other.
pub open spec fn hiking(text: Seq<u8>, directed: bool, r: Option<u64>) -> bool {
    let g = lines_of(text);
    let s = first_cell(g, PATH);
    let e = last_cell(g, PATH);
    match r {
        Some(m) => rectangular(g) && !lacks(g, PATH) && longest_walk(g, directed, s, e, Ok(m)),
        None => !rectangular(g) || lacks(g, PATH) || longest_walk(
            g,
            directed,
            s,
            e,
            Err(SearchError::NoPathFound),
        ),
    }
}

/// Hikes across the map written in `bytes`.
pub fn hike(bytes: &[u8], directed: bool) -> (r: Option<u64>)
    ensures
        hiking(bytes@, directed, r),
{
    let rows = split_lines(bytes);
    match Grid::from_rows(rows) {
        Err(_) => None,
        Ok(grid) => {
            let first = grid.find_first(PATH);
            let last = grid.find_last(PATH);
            if first.is_none() || last.is_none() {
                return None;
            }
            let s = first.unwrap();
            let e = last.unwrap();
            assert(cell_at(grid@, s.x as int, s.y as int) == PATH);
            let found = longest_simple_path(&grid, s, e, directed);
            match found {
                Ok(m) => Some(m),
                Err(_) => {
                    assert(found == Err::<u64, SearchError>(SearchError::NoPathFound));
                    None
                },
            }
        },
    }
}

/// The longest hike when slopes may only be walked downhill.
pub fn part_one(input: &str) -> (r: Option<u64>)
    ensures
        hiking(input.spec_bytes(), true, r),
{
    hike(input.as_bytes(), true)
}

/// The longest hike when slopes are walked like any other trail.
pub fn part_two(input: &str) -> (r: Option<u64>)
    ensures
        hiking(input.spec_bytes(), false, r),
{
    hike(input.as_bytes(), false)
}

} // verus!
