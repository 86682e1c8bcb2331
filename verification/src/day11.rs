//! Cosmic expansion: the summed distances between all pairs of galaxies
//! of an image in which every empty row and column counts many times.

use crate::grid::{cell_at, height_of, in_bounds, rectangular, width_of, Cells, Coordinate, Grid};
use crate::text::{lines_of, split_lines};
use crate::tuples::{all_pairs, combination_pairs};
use vstd::prelude::*;
use vstd::string::StringSliceAdditionalSpecFns;

verus! {

/// The byte that marks a galaxy.
pub const GALAXY: u8 = 35;

/// Row `y` of `g` holds no galaxy in its first `upto` cells.
pub open spec fn row_empty_upto(g: Cells, y: int, upto: int) -> bool {
    forall|x: int| 0 <= x < upto ==> #[trigger] cell_at(g, x, y) != GALAXY
}

/// Column `x` of `g` holds no galaxy in its first `upto` cells.
pub open spec fn col_empty_upto(g: Cells, x: int, upto: int) -> bool {
    forall|y: int| 0 <= y < upto ==> #[trigger] cell_at(g, x, y) != GALAXY
}

/// What row `y` counts for: `factor` if it is empty, one if not.
pub open spec fn row_weight(g: Cells, factor: int, y: int) -> int {
    if row_empty_upto(g, y, width_of(g)) {
        factor
    } else {
        1
    }
}

/// What column `x` counts for: `factor` if it is empty, one if not.
pub open spec fn col_weight(g: Cells, factor: int, x: int) -> int {
    if col_empty_upto(g, x, height_of(g)) {
        factor
    } else {
        1
    }
}

/// The sum of the weights `lo..hi`.
pub open spec fn span(weights: Seq<u64>, lo: int, hi: int) -> int
    decreases hi - lo,
{
    if hi <= lo {
        0
    } else {
        span(weights, lo, hi - 1) + weights[hi - 1]
    }
}

/// The weights of all rows of `g`.
pub open spec fn row_weights(g: Cells, factor: u64) -> Seq<u64> {
    Seq::new(g.len(), |y: int| row_weight(g, factor as int, y) as u64)
}

/// The weights of all columns of `g`.
pub open spec fn col_weights(g: Cells, factor: u64) -> Seq<u64> {
    Seq::new(g[0].len(), |x: int| col_weight(g, factor as int, x) as u64)
}

/// The smaller and the larger of `a` and `b`.
pub open spec fn ordered(a: usize, b: usize) -> (int, int) {
    if a <= b {
        (a as int, b as int)
    } else {
        (b as int, a as int)
    }
}

/// How far apart the galaxies `a` and `b` are: the weights of the columns
/// and rows crossed on the way from one to the other.
pub open spec fn apart(g: Cells, factor: u64, a: Coordinate, b: Coordinate) -> int {
    span(col_weights(g, factor), ordered(a.x, b.x).0, ordered(a.x, b.x).1) + span(
        row_weights(g, factor),
        ordered(a.y, b.y).0,
        ordered(a.y, b.y).1,
    )
}

/// The summed distances of `pairs`.
pub open spec fn sum_apart(g: Cells, factor: u64, pairs: Seq<(Coordinate, Coordinate)>) -> int
    decreases pairs.len(),
{
    if pairs.len() == 0 {
        0
    } else {
        sum_apart(g, factor, pairs.drop_last()) + apart(g, factor, pairs.last().0, pairs.last().1)
    }
}

/// The galaxies in the first `upto` cells of row `y`, from the left.
pub open spec fn row_galaxies(g: Cells, y: int, upto: int) -> Seq<Coordinate>
    decreases upto,
{
    if upto <= 0 {
        Seq::empty()
    } else {
        let before = row_galaxies(g, y, upto - 1);
        if cell_at(g, upto - 1, y) == GALAXY {
            before.push(Coordinate { x: (upto - 1) as usize, y: y as usize })
        } else {
            before
        }
    }
}

/// The galaxies of the first `upto` rows, row by row.
pub open spec fn galaxies_upto(g: Cells, upto: int) -> Seq<Coordinate>
    decreases upto,
{
    if upto <= 0 {
        Seq::empty()
    } else {
        galaxies_upto(g, upto - 1) + row_galaxies(g, upto - 1, width_of(g))
    }
}

/// The summed distances between all pairs of galaxies of `g`.
pub open spec fn expanse(g: Cells, factor: u64) -> int {
    sum_apart(g, factor, all_pairs(galaxies_upto(g, height_of(g))))
}

/// The galaxies of `grid`, row by row.
pub fn galaxies(grid: &Grid) -> (r: Vec<Coordinate>)
    ensures
        r@ == galaxies_upto(grid@, height_of(grid@)),
        forall|k: int| 0 <= k < r@.len() ==> in_bounds(grid@, (#[trigger] r@[k]).x as int, r@[k].y as int),
{
    let w = grid.width();
    let h = grid.height();
    let mut out: Vec<Coordinate> = Vec::new();
    let mut y: usize = 0;
    while y < h
        invariant
            y <= h,
            w == width_of(grid@),
            h == height_of(grid@),
            out@ == galaxies_upto(grid@, y as int),
            forall|k: int|
                0 <= k < out@.len() ==> in_bounds(grid@, (#[trigger] out@[k]).x as int, out@[k].y as int),
        decreases h - y,
    {
        let ghost before = out@;
        let mut x: usize = 0;
        assert(out@ =~= before + row_galaxies(grid@, y as int, 0));
        while x < w
            invariant
                x <= w,
                y < h,
                w == width_of(grid@),
                h == height_of(grid@),
                out@ == before + row_galaxies(grid@, y as int, x as int),
                forall|k: int|
                    0 <= k < out@.len() ==> in_bounds(
                        grid@,
                        (#[trigger] out@[k]).x as int,
                        out@[k].y as int,
                    ),
            decreases w - x,
        {
            let c = Coordinate { x, y };
            let ghost row = row_galaxies(grid@, y as int, x as int);
            if grid.get(c) == Some(GALAXY) {
                out.push(c);
                assert(out@ =~= before + row.push(c));
            }
            x += 1;
        }
        y += 1;
    }
    out
}

/// The weights of the rows of `grid`.
pub fn weigh_rows(grid: &Grid, factor: u64) -> (r: Vec<u64>)
    requires
        factor >= 1,
    ensures
        r@ == row_weights(grid@, factor),
{
    let w = grid.width();
    let h = grid.height();
    let mut out: Vec<u64> = Vec::new();
    let mut y: usize = 0;
    while y < h
        invariant
            y <= h,
            factor >= 1,
            w == width_of(grid@),
            h == height_of(grid@),
            out@.len() == y,
            forall|k: int|
                0 <= k < y ==> #[trigger] out@[k] == row_weight(grid@, factor as int, k) as u64,
        decreases h - y,
    {
        let mut empty = true;
        let mut x: usize = 0;
        while x < w
            invariant
                x <= w,
                y < h,
                w == width_of(grid@),
                h == height_of(grid@),
                empty == row_empty_upto(grid@, y as int, x as int),
            decreases w - x,
        {
            if grid.get(Coordinate { x, y }) == Some(GALAXY) {
                empty = false;
                assert(cell_at(grid@, x as int, y as int) == GALAXY);
            }
            x += 1;
        }
        out.push(if empty {
            factor
        } else {
            1
        });
        y += 1;
    }
    proof {
        use_type_invariant(grid);
        grid.lemma_rectangular();
    }
    assert(out@ =~= row_weights(grid@, factor));
    out
}

/// The weights of the columns of `grid`.
pub fn weigh_cols(grid: &Grid, factor: u64) -> (r: Vec<u64>)
    requires
        factor >= 1,
    ensures
        r@ == col_weights(grid@, factor),
{
    let w = grid.width();
    let h = grid.height();
    let mut out: Vec<u64> = Vec::new();
    let mut x: usize = 0;
    while x < w
        invariant
            x <= w,
            factor >= 1,
            w == width_of(grid@),
            h == height_of(grid@),
            out@.len() == x,
            forall|k: int|
                0 <= k < x ==> #[trigger] out@[k] == col_weight(grid@, factor as int, k) as u64,
        decreases w - x,
    {
        let mut empty = true;
        let mut y: usize = 0;
        while y < h
            invariant
                y <= h,
                x < w,
                w == width_of(grid@),
                h == height_of(grid@),
                empty == col_empty_upto(grid@, x as int, y as int),
            decreases h - y,
        {
            if grid.get(Coordinate { x, y }) == Some(GALAXY) {
                empty = false;
                assert(cell_at(grid@, x as int, y as int) == GALAXY);
            }
            y += 1;
        }
        out.push(if empty {
            factor
        } else {
            1
        });
        x += 1;
    }
    proof {
        use_type_invariant(grid);
        grid.lemma_rectangular();
    }
    assert(out@ =~= col_weights(grid@, factor));
    out
}

/// The sum of the weights between the places `a` and `b`.
fn between(weights: &Vec<u64>, a: usize, b: usize, Ghost(factor): Ghost<u64>) -> (r: u128)
    requires
        a < weights@.len(),
        b < weights@.len(),
        weights@.len() <= 65535,
        forall|k: int| 0 <= k < weights@.len() ==> #[trigger] weights@[k] <= factor,
    ensures
        r == span(weights@, ordered(a, b).0, ordered(a, b).1),
        r <= 65535 * factor,
{
    let (lo, hi) = if a <= b {
        (a, b)
    } else {
        (b, a)
    };
    let mut total: u128 = 0;
    let mut k = lo;
    while k < hi
        invariant
            lo <= k <= hi < weights@.len(),
            weights@.len() <= 65535,
            forall|j: int| 0 <= j < weights@.len() ==> #[trigger] weights@[j] <= factor,
            total == span(weights@, lo as int, k as int),
            total <= (k - lo) * factor,
        decreases hi - k,
    {
        assert((k - lo) * factor + factor == (k + 1 - lo) * factor) by (nonlinear_arith);
        assert((k - lo) * factor <= 65535 * 0xFFFF_FFFF_FFFF_FFFF) by (nonlinear_arith)
            requires
                0 <= k - lo <= 65535,
                0 <= factor <= 0xFFFF_FFFF_FFFF_FFFF,
        ;
        total = total + weights[k] as u128;
        k += 1;
    }
    assert((hi - lo) * factor <= 65535 * factor) by (nonlinear_arith)
        requires
            hi - lo <= 65535,
            factor >= 0,
    ;
    total
}

/// A weight is the factor or one.
proof fn lemma_weights_bounded(g: Cells, factor: u64)
    requires
        factor >= 1,
    ensures
        forall|k: int|
            0 <= k < row_weights(g, factor).len() ==> #[trigger] row_weights(g, factor)[k] <= factor,
        forall|k: int|
            0 <= k < col_weights(g, factor).len() ==> #[trigger] col_weights(g, factor)[k] <= factor,
{
}

/// The summed distances between all pairs of galaxies of `grid`, where
/// each empty row and column counts `factor` times; `None` where the sum
/// does not fit 64 bits.
pub fn expand(grid: &Grid, factor: u64) -> (r: Option<u64>)
    requires
        factor >= 1,
    ensures
        match r {
            Some(v) => v == expanse(grid@, factor),
            None => expanse(grid@, factor) > u64::MAX,
        },
{
    let rows = weigh_rows(grid, factor);
    let cols = weigh_cols(grid, factor);
    let stars = galaxies(grid);
    let pairs = combination_pairs(&stars);
    proof {
        use_type_invariant(grid);
        grid.lemma_rectangular();
        lemma_weights_bounded(grid@, factor);
        lemma_pairs_members(stars@, stars@.len() as int);
    }
    let ghost g = grid@;
    let mut total: u128 = 0;
    let mut spilled = false;
    let mut k: usize = 0;
    while k < pairs.len()
        invariant
            k <= pairs@.len(),
            factor >= 1,
            g == grid@,
            rectangular(g),
            rows@ == row_weights(g, factor),
            cols@ == col_weights(g, factor),
            forall|j: int| 0 <= j < rows@.len() ==> #[trigger] rows@[j] <= factor,
            forall|j: int| 0 <= j < cols@.len() ==> #[trigger] cols@[j] <= factor,
            forall|j: int|
                0 <= j < pairs@.len() ==> in_bounds(g, (#[trigger] pairs@[j]).0.x as int, pairs@[j].0.y as int)
                    && in_bounds(g, pairs@[j].1.x as int, pairs@[j].1.y as int),
            !spilled ==> total == sum_apart(g, factor, pairs@.subrange(0, k as int)) && total
                <= u64::MAX,
            spilled ==> sum_apart(g, factor, pairs@.subrange(0, k as int)) > u64::MAX,
        decreases pairs@.len() - k,
    {
        let (a, b) = pairs[k];
        proof {
            let longer = pairs@.subrange(0, k + 1);
            assert(longer.drop_last() =~= pairs@.subrange(0, k as int));
            assert(longer.last() == pairs@[k as int]);
        }
        let d = between(&cols, a.x, b.x, Ghost(factor)) + between(&rows, a.y, b.y, Ghost(factor));
        if !spilled {
            let next = total + d;
            if next > u64::MAX as u128 {
                spilled = true;
            } else {
                total = next;
            }
        }
        k += 1;
    }
    assert(pairs@.subrange(0, pairs@.len() as int) =~= pairs@);
    if spilled {
        None
    } else {
        Some(total as u64)
    }
}

/// Every pair of items of `s` is made of items of `s`.
proof fn lemma_pairs_members<T>(s: Seq<T>, upto: int)
    requires
        0 <= upto <= s.len(),
    ensures
        forall|j: int|
            0 <= j < crate::tuples::pairs_upto(s, upto).len() ==> s.contains(
                (#[trigger] crate::tuples::pairs_upto(s, upto)[j]).0,
            ) && s.contains(crate::tuples::pairs_upto(s, upto)[j].1),
    decreases upto,
{
    if upto > 0 {
        lemma_pairs_members(s, upto - 1);
        let before = crate::tuples::pairs_upto(s, upto - 1);
        let here = crate::tuples::pairs_with(s, upto - 1, s.len() - upto);
        lemma_with_members(s, upto - 1, s.len() - upto);
        assert forall|j: int| 0 <= j < (before + here).len() implies s.contains(
            (#[trigger] (before + here)[j]).0,
        ) && s.contains((before + here)[j].1) by {
            if j < before.len() {
                assert((before + here)[j] == before[j]);
            } else {
                assert((before + here)[j] == here[j - before.len()]);
            }
        }
    }
}

/// Every pair of one item of `s` with later ones is made of items of `s`.
proof fn lemma_with_members<T>(s: Seq<T>, i: int, upto: int)
    requires
        0 <= i,
        0 <= upto,
        i + upto < s.len(),
    ensures
        forall|j: int|
            0 <= j < crate::tuples::pairs_with(s, i, upto).len() ==> s.contains(
                (#[trigger] crate::tuples::pairs_with(s, i, upto)[j]).0,
            ) && s.contains(crate::tuples::pairs_with(s, i, upto)[j].1),
    decreases upto,
{
    if upto > 0 {
        lemma_with_members(s, i, upto - 1);
        let before = crate::tuples::pairs_with(s, i, upto - 1);
        let here = crate::tuples::pairs_with(s, i, upto);
        assert(s.contains(s[i]));
        assert(s.contains(s[i + upto]));
        assert forall|j: int| 0 <= j < here.len() implies s.contains((#[trigger] here[j]).0)
            && s.contains(here[j].1) by {
            if j < before.len() {
                assert(here[j] == before[j]);
            }
        }
    }
}

/// What the image written in `text` comes to: the summed distances
/// between all pairs of galaxies, cut to the number of bits given;
/// nothing where the text is no rectangle or the sum does not fit 64
/// bits.
pub open spec fn cosmic(text: Seq<u8>, factor: u64) -> Option<u64> {
    let g = lines_of(text);
    if rectangular(g) && expanse(g, factor) <= u64::MAX {
        Some(expanse(g, factor) as u64)
    } else {
        None
    }
}

/// The summed distances between all pairs of galaxies when each empty
/// row and column counts twice, cut to 32 bits.
pub fn part_one(input: &str) -> (r: Option<u32>)
    ensures
        r == match cosmic(input.spec_bytes(), 2) {
            Some(v) => Some((v % 0x1_0000_0000) as u32),
            None => None,
        },
{
    match Grid::from_rows(split_lines(input.as_bytes())) {
        Ok(grid) => match expand(&grid, 2) {
            Some(v) => Some((v % 0x1_0000_0000) as u32),
            None => None,
        },
        Err(_) => None,
    }
}

/// The summed distances between all pairs of galaxies when each empty
/// row and column counts a million times.
pub fn part_two(input: &str) -> (r: Option<u64>)
    ensures
        r == cosmic(input.spec_bytes(), 1000000),
{
    match Grid::from_rows(split_lines(input.as_bytes())) {
        Ok(grid) => expand(&grid, 1000000),
        Err(_) => None,
    }
}

} // verus!
