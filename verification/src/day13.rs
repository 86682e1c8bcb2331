//! Point of incidence: each pattern of ash and rocks has a line across
//! which it mirrors itself, but for a fixed number of smudges.

use crate::day14::is_rectangle;
use crate::grid::rectangular;
use crate::text::{lines_of, parts_of, split_by, split_lines};
use vstd::prelude::*;
use vstd::string::StringSliceAdditionalSpecFns;

verus! {

/// The byte of ash; every other byte is a rock.
pub const ASH: u8 = 46;

/// A pattern: rows of cells.
pub struct Pattern {
    pub pattern: Vec<Vec<u8>>,
}

impl View for Pattern {
    type V = Seq<Seq<u8>>;

    open spec fn view(&self) -> Seq<Seq<u8>> {
        self.pattern.deep_view()
    }
}

/// In how many of their first `upto` places the rows `a` and `b` differ:
/// rock in one, ash in the other.
pub open spec fn row_diffs(a: Seq<u8>, b: Seq<u8>, upto: int) -> int
    decreases upto,
{
    if upto <= 0 {
        0
    } else {
        row_diffs(a, b, upto - 1) + if (a[upto - 1] == ASH) != (b[upto - 1] == ASH) {
            1int
        } else {
            0int
        }
    }
}

/// In how many places the first `pairs` pairs of rows that face each
/// other across the line above row `r` differ.
pub open spec fn mirror_diffs(p: Seq<Seq<u8>>, r: int, pairs: int) -> int
    decreases pairs,
{
    if pairs <= 0 {
        0
    } else {
        mirror_diffs(p, r, pairs - 1) + row_diffs(
            p[r - pairs],
            p[r + pairs - 1],
            p[0].len() as int,
        )
    }
}

/// How many pairs of rows face each other across the line above row `r`.
pub open spec fn facing(p: Seq<Seq<u8>>, r: int) -> int {
    if r <= p.len() - r {
        r
    } else {
        p.len() - r
    }
}

/// Whether `p` mirrors itself across the line above row `r` but for
/// exactly `smudges` places.
pub open spec fn reflects(p: Seq<Seq<u8>>, r: int, smudges: int) -> bool {
    mirror_diffs(p, r, facing(p, r)) == smudges
}

/// `r` is the first line across which `p` mirrors itself but for
/// `smudges` places.
pub open spec fn first_mirror(p: Seq<Seq<u8>>, smudges: int, r: int) -> bool {
    &&& 1 <= r < p.len()
    &&& reflects(p, r, smudges)
    &&& forall|q: int| 1 <= q < r ==> !#[trigger] reflects(p, q, smudges)
}

/// `p` mirrors itself across no line but for `smudges` places.
pub open spec fn no_mirror(p: Seq<Seq<u8>>, smudges: int) -> bool {
    forall|q: int| 1 <= q < p.len() ==> !#[trigger] reflects(p, q, smudges)
}

/// `p` with rows and columns exchanged.
pub open spec fn transposed(p: Seq<Seq<u8>>) -> Seq<Seq<u8>> {
    Seq::new(p[0].len(), |x: int| Seq::new(p.len(), |y: int| p[y][x]))
}

/// The first line across which `p` mirrors itself but for `smudges`
/// places, if there is one.
pub open spec fn mirror_line(p: Seq<Seq<u8>>, smudges: int) -> Option<int> {
    if exists|r: int| first_mirror(p, smudges, r) {
        Some(choose|r: int| first_mirror(p, smudges, r))
    } else {
        None
    }
}

/// A pattern has one first mirror line.
pub proof fn lemma_mirror_unique(p: Seq<Seq<u8>>, smudges: int, r: int)
    requires
        first_mirror(p, smudges, r),
    ensures
        mirror_line(p, smudges) == Some(r),
{
    let c = choose|c: int| first_mirror(p, smudges, c);
    if c < r {
        assert(!reflects(p, c, smudges));
    }
    if r < c {
        assert(!reflects(p, r, smudges));
    }
}

/// A pattern without a mirror line has no first one.
pub proof fn lemma_mirror_none(p: Seq<Seq<u8>>, smudges: int)
    requires
        no_mirror(p, smudges),
    ensures
        mirror_line(p, smudges) is None,
{
    if exists|r: int| first_mirror(p, smudges, r) {
        let r = choose|r: int| first_mirror(p, smudges, r);
        assert(!reflects(p, r, smudges));
    }
}

/// What the pattern `p` scores: a hundred times the rows above its first
/// mirror line, or else the columns left of its first upright mirror
/// line.
pub open spec fn score_of(p: Seq<Seq<u8>>, smudges: int) -> Option<int> {
    match mirror_line(p, smudges) {
        Some(row) => Some(row * 100),
        None => mirror_line(transposed(p), smudges),
    }
}

/// In how many places the rows `a` and `b` differ.
pub fn get_diffs(a: &Vec<u8>, b: &Vec<u8>) -> (r: usize)
    requires
        a@.len() == b@.len(),
    ensures
        r == row_diffs(a@, b@, a@.len() as int),
        r <= a@.len(),
{
    let mut total: usize = 0;
    let mut i: usize = 0;
    while i < a.len()
        invariant
            i <= a@.len(),
            a@.len() == b@.len(),
            total == row_diffs(a@, b@, i as int),
            total <= i,
        decreases a@.len() - i,
    {
        if (a[i] == ASH) != (b[i] == ASH) {
            total += 1;
        }
        i += 1;
    }
    total
}

/// Mirror differences are never negative and never shrink with more
/// pairs.
proof fn lemma_mirror_grows(p: Seq<Seq<u8>>, r: int, a: int, b: int)
    requires
        0 <= a <= b,
    ensures
        0 <= mirror_diffs(p, r, a) <= mirror_diffs(p, r, b),
    decreases b,
{
    if b > 0 {
        lemma_row_sign(p[r - b], p[r + b - 1], p[0].len() as int);
        if a < b {
            lemma_mirror_grows(p, r, a, b - 1);
        } else {
            lemma_mirror_grows(p, r, a - 1, b - 1);
        }
    }
}

/// Row differences are never negative.
proof fn lemma_row_sign(a: Seq<u8>, b: Seq<u8>, upto: int)
    ensures
        0 <= row_diffs(a, b, upto),
    decreases upto,
{
    if upto > 0 {
        lemma_row_sign(a, b, upto - 1);
    }
}

impl Pattern {
    /// The pattern with rows and columns exchanged.
    pub fn transpose(&self) -> (r: Pattern)
        requires
            rectangular(self@),
        ensures
            r@ == transposed(self@),
            rectangular(r@),
    {
        let h = self.pattern.len();
        let w = self.pattern[0].len();
        let ghost p = self@;
        let mut result: Vec<Vec<u8>> = Vec::new();
        let mut col: usize = 0;
        while col < w
            invariant
                col <= w,
                p == self@,
                rectangular(p),
                h == p.len(),
                w == p[0].len(),
                result@.len() == col,
                forall|i: int| 0 <= i < col ==> (#[trigger] result@[i])@ == transposed(p)[i],
            decreases w - col,
        {
            let mut line: Vec<u8> = Vec::new();
            let mut row: usize = 0;
            while row < h
                invariant
                    row <= h,
                    col < w,
                    p == self@,
                    rectangular(p),
                    h == p.len(),
                    w == p[0].len(),
                    line@.len() == row,
                    forall|k: int| 0 <= k < row ==> line@[k] == p[k][col as int],
                decreases h - row,
            {
                let cells = &self.pattern[row];
                assert(p[row as int] =~= cells@);
                assert(p[row as int].len() == w);
                line.push(cells[col]);
                row += 1;
            }
            assert(line@ =~= transposed(p)[col as int]);
            result.push(line);
            col += 1;
        }
        let r = Pattern { pattern: result };
        assert(r@ =~= transposed(p)) by {
            assert forall|i: int| 0 <= i < r@.len() implies r@[i] == transposed(p)[i] by {
                assert(r@[i] =~= result@[i]@);
            }
        }
        r
    }

    /// The number of rows above the first line across which the pattern
    /// mirrors itself but for exactly `smudges` places.
    pub fn get_horizontal_symmetry_pos(&self, smudges: u32) -> (r: Option<usize>)
        requires
            rectangular(self@),
        ensures
            match r {
                Some(v) => first_mirror(self@, smudges as int, v as int),
                None => no_mirror(self@, smudges as int),
            },
            mirror_line(self@, smudges as int) == match r {
                Some(v) => Some(v as int),
                None => None,
            },
            r is Some ==> r->Some_0 <= 65535,
    {
        let h = self.pattern.len();
        let ghost p = self@;
        let mut index: usize = 0;
        while index < h - 1
            invariant
                index <= h - 1,
                h == p.len(),
                p == self@,
                rectangular(p),
                forall|q: int| 1 <= q < index + 1 ==> !#[trigger] reflects(p, q, smudges as int),
            decreases h - 1 - index,
        {
            let r = index + 1;
            let pairs = if r <= h - r {
                r
            } else {
                h - r
            };
            let mut diffs: u64 = 0;
            let mut k: usize = 0;
            while k < pairs && diffs <= smudges as u64
                invariant
                    k <= pairs,
                    pairs == facing(p, r as int),
                    1 <= r < h,
                    h == p.len(),
                    p == self@,
                    rectangular(p),
                    diffs == mirror_diffs(p, r as int, k as int),
                    diffs <= smudges + 65535,
                decreases pairs - k,
            {
                let upper = &self.pattern[r - 1 - k];
                let lower = &self.pattern[r + k];
                assert(p[r - 1 - k] =~= upper@);
                assert(p[r + k] =~= lower@);
                assert(p[r - 1 - k].len() == p[0].len());
                assert(p[r + k].len() == p[0].len());
                diffs = diffs + get_diffs(upper, lower) as u64;
                k += 1;
            }
            proof {
                lemma_mirror_grows(p, r as int, k as int, pairs as int);
            }
            if k == pairs && diffs == smudges as u64 {
                proof {
                    lemma_mirror_unique(p, smudges as int, r as int);
                }
                return Some(r);
            }
            index += 1;
        }
        proof {
            lemma_mirror_none(p, smudges as int);
        }
        None
    }

    /// What the pattern scores, or `None` where it mirrors itself across
    /// no line but for exactly `smudges` places.
    pub fn get_symmetry_score(&self, smudges: u32) -> (r: Option<u64>)
        requires
            rectangular(self@),
        ensures
            score_of(self@, smudges as int) == match r {
                Some(v) => Some(v as int),
                None => None,
            },
    {
        match self.get_horizontal_symmetry_pos(smudges) {
            Some(row) => Some(row as u64 * 100),
            None => {
                match self.transpose().get_horizontal_symmetry_pos(smudges) {
                    Some(col) => Some(col as u64),
                    None => None,
                }
            },
        }
    }
}

/// What the first `upto` of the patterns `blocks` score together; nothing
/// where one of them is no rectangle or has no mirror line, or the sum
/// exceeds 64 bits.
pub open spec fn tallied(blocks: Seq<Seq<u8>>, smudges: int, upto: int) -> Option<u64>
    decreases upto,
{
    if upto <= 0 {
        Some(0)
    } else {
        match tallied(blocks, smudges, upto - 1) {
            Some(before) => {
                let p = lines_of(blocks[upto - 1]);
                if rectangular(p) {
                    match score_of(p, smudges) {
                        Some(here) => if before + here <= u64::MAX {
                            Some((before + here) as u64)
                        } else {
                            None
                        },
                        None => None,
                    }
                } else {
                    None
                }
            },
            None => None,
        }
    }
}

/// Once the sum is lost it stays lost.
pub proof fn lemma_tally_lost(blocks: Seq<Seq<u8>>, smudges: int, a: int, b: int)
    requires
        tallied(blocks, smudges, a) is None,
        a <= b,
    ensures
        tallied(blocks, smudges, b) is None,
    decreases b - a,
{
    if a < b {
        lemma_tally_lost(blocks, smudges, a, b - 1);
    }
}

/// The blank line between two patterns.
pub open spec fn blank_line() -> Seq<u8> {
    seq![10u8, 10u8]
}

/// The summed scores of the patterns written in `bytes`; `None` where a
/// pattern is no rectangle or mirrors itself across no line, or the sum
/// exceeds 64 bits.
pub fn summarize(bytes: &[u8], smudges: u32) -> (r: Option<u64>)
    ensures
        r == tallied(
            parts_of(bytes@, blank_line()),
            smudges as int,
            parts_of(bytes@, blank_line()).len() as int,
        ),
{
    let gap: [u8; 2] = [10, 10];
    assert(gap@ =~= blank_line());
    let blocks = split_by(bytes, gap.as_slice());
    let ghost model = blocks.deep_view();
    let mut total: u64 = 0;
    let mut k: usize = 0;
    while k < blocks.len()
        invariant
            k <= blocks@.len(),
            model == blocks.deep_view(),
            model == parts_of(bytes@, blank_line()),
            tallied(model, smudges as int, k as int) == Some(total),
        decreases blocks@.len() - k,
    {
        assert(model[k as int] =~= blocks@[k as int]@);
        let pattern = Pattern { pattern: split_lines(blocks[k].as_slice()) };
        let next = if !is_rectangle(&pattern.pattern) {
            None
        } else {
            match pattern.get_symmetry_score(smudges) {
                Some(v) => total.checked_add(v),
                None => None,
            }
        };
        match next {
            Some(t) => {
                total = t;
            },
            None => {
                proof {
                    assert(tallied(model, smudges as int, k + 1) is None);
                    lemma_tally_lost(model, smudges as int, k + 1, model.len() as int);
                }
                return None;
            },
        }
        k += 1;
    }
    Some(total)
}

/// The summed scores of the patterns when nothing is smudged.
pub fn part_one(input: &str) -> (r: Option<u64>)
    ensures
        r == tallied(
            parts_of(input.spec_bytes(), blank_line()),
            0,
            parts_of(input.spec_bytes(), blank_line()).len() as int,
        ),
{
    summarize(input.as_bytes(), 0)
}

/// The summed scores of the patterns when each has exactly one smudge.
pub fn part_two(input: &str) -> (r: Option<u64>)
    ensures
        r == tallied(
            parts_of(input.spec_bytes(), blank_line()),
            1,
            parts_of(input.spec_bytes(), blank_line()).len() as int,
        ),
{
    summarize(input.as_bytes(), 1)
}

} // verus!
