//! Parabolic reflector dish: round rocks roll on a tilting platform, and
//! the load on the north beam is asked for after a billion spin cycles.

use crate::grid::{rectangular, MAX_DIM};
use crate::period::{detect_period_and_project, state_after, Simulation};
use crate::text::{copy_line, copy_rows, lines_of, rows_equal, split_lines};
use vstd::prelude::*;
use vstd::string::StringSliceAdditionalSpecFns;

verus! {

/// A round rock, which rolls.
pub const ROUND: u8 = 79;

/// A cube rock, which stays.
pub const CUBE: u8 = 35;

/// Empty ground.
pub const EMPTY: u8 = 46;

/// The modulus of the fingerprint.
pub const PRINT_MOD: u64 = 0x1FFF_FFFF_FFFF_FFFF;

/// Whether a cell holding `c` can hold a round rock.
pub open spec fn is_slot(c: u8) -> bool {
    c == EMPTY || c == ROUND
}

/// Where the stretch between cube rocks that holds position `p` begins.
pub open spec fn seg_start(a: Seq<u8>, p: int) -> int
    decreases p,
{
    if p <= 0 {
        0
    } else if a[p - 1] == CUBE {
        p
    } else {
        seg_start(a, p - 1)
    }
}

/// The first position from `p` on that holds a cube rock, or the length
/// of `a`.
pub open spec fn seg_end(a: Seq<u8>, p: int) -> int
    decreases a.len() - p,
{
    if p < 0 || p >= a.len() {
        a.len() as int
    } else if a[p] == CUBE {
        p
    } else {
        seg_end(a, p + 1)
    }
}

/// How many of the positions `lo..hi` can hold a round rock.
pub open spec fn slots(a: Seq<u8>, lo: int, hi: int) -> int
    decreases hi - lo,
{
    if hi <= lo {
        0
    } else {
        slots(a, lo, hi - 1) + if is_slot(a[hi - 1]) {
            1int
        } else {
            0int
        }
    }
}

/// How many of the positions `lo..hi` hold a round rock.
pub open spec fn rocks(a: Seq<u8>, lo: int, hi: int) -> int
    decreases hi - lo,
{
    if hi <= lo {
        0
    } else {
        rocks(a, lo, hi - 1) + if a[hi - 1] == ROUND {
            1int
        } else {
            0int
        }
    }
}

/// What position `p` holds once every round rock of `a` has rolled
/// towards position zero as far as it can: within each stretch between
/// cube rocks, the round rocks fill the first places that can hold one.
pub open spec fn tilted_at(a: Seq<u8>, p: int) -> u8 {
    if !is_slot(a[p]) {
        a[p]
    } else if slots(a, seg_start(a, p), p) < rocks(a, seg_start(a, p), seg_end(a, p)) {
        ROUND
    } else {
        EMPTY
    }
}

/// The line `a` after a tilt towards position zero.
pub open spec fn tilted(a: Seq<u8>) -> Seq<u8> {
    Seq::new(a.len(), |p: int| tilted_at(a, p))
}

/// Column `x` of `p`, top to bottom.
pub open spec fn column(p: Seq<Seq<u8>>, x: int) -> Seq<u8> {
    Seq::new(p.len(), |y: int| p[y][x])
}

/// The platform `p` after a tilt to the north.
pub open spec fn tilted_up(p: Seq<Seq<u8>>) -> Seq<Seq<u8>> {
    Seq::new(p.len(), |y: int| Seq::new(p[0].len(), |x: int| tilted(column(p, x))[y]))
}

/// The platform `p` turned a quarter clockwise.
pub open spec fn rotated(p: Seq<Seq<u8>>) -> Seq<Seq<u8>> {
    Seq::new(p[0].len(), |i: int| Seq::new(p.len(), |j: int| p[p.len() - 1 - j][i]))
}

/// The platform `p` turned a quarter counter-clockwise.
pub open spec fn rotated_back(p: Seq<Seq<u8>>) -> Seq<Seq<u8>> {
    Seq::new(p[0].len(), |i: int| Seq::new(p.len(), |j: int| p[j][p[0].len() - 1 - i]))
}

/// A tilt to the north followed by a quarter turn clockwise.
pub open spec fn spun(p: Seq<Seq<u8>>) -> Seq<Seq<u8>> {
    rotated(tilted_up(p))
}

/// One spin cycle: tilts to the north, west, south and east.
pub open spec fn cycled(p: Seq<Seq<u8>>) -> Seq<Seq<u8>> {
    spun(spun(spun(spun(p))))
}

/// The load of the first `n` rows of `p` on the north beam: each round
/// rock counts for the number of rows from it to the south edge.
pub open spec fn load_upto(p: Seq<Seq<u8>>, n: int) -> int
    decreases n,
{
    if n <= 0 {
        0
    } else {
        load_upto(p, n - 1) + rocks(p[n - 1], 0, p[n - 1].len() as int) * (p.len() - (n - 1))
    }
}

/// The load of `p` on the north beam.
pub open spec fn weight(p: Seq<Seq<u8>>) -> int {
    load_upto(p, p.len() as int)
}

/// One step of the fingerprint.
pub open spec fn mix(h: u64, b: u8) -> u64 {
    ((h * 31 + b + 1) % (PRINT_MOD as int)) as u64
}

/// The fingerprint of the first `n` bytes of `line`, continued from `h`.
pub open spec fn line_print(h: u64, line: Seq<u8>, n: int) -> u64
    decreases n,
{
    if n <= 0 {
        h
    } else {
        mix(line_print(h, line, n - 1), line[n - 1])
    }
}

/// The fingerprint of the first `n` rows of `p`.
pub open spec fn rows_print(p: Seq<Seq<u8>>, n: int) -> u64
    decreases n,
{
    if n <= 0 {
        0
    } else {
        mix(line_print(rows_print(p, n - 1), p[n - 1], p[n - 1].len() as int), 10)
    }
}

/// Within a stretch without cube rocks the start of the stretch is the
/// same for every position.
proof fn lemma_seg_start(a: Seq<u8>, s: int, p: int)
    requires
        0 <= s <= p <= a.len(),
        s == 0 || a[s - 1] == CUBE,
        forall|q: int| s <= q < p ==> a[q] != CUBE,
    ensures
        seg_start(a, p) == s,
    decreases p - s,
{
    if p > s {
        lemma_seg_start(a, s, p - 1);
    }
}

/// Within a stretch without cube rocks the end of the stretch is the same
/// for every position.
proof fn lemma_seg_end(a: Seq<u8>, p: int, e: int)
    requires
        0 <= p <= e <= a.len(),
        e == a.len() || a[e] == CUBE,
        forall|q: int| p <= q < e ==> a[q] != CUBE,
    ensures
        seg_end(a, p) == e,
    decreases e - p,
{
    if p < e {
        lemma_seg_end(a, p + 1, e);
    }
}

/// Counting places over a longer range counts no fewer.
proof fn lemma_slots_monotone(a: Seq<u8>, lo: int, mid: int, hi: int)
    requires
        lo <= mid <= hi,
    ensures
        slots(a, lo, mid) <= slots(a, lo, hi),
        mid < hi && is_slot(a[mid]) ==> slots(a, lo, mid) < slots(a, lo, hi),
    decreases hi - mid,
{
    if mid < hi {
        lemma_slots_monotone(a, lo, mid, hi - 1);
        if mid == hi - 1 {
            assert(slots(a, lo, hi) == slots(a, lo, mid) + if is_slot(a[mid]) {
                1int
            } else {
                0int
            });
        }
    }
}

/// Counts depend only on the positions counted.
proof fn lemma_rocks_agree(a: Seq<u8>, b: Seq<u8>, lo: int, hi: int)
    requires
        forall|q: int| lo <= q < hi ==> a[q] == b[q],
    ensures
        rocks(a, lo, hi) == rocks(b, lo, hi),
        slots(a, lo, hi) == slots(b, lo, hi),
    decreases hi - lo,
{
    if hi > lo {
        lemma_rocks_agree(a, b, lo, hi - 1);
    }
}

/// A line holds at most as many round rocks as cells.
proof fn lemma_rocks_bound(a: Seq<u8>, lo: int, hi: int)
    requires
        lo <= hi,
    ensures
        0 <= rocks(a, lo, hi) <= hi - lo,
    decreases hi - lo,
{
    if hi > lo {
        lemma_rocks_bound(a, lo, hi - 1);
    }
}

/// Tilts `line` towards position zero.
pub fn tilt_line(line: &Vec<u8>) -> (r: Vec<u8>)
    ensures
        r@ == tilted(line@),
{
    let n = line.len();
    let ghost a = line@;
    let mut out = copy_line(line);
    let mut free: usize = 0;
    let ghost mut s: int = 0;
    let mut p: usize = 0;
    while p < n
        invariant
            p <= n,
            n == a.len(),
            a == line@,
            out@.len() == n,
            0 <= s <= free <= p,
            s == 0 || a[s - 1] == CUBE,
            forall|q: int| s <= q < p ==> a[q] != CUBE,
            forall|q: int| p <= q < n ==> out@[q] == a[q],
            forall|q: int| 0 <= q < s ==> out@[q] == tilted_at(a, q),
            forall|q: int|
                s <= q < free ==> out@[q] == if is_slot(a[q]) {
                    ROUND
                } else {
                    a[q]
                },
            forall|q: int|
                free <= q < p ==> out@[q] == if is_slot(a[q]) {
                    EMPTY
                } else {
                    a[q]
                },
            slots(a, s, free as int) == rocks(a, s, p as int),
        decreases n - p,
    {
        let c = line[p];
        if c == CUBE {
            proof {
                assert forall|q: int| 0 <= q < p + 1 implies out@[q] == tilted_at(a, q) by {
                    if s <= q < p {
                        lemma_seg_start(a, s, q);
                        lemma_seg_end(a, q, p as int);
                        if q < free {
                            lemma_slots_monotone(a, s, q, free as int);
                        } else {
                            lemma_slots_monotone(a, s, free as int, q);
                        }
                    }
                }
                s = p + 1;
            }
            free = p + 1;
        } else if c == ROUND {
            out.set(p, EMPTY);
            let ghost before = out@;
            let ghost free0 = free;
            while out[free] != EMPTY
                invariant
                    s <= free0 <= free <= p,
                    forall|q: int| free0 <= q < free ==> !is_slot(a[q]) && before[q] == a[q],
                    p < n,
                    n == a.len(),
                    out@ == before,
                    out@.len() == n,
                    before[p as int] == EMPTY,
                    forall|q: int|
                        free <= q < p ==> before[q] == if is_slot(a[q]) {
                            EMPTY
                        } else {
                            a[q]
                        },
                    slots(a, s, free as int) == rocks(a, s, p as int),
                decreases p - free,
            {
                free += 1;
            }
            out.set(free, ROUND);
            assert(is_slot(a[free as int]));
            free += 1;
        }
        p += 1;
    }
    proof {
        assert forall|q: int| 0 <= q < n implies out@[q] == tilted_at(a, q) by {
            if s <= q {
                lemma_seg_start(a, s, q);
                lemma_seg_end(a, q, n as int);
                if q < free {
                    lemma_slots_monotone(a, s, q, free as int);
                } else {
                    lemma_slots_monotone(a, s, free as int, q);
                }
            }
        }
        assert(out@ =~= tilted(a));
    }
    out
}

/// The platform: rows of cells, the north edge first.
pub struct Pattern {
    pub pattern: Vec<Vec<u8>>,
}

impl View for Pattern {
    type V = Seq<Seq<u8>>;

    open spec fn view(&self) -> Seq<Seq<u8>> {
        self.pattern.deep_view()
    }
}

/// A quarter turn swaps the sides of a rectangle.
pub proof fn lemma_rotated_rectangular(p: Seq<Seq<u8>>)
    requires
        rectangular(p),
    ensures
        rectangular(rotated(p)),
        rectangular(rotated_back(p)),
        rotated(p).len() == p[0].len(),
        rotated(p)[0].len() == p.len(),
{
}

/// A tilt keeps the sides of a rectangle.
pub proof fn lemma_tilted_rectangular(p: Seq<Seq<u8>>)
    requires
        rectangular(p),
    ensures
        rectangular(tilted_up(p)),
        tilted_up(p).len() == p.len(),
        tilted_up(p)[0].len() == p[0].len(),
{
}

/// A spin cycle keeps the sides of a rectangle.
pub proof fn lemma_cycled_rectangular(p: Seq<Seq<u8>>)
    requires
        rectangular(p),
    ensures
        rectangular(cycled(p)),
{
    lemma_tilted_rectangular(p);
    lemma_rotated_rectangular(tilted_up(p));
    let a = spun(p);
    lemma_tilted_rectangular(a);
    lemma_rotated_rectangular(tilted_up(a));
    let b = spun(a);
    lemma_tilted_rectangular(b);
    lemma_rotated_rectangular(tilted_up(b));
    let c = spun(b);
    lemma_tilted_rectangular(c);
    lemma_rotated_rectangular(tilted_up(c));
}

/// The load of `n` rows stays below `n` times the square of the largest
/// side.
proof fn lemma_load_bound(p: Seq<Seq<u8>>, n: int)
    requires
        rectangular(p),
        0 <= n <= p.len(),
    ensures
        0 <= load_upto(p, n) <= n * (4294836225),
    decreases n,
{
    if n > 0 {
        lemma_load_bound(p, n - 1);
        let row = p[n - 1];
        assert(row.len() == p[0].len());
        lemma_rocks_bound(row, 0, row.len() as int);
        let k = rocks(row, 0, row.len() as int);
        let d = p.len() - (n - 1);
        assert(0 <= k * d <= 4294836225) by (nonlinear_arith)
            requires
                0 <= k <= 65535,
                0 <= d <= 65535,
        ;
    }
}

/// Number of round rocks in `line`.
pub fn count_round(line: &Vec<u8>) -> (k: usize)
    ensures
        k == rocks(line@, 0, line@.len() as int),
        k <= line@.len(),
{
    let mut k: usize = 0;
    let mut i: usize = 0;
    while i < line.len()
        invariant
            i <= line@.len(),
            k == rocks(line@, 0, i as int),
            k <= i,
        decreases line@.len() - i,
    {
        if line[i] == ROUND {
            k += 1;
        }
        i += 1;
    }
    k
}

/// Continues the fingerprint `h` with the bytes of `line`.
pub fn print_line(h: u64, line: &Vec<u8>) -> (r: u64)
    ensures
        r == line_print(h, line@, line@.len() as int),
{
    let mut acc = h;
    let mut i: usize = 0;
    while i < line.len()
        invariant
            i <= line@.len(),
            acc == line_print(h, line@, i as int),
        decreases line@.len() - i,
    {
        acc = stir(acc, line[i]);
        i += 1;
    }
    acc
}

/// One step of the fingerprint.
pub fn stir(h: u64, b: u8) -> (r: u64)
    ensures
        r == mix(h, b),
{
    let wide: u128 = (h as u128) * 31 + (b as u128) + 1;
    (wide % (PRINT_MOD as u128)) as u64
}

impl Pattern {
    /// The platform turned a quarter clockwise.
    pub fn rotate(&self) -> (r: Pattern)
        requires
            rectangular(self@),
        ensures
            r@ == rotated(self@),
    {
        let h = self.pattern.len();
        let w = self.pattern[0].len();
        let ghost p = self@;
        let mut result: Vec<Vec<u8>> = Vec::new();
        let mut col: usize = 0;
        while col < w
            invariant
                col <= w,
                p == self@,
                rectangular(p),
                h == p.len(),
                w == p[0].len(),
                result@.len() == col,
                forall|i: int| 0 <= i < col ==> (#[trigger] result@[i])@ == rotated(p)[i],
            decreases w - col,
        {
            let mut line: Vec<u8> = Vec::new();
            let mut j: usize = 0;
            while j < h
                invariant
                    j <= h,
                    col < w,
                    p == self@,
                    rectangular(p),
                    h == p.len(),
                    w == p[0].len(),
                    line@.len() == j,
                    forall|k: int| 0 <= k < j ==> line@[k] == p[h - 1 - k][col as int],
                decreases h - j,
            {
                let row = &self.pattern[h - 1 - j];
                assert(p[h - 1 - j] =~= row@);
                assert(p[h - 1 - j].len() == w);
                line.push(row[col]);
                j += 1;
            }
            assert(line@ =~= rotated(p)[col as int]);
            result.push(line);
            col += 1;
        }
        let r = Pattern { pattern: result };
        assert(r@ =~= rotated(p)) by {
            assert forall|i: int| 0 <= i < r@.len() implies r@[i] == rotated(p)[i] by {
                assert(r@[i] =~= result@[i]@);
            }
        }
        r
    }

    /// The platform turned a quarter counter-clockwise.
    pub fn rotate_rev(&self) -> (r: Pattern)
        requires
            rectangular(self@),
        ensures
            r@ == rotated_back(self@),
    {
        let h = self.pattern.len();
        let w = self.pattern[0].len();
        let ghost p = self@;
        let mut result: Vec<Vec<u8>> = Vec::new();
        let mut i: usize = 0;
        while i < w
            invariant
                i <= w,
                p == self@,
                rectangular(p),
                h == p.len(),
                w == p[0].len(),
                result@.len() == i,
                forall|k: int| 0 <= k < i ==> (#[trigger] result@[k])@ == rotated_back(p)[k],
            decreases w - i,
        {
            let col = w - 1 - i;
            let mut line: Vec<u8> = Vec::new();
            let mut j: usize = 0;
            while j < h
                invariant
                    j <= h,
                    col < w,
                    p == self@,
                    rectangular(p),
                    h == p.len(),
                    w == p[0].len(),
                    line@.len() == j,
                    forall|k: int| 0 <= k < j ==> line@[k] == p[k][col as int],
                decreases h - j,
            {
                let row = &self.pattern[j];
                assert(p[j as int] =~= row@);
                assert(p[j as int].len() == w);
                line.push(row[col]);
                j += 1;
            }
            assert(line@ =~= rotated_back(p)[i as int]);
            result.push(line);
            i += 1;
        }
        let r = Pattern { pattern: result };
        assert(r@ =~= rotated_back(p)) by {
            assert forall|k: int| 0 <= k < r@.len() implies r@[k] == rotated_back(p)[k] by {
                assert(r@[k] =~= result@[k]@);
            }
        }
        r
    }

    /// The load on the north beam.
    pub fn get_weight(&self) -> (r: u64)
        requires
            rectangular(self@),
        ensures
            r == weight(self@),
    {
        let h = self.pattern.len();
        let ghost p = self@;
        let mut total: u64 = 0;
        let mut i: usize = 0;
        while i < h
            invariant
                i <= h,
                p == self@,
                rectangular(p),
                h == p.len(),
                total == load_upto(p, i as int),
            decreases h - i,
        {
            let row = &self.pattern[i];
            assert(p[i as int] =~= row@);
            let k = count_round(row);
            proof {
                assert(p[i as int].len() == p[0].len());
                lemma_load_bound(p, i as int);
                lemma_load_bound(p, i as int + 1);
                let d = h - i;
                assert(0 <= k * d <= 4294836225) by (nonlinear_arith)
                    requires
                        0 <= k <= 65535,
                        0 <= d <= 65535,
                ;
            }
            total = total + (k as u64) * ((h - i) as u64);
            i += 1;
        }
        total
    }

    /// The platform after a tilt to the north.
    pub fn tilt_up(&self) -> (r: Pattern)
        requires
            rectangular(self@),
        ensures
            r@ == tilted_up(self@),
    {
        let ghost p = self@;
        let turned = self.rotate_rev();
        proof {
            lemma_rotated_rectangular(p);
        }
        let n = turned.pattern.len();
        let mut lines: Vec<Vec<u8>> = Vec::new();
        let mut i: usize = 0;
        while i < n
            invariant
                i <= n,
                n == turned.pattern@.len(),
                turned@ == rotated_back(p),
                rectangular(p),
                n == p[0].len(),
                lines@.len() == i,
                forall|k: int|
                    0 <= k < i ==> (#[trigger] lines@[k])@ == tilted(column(p, p[0].len() - 1 - k)),
            decreases n - i,
        {
            let row = &turned.pattern[i];
            assert(turned@[i as int] =~= row@);
            assert(row@ =~= column(p, p[0].len() - 1 - i));
            lines.push(tilt_line(row));
            i += 1;
        }
        let mid = Pattern { pattern: lines };
        proof {
            assert(mid@.len() == p[0].len());
            assert forall|k: int| 0 <= k < mid@.len() implies (#[trigger] mid@[k]) == tilted(
                column(p, p[0].len() - 1 - k),
            ) by {
                assert(mid@[k] =~= lines@[k]@);
            }
            assert(rectangular(mid@));
        }
        let r = mid.rotate();
        proof {
            assert(r@ =~= tilted_up(p)) by {
                assert(r@.len() == p.len());
                assert forall|y: int| 0 <= y < p.len() implies r@[y] =~= tilted_up(p)[y] by {
                    assert forall|x: int| 0 <= x < p[0].len() implies r@[y][x] == tilted_up(
                        p,
                    )[y][x] by {
                        let k = p[0].len() - 1 - x;
                        assert(mid@[k] == tilted(column(p, p[0].len() - 1 - k)));
                    }
                }
            }
        }
        r
    }

    /// The platform after one spin cycle.
    pub fn cycle(&self) -> (r: Pattern)
        requires
            rectangular(self@),
        ensures
            r@ == cycled(self@),
    {
        let ghost p = self@;
        proof {
            lemma_tilted_rectangular(p);
            lemma_rotated_rectangular(tilted_up(p));
            lemma_tilted_rectangular(spun(p));
            lemma_rotated_rectangular(tilted_up(spun(p)));
            lemma_tilted_rectangular(spun(spun(p)));
            lemma_rotated_rectangular(tilted_up(spun(spun(p))));
            lemma_tilted_rectangular(spun(spun(spun(p))));
        }
        let a = self.tilt_up().rotate();
        let b = a.tilt_up().rotate();
        let c = b.tilt_up().rotate();
        c.tilt_up().rotate()
    }

    /// A number that equal platforms share.
    pub fn fingerprint(&self) -> (r: u64)
        ensures
            r == rows_print(self@, self@.len() as int),
    {
        let mut acc: u64 = 0;
        let mut i: usize = 0;
        while i < self.pattern.len()
            invariant
                i <= self.pattern@.len(),
                acc == rows_print(self@, i as int),
            decreases self.pattern@.len() - i,
        {
            let row = &self.pattern[i];
            assert(self@[i as int] =~= row@);
            acc = stir(print_line(acc, row), 10);
            i += 1;
        }
        acc
    }

    /// The load on the north beam after `cycle_amount` spin cycles.
    pub fn get_weight_after_cycles(&self, cycle_amount: usize) -> (r: u64)
        requires
            rectangular(self@),
        ensures
            r == weight(state_after(&Platform, self@, cycle_amount as nat)),
    {
        let first = Pattern { pattern: copy_rows(&self.pattern) };
        proof {
            crate::period::lemma_states_valid(&Platform, self@, cycle_amount as nat);
        }
        match detect_period_and_project(&Platform, first, cycle_amount, cycle_amount) {
            Ok(p) => p.get_weight(),
            Err(_) => 0,
        }
    }
}

/// The platform as a simulation whose step is one spin cycle.
pub struct Platform;

impl Simulation for Platform {
    type State = Pattern;

    open spec fn valid(&self, s: Seq<Seq<u8>>) -> bool {
        rectangular(s)
    }

    open spec fn step_of(&self, s: Seq<Seq<u8>>) -> Seq<Seq<u8>> {
        cycled(s)
    }

    open spec fn fingerprint_of(&self, s: Seq<Seq<u8>>) -> u64 {
        rows_print(s, s.len() as int)
    }

    proof fn lemma_step_valid(&self, s: Seq<Seq<u8>>) {
        lemma_cycled_rectangular(s);
    }

    fn step(&self, s: &Pattern) -> (t: Pattern) {
        s.cycle()
    }

    fn fingerprint(&self, s: &Pattern) -> (k: u64) {
        s.fingerprint()
    }

    fn same(&self, a: &Pattern, b: &Pattern) -> (r: bool) {
        rows_equal(&a.pattern, &b.pattern)
    }

    fn duplicate(&self, s: &Pattern) -> (t: Pattern) {
        Pattern { pattern: copy_rows(&s.pattern) }
    }
}

/// The load on the north beam after a tilt to the north of the platform
/// written in `input`; `None` where the text is no rectangle.
pub fn part_one(input: &str) -> (r: Option<u64>)
    ensures
        match r {
            Some(load) => rectangular(lines_of(input.spec_bytes())) && load == weight(
                tilted_up(lines_of(input.spec_bytes())),
            ),
            None => !rectangular(lines_of(input.spec_bytes())),
        },
{
    let pattern = Pattern { pattern: split_lines(input.as_bytes()) };
    if !is_rectangle(&pattern.pattern) {
        return None;
    }
    proof {
        lemma_tilted_rectangular(pattern@);
    }
    Some(pattern.tilt_up().get_weight())
}

/// The number of spin cycles asked for.
pub const CYCLES: usize = 1000000000;

/// The load on the north beam after a billion spin cycles of the platform
/// written in `input`; `None` where the text is no rectangle.
pub fn part_two(input: &str) -> (r: Option<u64>)
    ensures
        match r {
            Some(load) => rectangular(lines_of(input.spec_bytes())) && load == weight(
                state_after(&Platform, lines_of(input.spec_bytes()), CYCLES as nat),
            ),
            None => !rectangular(lines_of(input.spec_bytes())),
        },
{
    let pattern = Pattern { pattern: split_lines(input.as_bytes()) };
    if !is_rectangle(&pattern.pattern) {
        return None;
    }
    Some(pattern.get_weight_after_cycles(CYCLES))
}

/// Whether `rows` is a rectangle of an admissible size.
pub fn is_rectangle(rows: &Vec<Vec<u8>>) -> (r: bool)
    ensures
        r == rectangular(rows.deep_view()),
{
    let h = rows.len();
    if h == 0 || h > MAX_DIM {
        return false;
    }
    let w = rows[0].len();
    assert(rows.deep_view()[0] =~= rows@[0]@);
    if w == 0 || w > MAX_DIM {
        return false;
    }
    let mut y: usize = 1;
    while y < h
        invariant
            1 <= y <= h,
            h == rows@.len(),
            w == rows@[0]@.len(),
            forall|k: int| 0 <= k < y ==> (#[trigger] rows@[k])@.len() == w,
        decreases h - y,
    {
        if rows[y].len() != w {
            assert(rows.deep_view()[y as int] =~= rows@[y as int]@);
            return false;
        }
        y += 1;
    }
    assert forall|k: int| 0 <= k < rows.deep_view().len() implies (#[trigger] rows.deep_view()[k]).len()
        == rows.deep_view()[0].len() by {
        assert(rows.deep_view()[k] =~= rows@[k]@);
    }
    true
}

} // verus!
