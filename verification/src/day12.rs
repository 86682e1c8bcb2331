//! Hot springs: in how many ways the unknown springs of a row can be
//! damaged or working so that the runs of damaged springs have the
//! lengths on record.

use crate::text::{
    lines_of, parse_u64, parts_of, split_by, split_lines, split_once, split_once_of, unsigned_text,
};
use vstd::prelude::*;
use vstd::string::StringSliceAdditionalSpecFns;

verus! {

/// A working spring.
pub const WORKING: u8 = 46;

/// A damaged spring.
pub const DAMAGED: u8 = 35;

/// A spring of unknown condition.
pub const UNKNOWN: u8 = 63;

/// In how many ways the springs from place `i` on can be damaged or
/// working so that their runs of damaged springs, with `c` damaged
/// springs just before place `i`, have the lengths `groups[j..]`.
pub open spec fn ways(springs: Seq<u8>, groups: Seq<u64>, i: int, j: int, c: int) -> int
    decreases springs.len() - i,
{
    if i >= springs.len() {
        if c == 0 && j >= groups.len() {
            1
        } else if j == groups.len() - 1 && groups[j] == c {
            1
        } else {
            0
        }
    } else if c != 0 && j >= groups.len() {
        0
    } else {
        let stop = if c == 0 {
            ways(springs, groups, i + 1, j, 0)
        } else if c != groups[j] {
            0
        } else {
            ways(springs, groups, i + 1, j + 1, 0)
        };
        let grow = ways(springs, groups, i + 1, j, c + 1);
        if springs[i] == WORKING {
            stop
        } else if springs[i] == DAMAGED {
            grow
        } else if c == 0 {
            stop + grow
        } else if c == groups[j] {
            stop
        } else {
            grow
        }
    }
}

/// No count is negative.
pub proof fn lemma_ways_sign(springs: Seq<u8>, groups: Seq<u64>, i: int, j: int, c: int)
    ensures
        ways(springs, groups, i, j, c) >= 0,
    decreases springs.len() - i,
{
    if i < springs.len() {
        lemma_ways_sign(springs, groups, i + 1, j, 0);
        lemma_ways_sign(springs, groups, i + 1, j + 1, 0);
        lemma_ways_sign(springs, groups, i + 1, j, c + 1);
    }
}

/// A count as far as it fits 64 bits.
pub open spec fn fitted(v: int) -> Option<u64> {
    if 0 <= v <= u64::MAX {
        Some(v as u64)
    } else {
        None
    }
}

/// The sum of two counts as far as it fits 64 bits.
pub fn add_counts(a: Option<u64>, b: Option<u64>) -> (r: Option<u64>)
    ensures
        forall|x: int, y: int|
            x >= 0 && y >= 0 && a == fitted(x) && b == fitted(y) ==> r == #[trigger] fitted(x + y),
{
    match (a, b) {
        (Some(x), Some(y)) => x.checked_add(y),
        _ => None,
    }
}

/// Whether `table` holds the counts for place `i`: in row `j`, place
/// `c`, the count for group `j` and a run of `c`, for every run that can
/// have built up before place `i`.
pub open spec fn level_ok(
    table: Seq<Seq<Option<u64>>>,
    springs: Seq<u8>,
    groups: Seq<u64>,
    i: int,
) -> bool {
    &&& table.len() == groups.len() + 1
    &&& forall|j: int| 0 <= j < table.len() ==> (#[trigger] table[j]).len() == i + 1
    &&& forall|j: int, c: int|
        0 <= j <= groups.len() && 0 <= c <= i ==> #[trigger] table[j][c] == fitted(
            ways(springs, groups, i, j, c),
        )
}

/// The model of a table of counts.
pub open spec fn table_view(table: &Vec<Vec<Option<u64>>>) -> Seq<Seq<Option<u64>>> {
    Seq::new(table@.len(), |j: int| table@[j]@)
}

/// The counts for the place behind the last spring.
pub fn last_level(springs: &Vec<u8>, groups: &Vec<u64>) -> (r: Vec<Vec<Option<u64>>>)
    requires
        springs@.len() < usize::MAX,
        groups@.len() < usize::MAX,
    ensures
        level_ok(table_view(&r), springs@, groups@, springs@.len() as int),
{
    let n = springs.len();
    let g = groups.len();
    let mut table: Vec<Vec<Option<u64>>> = Vec::new();
    let mut j: usize = 0;
    while j <= g
        invariant
            j <= g + 1,
            n == springs@.len(),
            g == groups@.len(),
            n < usize::MAX,
            g < usize::MAX,
            table@.len() == j,
            forall|a: int| 0 <= a < j ==> (#[trigger] table@[a])@.len() == n + 1,
            forall|a: int, c: int|
                0 <= a < j && 0 <= c <= n ==> #[trigger] table@[a]@[c] == fitted(
                    ways(springs@, groups@, n as int, a, c),
                ),
        decreases g + 1 - j,
    {
        let mut row: Vec<Option<u64>> = Vec::new();
        let mut c: usize = 0;
        while c <= n
            invariant
                c <= n + 1,
                j <= g,
                n == springs@.len(),
                g == groups@.len(),
                n < usize::MAX,
                g < usize::MAX,
                row@.len() == c,
                forall|b: int|
                    0 <= b < c ==> #[trigger] row@[b] == fitted(
                        ways(springs@, groups@, n as int, j as int, b),
                    ),
            decreases n + 1 - c,
        {
            let one = (c == 0 && j >= g) || (j + 1 == g && groups[j] == c as u64);
            row.push(if one {
                Some(1)
            } else {
                Some(0)
            });
            c += 1;
        }
        table.push(row);
        j += 1;
    }
    table
}

/// The counts for place `i`, from those for the place after it.
pub fn level_before(
    springs: &Vec<u8>,
    groups: &Vec<u64>,
    after: &Vec<Vec<Option<u64>>>,
    i: usize,
) -> (r: Vec<Vec<Option<u64>>>)
    requires
        i < springs@.len(),
        groups@.len() < usize::MAX,
        level_ok(table_view(after), springs@, groups@, i + 1),
    ensures
        level_ok(table_view(&r), springs@, groups@, i as int),
{
    let g = groups.len();
    let sym = springs[i];
    assert(i < springs.len());
    let ghost next = table_view(after);
    let mut table: Vec<Vec<Option<u64>>> = Vec::new();
    let mut j: usize = 0;
    while j <= g
        invariant
            j <= g + 1,
            g == groups@.len(),
            g < usize::MAX,
            i < springs@.len(),
            i < usize::MAX,
            sym == springs@[i as int],
            next == table_view(after),
            level_ok(next, springs@, groups@, i + 1),
            table@.len() == j,
            forall|a: int| 0 <= a < j ==> (#[trigger] table@[a])@.len() == i + 1,
            forall|a: int, c: int|
                0 <= a < j && 0 <= c <= i ==> #[trigger] table@[a]@[c] == fitted(
                    ways(springs@, groups@, i as int, a, c),
                ),
        decreases g + 1 - j,
    {
        let mut row: Vec<Option<u64>> = Vec::new();
        let mut c: usize = 0;
        while c <= i
            invariant
                c <= i + 1,
                j <= g,
                g == groups@.len(),
                g < usize::MAX,
                i < springs@.len(),
                i < usize::MAX,
                sym == springs@[i as int],
                next == table_view(after),
                level_ok(next, springs@, groups@, i + 1),
                row@.len() == c,
                forall|b: int|
                    0 <= b < c ==> #[trigger] row@[b] == fitted(
                        ways(springs@, groups@, i as int, j as int, b),
                    ),
            decreases i + 1 - c,
        {
            proof {
                lemma_ways_sign(springs@, groups@, i + 1, j as int, 0);
                lemma_ways_sign(springs@, groups@, i + 1, j + 1, 0);
                lemma_ways_sign(springs@, groups@, i + 1, j as int, c + 1);
                assert(next[j as int] == after@[j as int]@);
                assert(next[j as int][0] == fitted(ways(springs@, groups@, i + 1, j as int, 0)));
                assert(next[j as int][c + 1] == fitted(
                    ways(springs@, groups@, i + 1, j as int, c + 1),
                ));
                if j < g {
                    assert(next[j + 1] == after@[j + 1]@);
                    assert(next[j + 1][0] == fitted(ways(springs@, groups@, i + 1, j + 1, 0)));
                }
            }
            let value: Option<u64> = if c != 0 && j >= g {
                Some(0)
            } else {
                let stop: Option<u64> = if c == 0 {
                    after[j][0]
                } else if c as u64 != groups[j] {
                    Some(0)
                } else {
                    after[j + 1][0]
                };
                let grow: Option<u64> = after[j][c + 1];
                if sym == WORKING {
                    stop
                } else if sym == DAMAGED {
                    grow
                } else if c == 0 {
                    add_counts(stop, grow)
                } else if c as u64 == groups[j] {
                    stop
                } else {
                    grow
                }
            };
            row.push(value);
            c += 1;
        }
        table.push(row);
        j += 1;
    }
    table
}

/// In how many ways the unknown springs of `springs` can be damaged or
/// working so that the runs of damaged springs have the lengths
/// `groups`; `None` where the number exceeds 64 bits.
pub fn arrangements(springs: &Vec<u8>, groups: &Vec<u64>) -> (r: Option<u64>)
    requires
        springs@.len() < usize::MAX,
        groups@.len() < usize::MAX,
    ensures
        r == fitted(ways(springs@, groups@, 0, 0, 0)),
{
    let mut table = last_level(springs, groups);
    let mut i: usize = springs.len();
    while i > 0
        invariant
            i <= springs@.len(),
            groups@.len() < usize::MAX,
            level_ok(table_view(&table), springs@, groups@, i as int),
        decreases i,
    {
        i -= 1;
        table = level_before(springs, groups, &table, i);
    }
    assert(table_view(&table)[0] == table@[0]@);
    table[0][0]
}

/// Whether every byte of `springs` is a spring.
pub open spec fn springs_ok(springs: Seq<u8>) -> bool {
    forall|k: int|
        0 <= k < springs.len() ==> #[trigger] springs[k] == WORKING || springs[k] == DAMAGED
            || springs[k] == UNKNOWN
}

/// The lengths that the words `f` write, if each writes a number that
/// fits 64 bits.
pub open spec fn lengths_of(f: Seq<Seq<u8>>) -> Option<Seq<u64>> {
    if forall|k: int|
        0 <= k < f.len() ==> (#[trigger] unsigned_text(f[k])) is Some && unsigned_text(f[k])->Some_0
            <= u64::MAX {
        Some(Seq::new(f.len(), |k: int| unsigned_text(f[k])->Some_0 as u64))
    } else {
        None
    }
}

/// `springs` written `times` times with an unknown spring between two
/// copies.
pub open spec fn springs_times(springs: Seq<u8>, times: nat) -> Seq<u8>
    decreases times,
{
    if times == 0 {
        Seq::empty()
    } else if times == 1 {
        springs
    } else {
        springs_times(springs, (times - 1) as nat).push(UNKNOWN) + springs
    }
}

/// `groups` written `times` times.
pub open spec fn groups_times(groups: Seq<u64>, times: nat) -> Seq<u64>
    decreases times,
{
    if times == 0 {
        Seq::empty()
    } else {
        groups_times(groups, (times - 1) as nat) + groups
    }
}

/// A single space.
pub open spec fn space() -> Seq<u8> {
    seq![32u8]
}

/// A single comma.
pub open spec fn comma() -> Seq<u8> {
    seq![44u8]
}

/// The number of arrangements for the record on `line`, unfolded `times`
/// times: springs up to the first space, then the lengths of the runs of
/// damaged springs between commas. Nothing where the line has no space,
/// holds a byte that is no spring or a length that is no number, where
/// the unfolded record is too long to be held, or the number of
/// arrangements exceeds 64 bits.
pub open spec fn line_count(line: Seq<u8>, times: nat) -> Option<u64> {
    match split_once_of(line, space()) {
        Some((springs, rest)) => match lengths_of(parts_of(rest, comma())) {
            Some(groups) => if springs_ok(springs) && springs_times(springs, times).len()
                < usize::MAX && groups_times(groups, times).len() < usize::MAX {
                fitted(ways(springs_times(springs, times), groups_times(groups, times), 0, 0, 0))
            } else {
                None
            },
            None => None,
        },
        None => None,
    }
}

/// The summed arrangements for the first `upto` of `lines`.
pub open spec fn summed(lines: Seq<Seq<u8>>, times: nat, upto: int) -> Option<u64>
    decreases upto,
{
    if upto <= 0 {
        Some(0)
    } else {
        match (summed(lines, times, upto - 1), line_count(lines[upto - 1], times)) {
            (Some(a), Some(b)) => if a + b <= u64::MAX {
                Some((a + b) as u64)
            } else {
                None
            },
            _ => None,
        }
    }
}

/// Once the sum is lost it stays lost.
pub proof fn lemma_sum_lost(lines: Seq<Seq<u8>>, times: nat, a: int, b: int)
    requires
        summed(lines, times, a) is None,
        a <= b,
    ensures
        summed(lines, times, b) is None,
    decreases b - a,
{
    if a < b {
        lemma_sum_lost(lines, times, a, b - 1);
    }
}

/// Whether every byte of `springs` is a spring.
pub fn check_springs(springs: &Vec<u8>) -> (r: bool)
    ensures
        r == springs_ok(springs@),
{
    let mut k: usize = 0;
    while k < springs.len()
        invariant
            k <= springs@.len(),
            forall|j: int|
                0 <= j < k ==> #[trigger] springs@[j] == WORKING || springs@[j] == DAMAGED
                    || springs@[j] == UNKNOWN,
        decreases springs@.len() - k,
    {
        let b = springs[k];
        if !(b == WORKING || b == DAMAGED || b == UNKNOWN) {
            return false;
        }
        k += 1;
    }
    true
}

/// The lengths that `bytes` lists between commas.
pub fn read_lengths(bytes: &[u8]) -> (r: Option<Vec<u64>>)
    ensures
        match r {
            Some(v) => lengths_of(parts_of(bytes@, comma())) == Some(v@),
            None => lengths_of(parts_of(bytes@, comma())) is None,
        },
{
    let mark: [u8; 1] = [44];
    assert(mark@ =~= comma());
    let f = split_by(bytes, mark.as_slice());
    let ghost model = f.deep_view();
    let mut out: Vec<u64> = Vec::new();
    let mut k: usize = 0;
    while k < f.len()
        invariant
            k <= f@.len(),
            model == f.deep_view(),
            model == parts_of(bytes@, comma()),
            out@.len() == k,
            forall|j: int|
                0 <= j < k ==> (#[trigger] unsigned_text(model[j])) is Some && unsigned_text(
                    model[j],
                )->Some_0 <= u64::MAX,
            forall|j: int| 0 <= j < k ==> #[trigger] out@[j] == unsigned_text(model[j])->Some_0 as u64,
        decreases f@.len() - k,
    {
        assert(model[k as int] =~= f@[k as int]@);
        match parse_u64(f[k].as_slice()) {
            Some(v) => {
                out.push(v);
            },
            None => {
                assert(!(unsigned_text(model[k as int]) is Some && unsigned_text(
                    model[k as int],
                )->Some_0 <= u64::MAX));
                return None;
            },
        }
        k += 1;
    }
    assert(out@ =~= Seq::new(model.len(), |j: int| unsigned_text(model[j])->Some_0 as u64));
    Some(out)
}

/// `springs` written `times` times with an unknown spring between two
/// copies, and `groups` written `times` times; `None` where either grows
/// too long to be held.
pub fn unfold(springs: &Vec<u8>, groups: &Vec<u64>, times: u8) -> (r: Option<(Vec<u8>, Vec<u64>)>)
    ensures
        match r {
            Some((s, g)) => s@ == springs_times(springs@, times as nat) && g@ == groups_times(
                groups@,
                times as nat,
            ) && s@.len() < usize::MAX && g@.len() < usize::MAX,
            None => springs_times(springs@, times as nat).len() >= usize::MAX || groups_times(
                groups@,
                times as nat,
            ).len() >= usize::MAX,
        },
{
    let mut s: Vec<u8> = Vec::new();
    let mut g: Vec<u64> = Vec::new();
    let mut t: u8 = 0;
    while t < times
        invariant
            t <= times,
            s@ == springs_times(springs@, t as nat),
            g@ == groups_times(groups@, t as nat),
            s@.len() < usize::MAX,
            g@.len() < usize::MAX,
        decreases times - t,
    {
        let ghost s0 = s@;
        let ghost g0 = g@;
        let extra: usize = if t > 0 {
            1
        } else {
            0
        };
        if springs.len() >= usize::MAX - s.len() - extra || groups.len() >= usize::MAX - g.len() {
            proof {
                lemma_times_grow(springs@, groups@, (t + 1) as nat, times as nat);
                assert(springs_times(springs@, (t + 1) as nat).len() == s0.len() + extra
                    + springs@.len());
                assert(groups_times(groups@, (t + 1) as nat).len() == g0.len() + groups@.len());
            }
            return None;
        }
        if t > 0 {
            s.push(UNKNOWN);
        }
        let mut k: usize = 0;
        let ghost s1 = s@;
        while k < springs.len()
            invariant
                k <= springs@.len(),
                s@ == s1 + springs@.subrange(0, k as int),
                s1.len() + springs@.len() < usize::MAX,
            decreases springs@.len() - k,
        {
            s.push(springs[k]);
            assert(s@ =~= s1 + springs@.subrange(0, k + 1));
            k += 1;
        }
        let mut k: usize = 0;
        while k < groups.len()
            invariant
                k <= groups@.len(),
                g@ == g0 + groups@.subrange(0, k as int),
                g0.len() + groups@.len() < usize::MAX,
            decreases groups@.len() - k,
        {
            g.push(groups[k]);
            assert(g@ =~= g0 + groups@.subrange(0, k + 1));
            k += 1;
        }
        proof {
            assert(springs@.subrange(0, springs@.len() as int) =~= springs@);
            assert(groups@.subrange(0, groups@.len() as int) =~= groups@);
            if t == 0 {
                assert(s1 + springs@ =~= springs@);
            }
        }
        t += 1;
    }
    Some((s, g))
}

/// More copies are never shorter.
pub proof fn lemma_times_grow(springs: Seq<u8>, groups: Seq<u64>, a: nat, b: nat)
    requires
        a <= b,
    ensures
        springs_times(springs, a).len() <= springs_times(springs, b).len(),
        groups_times(groups, a).len() <= groups_times(groups, b).len(),
    decreases b - a,
{
    if a < b {
        lemma_times_grow(springs, groups, a, (b - 1) as nat);
    }
}

/// The number of arrangements for the record on `line`, unfolded `times`
/// times.
pub fn count_line(line: &[u8], times: u8) -> (r: Option<u64>)
    requires
        times >= 1,
    ensures
        r == line_count(line@, times as nat),
{
    let mark: [u8; 1] = [32];
    assert(mark@ =~= space());
    let (springs, rest) = match split_once(line, mark.as_slice()) {
        Some(p) => p,
        None => {
            return None;
        },
    };
    let groups = match read_lengths(rest.as_slice()) {
        Some(g) => g,
        None => {
            return None;
        },
    };
    if !check_springs(&springs) {
        return None;
    }
    match unfold(&springs, &groups, times) {
        Some((s, g)) => arrangements(&s, &g),
        None => None,
    }
}

/// The summed arrangements for the records written in `bytes`, each
/// unfolded `times` times.
pub fn sum_lines(bytes: &[u8], times: u8) -> (r: Option<u64>)
    requires
        times >= 1,
    ensures
        r == summed(lines_of(bytes@), times as nat, lines_of(bytes@).len() as int),
{
    let lines = split_lines(bytes);
    let ghost model = lines.deep_view();
    let mut total: u64 = 0;
    let mut k: usize = 0;
    while k < lines.len()
        invariant
            k <= lines@.len(),
            times >= 1,
            model == lines.deep_view(),
            model == lines_of(bytes@),
            summed(model, times as nat, k as int) == Some(total),
        decreases lines@.len() - k,
    {
        assert(model[k as int] =~= lines@[k as int]@);
        let next = match count_line(lines[k].as_slice(), times) {
            Some(v) => total.checked_add(v),
            None => None,
        };
        match next {
            Some(t) => {
                total = t;
            },
            None => {
                proof {
                    assert(summed(model, times as nat, k + 1) is None);
                    lemma_sum_lost(model, times as nat, k + 1, model.len() as int);
                }
                return None;
            },
        }
        k += 1;
    }
    Some(total)
}

/// The summed arrangements for the records as they are written.
pub fn part_one(input: &str) -> (r: Option<u64>)
    ensures
        r == summed(lines_of(input.spec_bytes()), 1, lines_of(input.spec_bytes()).len() as int),
{
    sum_lines(input.as_bytes(), 1)
}

/// The summed arrangements for the records unfolded five times.
pub fn part_two(input: &str) -> (r: Option<u64>)
    ensures
        r == summed(lines_of(input.spec_bytes()), 5, lines_of(input.spec_bytes()).len() as int),
{
    sum_lines(input.as_bytes(), 5)
}

} // verus!
