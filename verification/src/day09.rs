//! Mirage maintenance: each history of readings is continued by one
//! value, found from the rows of differences below it.

use crate::text::{fields_of, lines_of, parse_i64, signed_text, split_fields, split_lines};
use crate::tuples::{chain_pairs, window_pairs};
use vstd::prelude::*;
use vstd::string::StringSliceAdditionalSpecFns;

verus! {

/// Whether `s` holds zeros only.
pub open spec fn all_zero(s: Seq<i64>) -> bool {
    forall|k: int| 0 <= k < s.len() ==> #[trigger] s[k] == 0
}

/// Whether each value of `s` differs from the one before it by a number
/// that fits 64 bits.
pub open spec fn steps_fit(s: Seq<i64>) -> bool {
    forall|k: int| 0 <= k < s.len() - 1 ==> i64::MIN <= #[trigger] s[k + 1] - s[k] <= i64::MAX
}

/// The row below `s`: each value less the one before it.
pub open spec fn differences(s: Seq<i64>) -> Seq<i64> {
    Seq::new(
        if s.len() == 0 {
            0
        } else {
            (s.len() - 1) as nat
        },
        |k: int| (s[k + 1] - s[k]) as i64,
    )
}

/// Whether the rows of differences below `s` can be written down: every
/// difference fits 64 bits, and the rows reach a row of zeros that is not
/// empty.
pub open spec fn settles(s: Seq<i64>) -> bool
    decreases s.len(),
{
    if s.len() == 0 {
        false
    } else if all_zero(s) {
        true
    } else {
        steps_fit(s) && settles(differences(s))
    }
}

/// The value that continues `s`: its last value and the one that
/// continues the row below, and zero for a row of zeros.
pub open spec fn continued(s: Seq<i64>) -> int
    decreases s.len(),
{
    if s.len() == 0 || all_zero(s) {
        0
    } else {
        s.last() + continued(differences(s))
    }
}

/// Whether the value that continues `s`, and those that continue the
/// rows below it, fit 64 bits.
pub open spec fn sums_fit(s: Seq<i64>) -> bool
    decreases s.len(),
{
    if s.len() == 0 || all_zero(s) {
        true
    } else {
        sums_fit(differences(s)) && i64::MIN <= continued(s) <= i64::MAX
    }
}

/// Whether `row` holds zeros only.
pub fn zeros(row: &Vec<i64>) -> (r: bool)
    ensures
        r == all_zero(row@),
{
    let mut k: usize = 0;
    while k < row.len()
        invariant
            k <= row@.len(),
            forall|j: int| 0 <= j < k ==> #[trigger] row@[j] == 0,
        decreases row@.len() - k,
    {
        if row[k] != 0 {
            return false;
        }
        k += 1;
    }
    true
}

/// The row below `row`, or `None` where a difference does not fit 64
/// bits.
pub fn below(row: &Vec<i64>) -> (r: Option<Vec<i64>>)
    ensures
        match r {
            Some(d) => steps_fit(row@) && d@ == differences(row@),
            None => !steps_fit(row@),
        },
{
    let pairs = window_pairs(row);
    let mut out: Vec<i64> = Vec::new();
    let mut k: usize = 0;
    while k < pairs.len()
        invariant
            k <= pairs@.len(),
            pairs@ == chain_pairs(row@),
            out@.len() == k,
            forall|j: int| 0 <= j < k ==> i64::MIN <= #[trigger] row@[j + 1] - row@[j] <= i64::MAX,
            forall|j: int| 0 <= j < k ==> #[trigger] out@[j] == (row@[j + 1] - row@[j]) as i64,
        decreases pairs@.len() - k,
    {
        let (first, second) = pairs[k];
        assert(first == row@[k as int] && second == row@[k + 1]);
        match second.checked_sub(first) {
            Some(d) => {
                out.push(d);
            },
            None => {
                return None;
            },
        }
        k += 1;
    }
    assert(out@ =~= differences(row@));
    Some(out)
}

/// The value that continues `history`; `None` where the rows of
/// differences cannot be written down or the value does not fit 64 bits.
pub fn extrapolate(history: &Vec<i64>) -> (r: Option<i64>)
    ensures
        match r {
            Some(v) => settles(history@) && sums_fit(history@) && v == continued(history@),
            None => !settles(history@) || !sums_fit(history@),
        },
    decreases history@.len(),
{
    if history.len() == 0 {
        return None;
    }
    if zeros(history) {
        return Some(0);
    }
    let next = match below(history) {
        Some(d) => d,
        None => {
            return None;
        },
    };
    match extrapolate(&next) {
        Some(v) => history[history.len() - 1].checked_add(v),
        None => None,
    }
}

/// `s` read from its end.
pub open spec fn turned(s: Seq<i64>) -> Seq<i64> {
    Seq::new(s.len(), |k: int| s[s.len() - 1 - k])
}

/// The readings that the words `f` write, if each writes a number that
/// fits 64 bits.
pub open spec fn readings_of(f: Seq<Seq<u8>>) -> Option<Seq<i64>> {
    if forall|k: int|
        0 <= k < f.len() ==> (#[trigger] signed_text(f[k])) is Some && i64::MIN <= signed_text(
            f[k],
        )->Some_0 <= i64::MAX {
        Some(Seq::new(f.len(), |k: int| signed_text(f[k])->Some_0 as i64))
    } else {
        None
    }
}

/// The value that continues the history written on `line`, read from its
/// end where `backwards` is set.
pub open spec fn line_value(line: Seq<u8>, backwards: bool) -> Option<i64> {
    match readings_of(fields_of(line)) {
        Some(h) => {
            let history = if backwards {
                turned(h)
            } else {
                h
            };
            if settles(history) && sums_fit(history) {
                Some(continued(history) as i64)
            } else {
                None
            }
        },
        None => None,
    }
}

/// The sum of the values that continue the histories on the first `upto`
/// of `lines`, as far as every line has one and the sums fit 64 bits.
pub open spec fn report(lines: Seq<Seq<u8>>, backwards: bool, upto: int) -> Option<i64>
    decreases upto,
{
    if upto <= 0 {
        Some(0)
    } else {
        match (report(lines, backwards, upto - 1), line_value(lines[upto - 1], backwards)) {
            (Some(a), Some(b)) => if i64::MIN <= a + b <= i64::MAX {
                Some((a + b) as i64)
            } else {
                None
            },
            _ => None,
        }
    }
}

/// The readings that the words of `line` write.
pub fn read_history(line: &[u8]) -> (r: Option<Vec<i64>>)
    ensures
        match r {
            Some(h) => readings_of(fields_of(line@)) == Some(h@),
            None => readings_of(fields_of(line@)) is None,
        },
{
    let f = split_fields(line);
    let ghost model = f.deep_view();
    let mut out: Vec<i64> = Vec::new();
    let mut k: usize = 0;
    while k < f.len()
        invariant
            k <= f@.len(),
            model == f.deep_view(),
            model == fields_of(line@),
            out@.len() == k,
            forall|j: int|
                0 <= j < k ==> (#[trigger] signed_text(model[j])) is Some && i64::MIN
                    <= signed_text(model[j])->Some_0 <= i64::MAX,
            forall|j: int| 0 <= j < k ==> #[trigger] out@[j] == signed_text(model[j])->Some_0 as i64,
        decreases f@.len() - k,
    {
        assert(model[k as int] =~= f@[k as int]@);
        match parse_i64(f[k].as_slice()) {
            Some(v) => {
                out.push(v);
            },
            None => {
                assert(!((signed_text(model[k as int])) is Some && i64::MIN <= signed_text(
                    model[k as int],
                )->Some_0 <= i64::MAX));
                return None;
            },
        }
        k += 1;
    }
    assert(out@ =~= Seq::new(model.len(), |j: int| signed_text(model[j])->Some_0 as i64));
    Some(out)
}

/// `row` read from its end.
pub fn turn(row: &Vec<i64>) -> (r: Vec<i64>)
    ensures
        r@ == turned(row@),
{
    let n = row.len();
    let mut out: Vec<i64> = Vec::new();
    let mut k: usize = 0;
    while k < n
        invariant
            k <= n,
            n == row@.len(),
            out@.len() == k,
            forall|j: int| 0 <= j < k ==> #[trigger] out@[j] == row@[n - 1 - j],
        decreases n - k,
    {
        out.push(row[n - 1 - k]);
        k += 1;
    }
    assert(out@ =~= turned(row@));
    out
}

/// The sum of the values that continue the histories written in `bytes`,
/// line by line.
pub fn sum_up(bytes: &[u8], backwards: bool) -> (r: Option<i64>)
    ensures
        r == report(lines_of(bytes@), backwards, lines_of(bytes@).len() as int),
{
    let lines = split_lines(bytes);
    let ghost model = lines.deep_view();
    let mut total: i64 = 0;
    let mut k: usize = 0;
    while k < lines.len()
        invariant
            k <= lines@.len(),
            model == lines.deep_view(),
            model == lines_of(bytes@),
            report(model, backwards, k as int) == Some(total),
        decreases lines@.len() - k,
    {
        assert(model[k as int] =~= lines@[k as int]@);
        let value = match read_history(lines[k].as_slice()) {
            Some(h) => if backwards {
                extrapolate(&turn(&h))
            } else {
                extrapolate(&h)
            },
            None => None,
        };
        assert(value == line_value(model[k as int], backwards));
        let next = match value {
            Some(v) => total.checked_add(v),
            None => None,
        };
        match next {
            Some(t) => {
                total = t;
            },
            None => {
                proof {
                    assert(report(model, backwards, k + 1) is None);
                    lemma_report_lost(model, backwards, k + 1, model.len() as int);
                }
                return None;
            },
        }
        k += 1;
    }
    Some(total)
}

/// Once the sum is lost it stays lost.
pub proof fn lemma_report_lost(lines: Seq<Seq<u8>>, backwards: bool, a: int, b: int)
    requires
        report(lines, backwards, a) is None,
        a <= b,
    ensures
        report(lines, backwards, b) is None,
    decreases b - a,
{
    if a < b {
        lemma_report_lost(lines, backwards, a, b - 1);
    }
}

/// `v` cut to 32 bits.
pub fn low_bits(v: i64) -> (r: u32)
    ensures
        r == v % 0x1_0000_0000,
{
    let m = (v as i128) % 0x1_0000_0000;
    let lifted = if m < 0 {
        m + 0x1_0000_0000
    } else {
        m
    };
    lifted as u32
}

/// The sum of the values that continue each history of `input`, cut to
/// 32 bits.
pub fn part_one(input: &str) -> (r: Option<u32>)
    ensures
        r == match report(
            lines_of(input.spec_bytes()),
            false,
            lines_of(input.spec_bytes()).len() as int,
        ) {
            Some(v) => Some((v % 0x1_0000_0000) as u32),
            None => None,
        },
{
    match sum_up(input.as_bytes(), false) {
        Some(v) => Some(low_bits(v)),
        None => None,
    }
}

/// The sum of the values that precede each history of `input`, cut to 32
/// bits.
pub fn part_two(input: &str) -> (r: Option<u32>)
    ensures
        r == match report(
            lines_of(input.spec_bytes()),
            true,
            lines_of(input.spec_bytes()).len() as int,
        ) {
            Some(v) => Some((v % 0x1_0000_0000) as u32),
            None => None,
        },
{
    match sum_up(input.as_bytes(), true) {
        Some(v) => Some(low_bits(v)),
        None => None,
    }
}

} // verus!
