//! Trebuchet: the calibration value of a line is made of its first and
//! its last digit; in the second reading the digits may be spelled out.

use crate::text::{is_digit, lines_of, parts_of, split_by, split_lines};
use vstd::prelude::*;
use vstd::string::StringSliceAdditionalSpecFns;

verus! {

/// The values of the digits among the first `upto` bytes of `line`.
pub open spec fn digits_upto(line: Seq<u8>, upto: int) -> Seq<u8>
    decreases upto,
{
    if upto <= 0 {
        Seq::empty()
    } else if is_digit(line[upto - 1]) {
        digits_upto(line, upto - 1).push((line[upto - 1] - 48) as u8)
    } else {
        digits_upto(line, upto - 1)
    }
}

/// The calibration value of `line`: ten times its first digit and its
/// last digit, which may be the same one; 0 for a line without digits.
pub open spec fn calibration(line: Seq<u8>) -> int {
    let digits = digits_upto(line, line.len() as int);
    if digits.len() == 0 {
        0
    } else {
        10 * digits[0] + digits.last()
    }
}

/// The first `upto` of `parts`, with `with` between each two.
pub open spec fn glued(parts: Seq<Seq<u8>>, with: Seq<u8>, upto: int) -> Seq<u8>
    decreases upto,
{
    if upto <= 0 {
        Seq::empty()
    } else if upto == 1 {
        parts[0]
    } else {
        glued(parts, with, upto - 1) + with + parts[upto - 1]
    }
}

/// `line` with `with` in place of each occurrence of `pattern`, found
/// from left to right without overlap.
pub open spec fn replaced(line: Seq<u8>, pattern: Seq<u8>, with: Seq<u8>) -> Seq<u8> {
    glued(parts_of(line, pattern), with, parts_of(line, pattern).len() as int)
}

/// The name of the digit `d`, from 1 to 9.
pub open spec fn name_of(d: int) -> Seq<u8> {
    if d == 1 {
        seq![111u8, 110u8, 101u8]
    } else if d == 2 {
        seq![116u8, 119u8, 111u8]
    } else if d == 3 {
        seq![116u8, 104u8, 114u8, 101u8, 101u8]
    } else if d == 4 {
        seq![102u8, 111u8, 117u8, 114u8]
    } else if d == 5 {
        seq![102u8, 105u8, 118u8, 101u8]
    } else if d == 6 {
        seq![115u8, 105u8, 120u8]
    } else if d == 7 {
        seq![115u8, 101u8, 118u8, 101u8, 110u8]
    } else if d == 8 {
        seq![101u8, 105u8, 103u8, 104u8, 116u8]
    } else {
        seq![110u8, 105u8, 110u8, 101u8]
    }
}

/// `line` with the names of the digits 1 to `upto` replaced in turn,
/// each by the name, the digit and the name again.
pub open spec fn spelled(line: Seq<u8>, upto: int) -> Seq<u8>
    decreases upto,
{
    if upto <= 0 {
        line
    } else {
        replaced(
            spelled(line, upto - 1),
            name_of(upto),
            name_of(upto) + seq![(48 + upto) as u8] + name_of(upto),
        )
    }
}

/// The value of `line`: its calibration value, after the names of the
/// digits have been replaced where `names` is set.
pub open spec fn value_of(line: Seq<u8>, names: bool) -> int {
    if names {
        calibration(spelled(line, 9))
    } else {
        calibration(line)
    }
}

/// The sum of the values of the first `upto` of `lines`; nothing where
/// it exceeds 32 bits.
pub open spec fn value_sum(lines: Seq<Seq<u8>>, names: bool, upto: int) -> Option<u32>
    decreases upto,
{
    if upto <= 0 {
        Some(0u32)
    } else {
        match value_sum(lines, names, upto - 1) {
            Some(before) => if before + value_of(lines[upto - 1], names) <= u32::MAX {
                Some((before + value_of(lines[upto - 1], names)) as u32)
            } else {
                None
            },
            None => None,
        }
    }
}

/// Once the sum is lost, it stays lost.
proof fn lemma_sum_lost(lines: Seq<Seq<u8>>, names: bool, a: int, b: int)
    requires
        a <= b,
        value_sum(lines, names, a) is None,
    ensures
        value_sum(lines, names, b) is None,
    decreases b - a,
{
    if a < b {
        lemma_sum_lost(lines, names, a, b - 1);
    }
}

/// The values of digits are at most 9.
proof fn lemma_digits_small(line: Seq<u8>, upto: int)
    ensures
        forall|i: int| 0 <= i < digits_upto(line, upto).len() ==> #[trigger] digits_upto(line, upto)[i] <= 9,
    decreases upto,
{
    if upto > 0 {
        lemma_digits_small(line, upto - 1);
        let before = digits_upto(line, upto - 1);
        let all = digits_upto(line, upto);
        assert forall|i: int| 0 <= i < all.len() implies #[trigger] all[i] <= 9 by {
            if i < before.len() {
                assert(all[i] == before[i]);
            }
        }
    }
}

/// The calibration value of `line`.
pub fn calibrate(line: &Vec<u8>) -> (r: u32)
    ensures
        r == calibration(line@),
        r <= 99,
{
    let mut digits: Vec<u8> = Vec::new();
    let mut i: usize = 0;
    while i < line.len()
        invariant
            i <= line@.len(),
            digits@ == digits_upto(line@, i as int),
        decreases line@.len() - i,
    {
        if line[i] >= 48 && line[i] <= 57 {
            digits.push(line[i] - 48);
        }
        i += 1;
    }
    proof {
        lemma_digits_small(line@, line@.len() as int);
    }
    if digits.len() == 0 {
        0
    } else {
        let first: u32 = digits[0] as u32;
        let last: u32 = digits[digits.len() - 1] as u32;
        10 * first + last
    }
}

/// `line` with `with` in place of each occurrence of `pattern`.
pub fn replace(line: &Vec<u8>, pattern: &Vec<u8>, with: &Vec<u8>) -> (r: Vec<u8>)
    requires
        pattern@.len() >= 1,
    ensures
        r@ == replaced(line@, pattern@, with@),
{
    let parts = split_by(line.as_slice(), pattern.as_slice());
    let ghost model = parts.deep_view();
    let mut out: Vec<u8> = Vec::new();
    let mut i: usize = 0;
    while i < parts.len()
        invariant
            i <= parts@.len(),
            model == parts.deep_view(),
            out@ == glued(model, with@, i as int),
        decreases parts@.len() - i,
    {
        let ghost before = out@;
        if i > 0 {
            let mut k: usize = 0;
            while k < with.len()
                invariant
                    k <= with@.len(),
                    out@ == before + with@.subrange(0, k as int),
                decreases with@.len() - k,
            {
                out.push(with[k]);
                assert(out@ =~= before + with@.subrange(0, k + 1));
                k += 1;
            }
            assert(with@.subrange(0, with@.len() as int) =~= with@);
        } else {
            assert(out@ =~= before + Seq::<u8>::empty());
        }
        let ghost middle = out@;
        let part = &parts[i];
        assert(model[i as int] =~= part@);
        let mut k: usize = 0;
        while k < part.len()
            invariant
                k <= part@.len(),
                out@ == middle + part@.subrange(0, k as int),
            decreases part@.len() - k,
        {
            out.push(part[k]);
            assert(out@ =~= middle + part@.subrange(0, k + 1));
            k += 1;
        }
        assert(part@.subrange(0, part@.len() as int) =~= part@);
        assert(out@ =~= glued(model, with@, i + 1)) by {
            if i == 0 {
                assert(before =~= Seq::<u8>::empty());
            }
        }
        i += 1;
    }
    out
}

/// The name of the digit `d`.
pub fn digit_name(d: u8) -> (r: Vec<u8>)
    requires
        1 <= d <= 9,
    ensures
        r@ == name_of(d as int),
        r@.len() >= 1,
{
    let r = if d == 1 {
        vec![111u8, 110u8, 101u8]
    } else if d == 2 {
        vec![116u8, 119u8, 111u8]
    } else if d == 3 {
        vec![116u8, 104u8, 114u8, 101u8, 101u8]
    } else if d == 4 {
        vec![102u8, 111u8, 117u8, 114u8]
    } else if d == 5 {
        vec![102u8, 105u8, 118u8, 101u8]
    } else if d == 6 {
        vec![115u8, 105u8, 120u8]
    } else if d == 7 {
        vec![115u8, 101u8, 118u8, 101u8, 110u8]
    } else if d == 8 {
        vec![101u8, 105u8, 103u8, 104u8, 116u8]
    } else {
        vec![110u8, 105u8, 110u8, 101u8]
    };
    assert(r@ =~= name_of(d as int));
    r
}

/// `line` with the names of the digits replaced in turn.
pub fn spell_out(line: &Vec<u8>) -> (r: Vec<u8>)
    ensures
        r@ == spelled(line@, 9),
{
    let mut out = crate::text::copy_line(line);
    let mut d: u8 = 1;
    while d <= 9
        invariant
            1 <= d <= 10,
            out@ == spelled(line@, d - 1),
        decreases 10 - d,
    {
        let name = digit_name(d);
        let mut with = crate::text::copy_line(&name);
        with.push(48 + d);
        let ghost head = with@;
        let mut k: usize = 0;
        while k < name.len()
            invariant
                k <= name@.len(),
                with@ == head + name@.subrange(0, k as int),
            decreases name@.len() - k,
        {
            with.push(name[k]);
            assert(with@ =~= head + name@.subrange(0, k + 1));
            k += 1;
        }
        assert(name@.subrange(0, name@.len() as int) =~= name@);
        assert(with@ =~= name_of(d as int) + seq![(48 + d) as u8] + name_of(d as int));
        out = replace(&out, &name, &with);
        d += 1;
    }
    out
}

/// The sum of the values of the lines of `input`.
pub fn sum_values(input: &[u8], names: bool) -> (r: Option<u32>)
    ensures
        r == value_sum(lines_of(input@), names, lines_of(input@).len() as int),
{
    let lines = split_lines(input);
    let ghost model = lines.deep_view();
    let n = lines.len();
    let mut sum: u32 = 0;
    let mut i: usize = 0;
    while i < n
        invariant
            i <= n,
            n == lines@.len(),
            model == lines.deep_view(),
            model == lines_of(input@),
            value_sum(model, names, i as int) == Some(sum),
        decreases n - i,
    {
        assert(model[i as int] =~= lines@[i as int]@);
        let value = if names {
            let line = spell_out(&lines[i]);
            calibrate(&line)
        } else {
            calibrate(&lines[i])
        };
        match sum.checked_add(value) {
            Some(v) => {
                sum = v;
            },
            None => {
                proof {
                    lemma_sum_lost(model, names, i + 1, n as int);
                }
                return None;
            },
        }
        i += 1;
    }
    Some(sum)
}

/// The sum of the calibration values of the lines; `None` where it
/// exceeds 32 bits.
pub fn part_one(input: &str) -> (r: Option<u32>)
    ensures
        r == value_sum(lines_of(input.spec_bytes()), false, lines_of(input.spec_bytes()).len() as int),
{
    sum_values(input.as_bytes(), false)
}

/// The sum of the calibration values of the lines, with digits that
/// are spelled out read too; `None` where it exceeds 32 bits.
pub fn part_two(input: &str) -> (r: Option<u32>)
    ensures
        r == value_sum(lines_of(input.spec_bytes()), true, lines_of(input.spec_bytes()).len() as int),
{
    sum_values(input.as_bytes(), true)
}

} // verus!
