//! Gear Ratios: numbers and symbols on an engine's plan; which numbers
//! touch a symbol, and which stars touch exactly two numbers.

use crate::patterns::{
    bounded, find_all, group_bytes, group_text, read_bounded, regex_matches, spans, Span,
};
use crate::text::{lines_of, split_lines};
use vstd::prelude::*;
use vstd::string::StringSliceAdditionalSpecFns;

verus! {

/// A number on the plan: its value, its line, and the columns of its
/// first and last digit.
#[derive(Clone, Copy, Debug, PartialEq, Eq, Structural)]
pub struct Part {
    pub nr: u32,
    pub y: usize,
    pub x_start: usize,
    pub x_end: usize,
}

/// A run of symbols on the plan: whether it is a single star, and the
/// line and column where it begins.
#[derive(Clone, Copy, Debug, PartialEq, Eq, Structural)]
pub struct Symbol {
    pub star: bool,
    pub x: usize,
    pub y: usize,
}

/// What a plan holds.
pub struct ParsedInput {
    pub parts: Vec<Part>,
    pub symbols: Vec<Symbol>,
}

/// The mathematical model of what a plan holds.
pub struct Plan {
    pub parts: Seq<Part>,
    pub symbols: Seq<Symbol>,
}

impl View for ParsedInput {
    type V = Plan;

    open spec fn view(&self) -> Plan {
        Plan { parts: self.parts@, symbols: self.symbols@ }
    }
}

/// The greatest value of a number on the plan.
pub const MAX_NR: u64 = 0x7FFF_FFFF;

/// The expression for what a line holds: group 1 is a number, group 2 a
/// run of symbols, which are neither digits nor dots.
pub open spec fn item_pattern() -> Seq<char> {
    "(?<nr>\\d+)|(?<symbol>[^\\d.]+)"@
}

/// `plan` with what the match `groups` found in line `y`, which reads
/// `line`: a number where group 1 took part, else a symbol where group
/// 2 did; nothing where the number is not read or exceeds `MAX_NR`.
pub open spec fn with_item(line: Seq<u8>, groups: Seq<Span>, y: usize, plan: Plan) -> Option<Plan> {
    if groups.len() > 1 && groups[1] is Some {
        match group_text(line, groups, 1) {
            Some(text) => match bounded(text, MAX_NR) {
                Some(v) => if groups[1]->Some_0.1 > 0 {
                    Some(
                        Plan {
                            parts: plan.parts.push(
                                Part {
                                    nr: v as u32,
                                    y,
                                    x_start: groups[1]->Some_0.0,
                                    x_end: (groups[1]->Some_0.1 - 1) as usize,
                                },
                            ),
                            symbols: plan.symbols,
                        },
                    )
                } else {
                    None
                },
                None => None,
            },
            None => None,
        }
    } else if groups.len() > 2 && groups[2] is Some {
        Some(
            Plan {
                parts: plan.parts,
                symbols: plan.symbols.push(
                    Symbol {
                        star: group_text(line, groups, 2) == Some(seq![42u8]),
                        x: groups[2]->Some_0.0,
                        y,
                    },
                ),
            },
        )
    } else {
        Some(plan)
    }
}

/// `plan` with what the first `upto` matches of `found` found in line
/// `y`.
pub open spec fn with_items(
    line: Seq<u8>,
    found: Seq<Seq<Span>>,
    y: usize,
    plan: Plan,
    upto: int,
) -> Option<Plan>
    decreases upto,
{
    if upto <= 0 {
        Some(plan)
    } else {
        match with_items(line, found, y, plan, upto - 1) {
            Some(before) => with_item(line, found[upto - 1], y, before),
            None => None,
        }
    }
}

/// What the first `upto` of `lines` hold.
pub open spec fn plan_upto(lines: Seq<Seq<u8>>, upto: int) -> Option<Plan>
    decreases upto,
{
    if upto <= 0 {
        Some(Plan { parts: Seq::empty(), symbols: Seq::empty() })
    } else {
        match (plan_upto(lines, upto - 1), regex_matches(item_pattern(), lines[upto - 1])) {
            (Some(before), Some(found)) => with_items(
                lines[upto - 1],
                found,
                (upto - 1) as usize,
                before,
                found.len() as int,
            ),
            _ => None,
        }
    }
}

/// What the plan `text` holds.
pub open spec fn plan_of(text: Seq<u8>) -> Option<Plan> {
    plan_upto(lines_of(text), lines_of(text).len() as int)
}

/// Whether `symbol` begins beside `part`: at most one line and one
/// column away from one of its digits.
pub open spec fn adjacent(symbol: Symbol, part: Part) -> bool {
    symbol.y <= part.y + 1 && symbol.y + 1 >= part.y && symbol.x <= part.x_end + 1 && symbol.x + 1
        >= part.x_start
}

/// Whether one of the first `upto` of `symbols` begins beside `part`.
pub open spec fn touched(part: Part, symbols: Seq<Symbol>, upto: int) -> bool {
    exists|i: int| 0 <= i < upto && i < symbols.len() && adjacent(#[trigger] symbols[i], part)
}

/// The sum of those of the first `upto` of `parts` that a symbol
/// touches; nothing where it exceeds 32 bits.
pub open spec fn part_sum(plan: Plan, upto: int) -> Option<u32>
    decreases upto,
{
    if upto <= 0 {
        Some(0u32)
    } else {
        match part_sum(plan, upto - 1) {
            Some(before) => if !touched(plan.parts[upto - 1], plan.symbols, plan.symbols.len() as int) {
                Some(before)
            } else if before + plan.parts[upto - 1].nr <= u32::MAX {
                Some((before + plan.parts[upto - 1].nr) as u32)
            } else {
                None
            },
            None => None,
        }
    }
}

/// Those of the first `upto` of `parts` beside which `symbol` begins.
pub open spec fn beside(parts: Seq<Part>, symbol: Symbol, upto: int) -> Seq<Part>
    decreases upto,
{
    if upto <= 0 {
        Seq::empty()
    } else if adjacent(symbol, parts[upto - 1]) {
        beside(parts, symbol, upto - 1).push(parts[upto - 1])
    } else {
        beside(parts, symbol, upto - 1)
    }
}

/// The ratio of `symbol`: the product of the two numbers beside it,
/// where it is a star and there are exactly two; 0 otherwise.
pub open spec fn ratio(parts: Seq<Part>, symbol: Symbol) -> int {
    let near = beside(parts, symbol, parts.len() as int);
    if symbol.star && near.len() == 2 {
        near[0].nr * near[1].nr
    } else {
        0
    }
}

/// The sum of the ratios of the first `upto` of `symbols`; nothing
/// where a ratio exceeds `MAX_NR` or the sum 32 bits.
pub open spec fn gear_sum(plan: Plan, upto: int) -> Option<u32>
    decreases upto,
{
    if upto <= 0 {
        Some(0u32)
    } else {
        match gear_sum(plan, upto - 1) {
            Some(before) => if ratio(plan.parts, plan.symbols[upto - 1]) <= MAX_NR && before
                + ratio(plan.parts, plan.symbols[upto - 1]) <= u32::MAX {
                Some((before + ratio(plan.parts, plan.symbols[upto - 1])) as u32)
            } else {
                None
            },
            None => None,
        }
    }
}

/// Once the items are lost, they stay lost.
proof fn lemma_items_lost(line: Seq<u8>, found: Seq<Seq<Span>>, y: usize, plan: Plan, a: int, b: int)
    requires
        a <= b,
        with_items(line, found, y, plan, a) is None,
    ensures
        with_items(line, found, y, plan, b) is None,
    decreases b - a,
{
    if a < b {
        lemma_items_lost(line, found, y, plan, a, b - 1);
    }
}

/// Once the plan is lost, it stays lost.
proof fn lemma_plan_lost(lines: Seq<Seq<u8>>, a: int, b: int)
    requires
        a <= b,
        plan_upto(lines, a) is None,
    ensures
        plan_upto(lines, b) is None,
    decreases b - a,
{
    if a < b {
        lemma_plan_lost(lines, a, b - 1);
    }
}

/// Once the sum of the parts is lost, it stays lost.
proof fn lemma_parts_lost(plan: Plan, a: int, b: int)
    requires
        a <= b,
        part_sum(plan, a) is None,
    ensures
        part_sum(plan, b) is None,
    decreases b - a,
{
    if a < b {
        lemma_parts_lost(plan, a, b - 1);
    }
}

/// Once the sum of the ratios is lost, it stays lost.
proof fn lemma_gears_lost(plan: Plan, a: int, b: int)
    requires
        a <= b,
        gear_sum(plan, a) is None,
    ensures
        gear_sum(plan, b) is None,
    decreases b - a,
{
    if a < b {
        lemma_gears_lost(plan, a, b - 1);
    }
}

/// Adds to `plan` what the matches `found` found in line `y`, which
/// reads `line`; `false`, with the plan as it then stood, where a number
/// is not read.
pub fn add_items(line: &[u8], found: &Vec<Vec<Span>>, y: usize, plan: &mut ParsedInput) -> (done: bool)
    ensures
        match with_items(line@, spans(found), y, old(plan)@, spans(found).len() as int) {
            Some(after) => done && final(plan)@ == after,
            None => !done,
        },
{
    let ghost model = spans(found);
    let n = found.len();
    let mut i: usize = 0;
    while i < n
        invariant
            i <= n,
            n == found@.len(),
            model == spans(found),
            with_items(line@, model, y, old(plan)@, i as int) == Some(plan@),
        decreases n - i,
    {
        let groups = &found[i];
        assert(model[i as int] == groups@);
        let ghost before = plan@;
        if groups.len() > 1 && groups[1].is_some() {
            let (start, end) = groups[1].unwrap();
            let value = match group_bytes(line, groups, 1) {
                Some(text) => read_bounded(text.as_slice(), MAX_NR),
                None => None,
            };
            match value {
                Some(v) => {
                    if end == 0 {
                        proof {
                            lemma_items_lost(line@, model, y, old(plan)@, i + 1, n as int);
                        }
                        return false;
                    }
                    plan.parts.push(Part { nr: v as u32, y, x_start: start, x_end: end - 1 });
                },
                None => {
                    proof {
                        lemma_items_lost(line@, model, y, old(plan)@, i + 1, n as int);
                    }
                    return false;
                },
            }
        } else if groups.len() > 2 && groups[2].is_some() {
            let (start, _) = groups[2].unwrap();
            let star = match group_bytes(line, groups, 2) {
                Some(text) => {
                    let single = text.len() == 1 && text[0] == 42;
                    proof {
                        if single {
                            assert(text@ =~= seq![42u8]);
                        } else if text@ == seq![42u8] {
                            assert(seq![42u8].len() == 1);
                            assert(seq![42u8][0] == 42);
                        }
                    }
                    single
                },
                None => false,
            };
            plan.symbols.push(Symbol { star, x: start, y });
        }
        assert(with_item(line@, model[i as int], y, before) == Some(plan@));
        i += 1;
    }
    true
}

/// What the plan `input` holds; `None` where a number is not read.
pub fn parse(input: &[u8]) -> (r: Option<ParsedInput>)
    ensures
        match r {
            Some(plan) => plan_of(input@) == Some(plan@),
            None => plan_of(input@) is None,
        },
{
    let lines = split_lines(input);
    let ghost model = lines.deep_view();
    let n = lines.len();
    let mut plan = ParsedInput { parts: Vec::new(), symbols: Vec::new() };
    let mut y: usize = 0;
    while y < n
        invariant
            y <= n,
            n == lines@.len(),
            model == lines.deep_view(),
            model == lines_of(input@),
            plan_upto(model, y as int) == Some(plan@),
        decreases n - y,
    {
        assert(model[y as int] =~= lines@[y as int]@);
        let done = match find_all("(?<nr>\\d+)|(?<symbol>[^\\d.]+)", lines[y].as_slice()) {
            Some(found) => add_items(lines[y].as_slice(), &found, y, &mut plan),
            None => false,
        };
        if !done {
            proof {
                lemma_plan_lost(model, y + 1, n as int);
            }
            return None;
        }
        y += 1;
    }
    Some(plan)
}

/// Whether `symbol` begins beside `part`.
pub fn is_adjacent(symbol: &Symbol, part: &Part) -> (r: bool)
    ensures
        r == adjacent(*symbol, *part),
{
    symbol.y <= part.y.saturating_add(1) && symbol.y.saturating_add(1) >= part.y && symbol.x
        <= part.x_end.saturating_add(1) && symbol.x.saturating_add(1) >= part.x_start
}

/// Whether one of `symbols` begins beside `part`.
pub fn is_touched(part: &Part, symbols: &Vec<Symbol>) -> (r: bool)
    ensures
        r == touched(*part, symbols@, symbols@.len() as int),
{
    let mut i: usize = 0;
    while i < symbols.len()
        invariant
            i <= symbols@.len(),
            !touched(*part, symbols@, i as int),
        decreases symbols@.len() - i,
    {
        if is_adjacent(&symbols[i], part) {
            return true;
        }
        i += 1;
    }
    false
}

/// The sum of the numbers that a symbol touches.
pub fn sum_parts(plan: &ParsedInput) -> (r: Option<u32>)
    ensures
        r == part_sum(plan@, plan@.parts.len() as int),
{
    let n = plan.parts.len();
    let mut sum: u32 = 0;
    let mut i: usize = 0;
    while i < n
        invariant
            i <= n,
            n == plan.parts@.len(),
            part_sum(plan@, i as int) == Some(sum),
        decreases n - i,
    {
        if is_touched(&plan.parts[i], &plan.symbols) {
            match sum.checked_add(plan.parts[i].nr) {
                Some(v) => {
                    sum = v;
                },
                None => {
                    proof {
                        lemma_parts_lost(plan@, i + 1, n as int);
                    }
                    return None;
                },
            }
        }
        i += 1;
    }
    Some(sum)
}

/// The numbers beside which `symbol` begins.
pub fn neighbours(parts: &Vec<Part>, symbol: &Symbol) -> (r: Vec<Part>)
    ensures
        r@ == beside(parts@, *symbol, parts@.len() as int),
{
    let mut out: Vec<Part> = Vec::new();
    let mut i: usize = 0;
    while i < parts.len()
        invariant
            i <= parts@.len(),
            out@ == beside(parts@, *symbol, i as int),
        decreases parts@.len() - i,
    {
        if is_adjacent(symbol, &parts[i]) {
            out.push(parts[i]);
        }
        i += 1;
    }
    out
}

/// The ratio of `symbol`.
pub fn gear_ratio(parts: &Vec<Part>, symbol: &Symbol) -> (r: u64)
    ensures
        r == ratio(parts@, *symbol),
{
    if !symbol.star {
        return 0;
    }
    let near = neighbours(parts, symbol);
    if near.len() != 2 {
        return 0;
    }
    let a: u64 = near[0].nr as u64;
    let b: u64 = near[1].nr as u64;
    assert(a * b <= 0xFFFF_FFFF * 0xFFFF_FFFF) by (nonlinear_arith)
        requires
            a <= 0xFFFF_FFFF,
            b <= 0xFFFF_FFFF,
    ;
    a * b
}

/// The sum of the ratios of the stars.
pub fn sum_gears(plan: &ParsedInput) -> (r: Option<u32>)
    ensures
        r == gear_sum(plan@, plan@.symbols.len() as int),
{
    let n = plan.symbols.len();
    let mut sum: u32 = 0;
    let mut i: usize = 0;
    while i < n
        invariant
            i <= n,
            n == plan.symbols@.len(),
            gear_sum(plan@, i as int) == Some(sum),
        decreases n - i,
    {
        let value = gear_ratio(&plan.parts, &plan.symbols[i]);
        let next = if value <= MAX_NR {
            sum.checked_add(value as u32)
        } else {
            None
        };
        match next {
            Some(v) => {
                sum = v;
            },
            None => {
                proof {
                    lemma_gears_lost(plan@, i + 1, n as int);
                }
                return None;
            },
        }
        i += 1;
    }
    Some(sum)
}

/// The sum of the numbers on the plan that a symbol touches; `None`
/// where the plan is not read or the sum exceeds 32 bits.
pub fn part_one(input: &str) -> (r: Option<u32>)
    ensures
        r == match plan_of(input.spec_bytes()) {
            Some(plan) => part_sum(plan, plan.parts.len() as int),
            None => None,
        },
{
    match parse(input.as_bytes()) {
        Some(plan) => sum_parts(&plan),
        None => None,
    }
}

/// The sum of the ratios of the stars on the plan; `None` where the
/// plan is not read, a ratio exceeds `MAX_NR` or the sum 32 bits.
pub fn part_two(input: &str) -> (r: Option<u32>)
    ensures
        r == match plan_of(input.spec_bytes()) {
            Some(plan) => gear_sum(plan, plan.symbols.len() as int),
            None => None,
        },
{
    match parse(input.as_bytes()) {
        Some(plan) => sum_gears(&plan),
        None => None,
    }
}

} // verus!
