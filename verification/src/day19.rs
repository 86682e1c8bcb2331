//! Aplenty: parts pass through workflows of rules until they are accepted
//! or rejected; how many parts, of all there could be, are accepted.

use crate::day08::cut;
use crate::day20::{resolve, resolved};
use crate::text::{
    lines_of, parse_u64, parts_of, split_by, split_lines, split_once, split_once_of, unsigned_text,
};
use vstd::prelude::*;
use vstd::string::StringSliceAdditionalSpecFns;

verus! {

/// Where a rule sends a part: on to another workflow, to a final verdict,
/// or nowhere, if it names a workflow that does not exist.
#[derive(Clone, Copy, Debug, PartialEq, Eq, Structural)]
pub enum RuleResult {
    NextRule(usize),
    FinalStatus(bool),
    Missing,
}

/// A rule: parts whose rating in `category` is less than `comparison`, or
/// greater where `less` is not set, go to `destination`.
#[derive(Clone, Copy, Debug, PartialEq, Eq, Structural)]
pub struct Rule {
    pub category: u8,
    pub less: bool,
    pub comparison: u64,
    pub destination: RuleResult,
}

/// A workflow: rules tried in order, and where a part goes that none of
/// them catches.
pub struct RuleCategory {
    pub rules: Vec<Rule>,
    pub fallthrough: RuleResult,
}

/// All workflows: the workflow numbered `i` has the name `names[i]`.
pub struct Rules {
    pub names: Vec<Vec<u8>>,
    pub rules: Vec<RuleCategory>,
}

/// How many workflows a block of parts may visit, pieces counted, before
/// the sorting is given up.
pub const VISITS: u64 = 1_000_000;

/// A part with its four ratings.
#[derive(Clone, Copy, Debug, PartialEq, Eq, Structural)]
pub struct Part {
    pub x: u64,
    pub m: u64,
    pub a: u64,
    pub s: u64,
}

/// The ratings from `start` up to, but without, `end`.
#[derive(Clone, Copy, Debug, PartialEq, Eq, Structural)]
pub struct Range {
    pub start: u64,
    pub end: u64,
}

/// A block of parts: a range for each rating.
#[derive(Clone, Copy, Debug, PartialEq, Eq, Structural)]
pub struct PartRange {
    pub x: Range,
    pub m: Range,
    pub a: Range,
    pub s: Range,
}

/// The mathematical model of a workflow.
pub struct Flow {
    pub rules: Seq<Rule>,
    pub fallthrough: RuleResult,
}

/// The models of all workflows.
pub open spec fn flows(rules: &Rules) -> Seq<Flow> {
    Seq::new(
        rules.rules@.len(),
        |i: int| Flow { rules: rules.rules@[i].rules@, fallthrough: rules.rules@[i].fallthrough },
    )
}

/// The rating of `part` in the category numbered `category`: 0 for `x`,
/// 1 for `m`, 2 for `a`, anything else for `s`.
pub open spec fn rating(part: Part, category: u8) -> u64 {
    if category == 0 {
        part.x
    } else if category == 1 {
        part.m
    } else if category == 2 {
        part.a
    } else {
        part.s
    }
}

/// Whether `rule` catches `part`.
pub open spec fn catches(rule: Rule, part: Part) -> bool {
    if rule.less {
        rating(part, rule.category) < rule.comparison
    } else {
        rating(part, rule.category) > rule.comparison
    }
}

/// Where the rules from place `from` on send `part`.
pub open spec fn routed(flow: Flow, part: Part, from: int) -> RuleResult
    decreases flow.rules.len() - from,
{
    if from < 0 || from >= flow.rules.len() {
        flow.fallthrough
    } else if catches(flow.rules[from], part) {
        flow.rules[from].destination
    } else {
        routed(flow, part, from + 1)
    }
}

/// The verdict on `part`, which stands before workflow `at`, within
/// `fuel` further workflows; nothing where a workflow is missing or the
/// part is sent round for longer.
pub open spec fn verdict(all: Seq<Flow>, at: int, part: Part, fuel: nat) -> Option<bool>
    decreases fuel,
{
    if !(0 <= at < all.len()) {
        None
    } else {
        match routed(all[at], part, 0) {
            RuleResult::FinalStatus(v) => Some(v),
            RuleResult::Missing => None,
            RuleResult::NextRule(next) => if fuel == 0 {
                None
            } else {
                verdict(all, next as int, part, (fuel - 1) as nat)
            },
        }
    }
}

impl Part {
    /// The sum of the four ratings.
    pub open spec fn spec_score(self) -> int {
        self.x + self.m + self.a + self.s
    }

    /// The sum of the four ratings, held within 64 bits.
    pub fn score(&self) -> (r: u64)
        ensures
            r == if self.spec_score() > u64::MAX {
                u64::MAX as int
            } else {
                self.spec_score()
            },
    {
        self.x.saturating_add(self.m).saturating_add(self.a).saturating_add(self.s)
    }
}

impl Rule {
    /// Whether the rule catches `part`.
    pub fn apply(&self, part: &Part) -> (r: bool)
        ensures
            r == catches(*self, *part),
    {
        let value = if self.category == 0 {
            part.x
        } else if self.category == 1 {
            part.m
        } else if self.category == 2 {
            part.a
        } else {
            part.s
        };
        if self.less {
            value < self.comparison
        } else {
            value > self.comparison
        }
    }
}

impl RuleCategory {
    /// Where the workflow sends `part`.
    pub fn apply(&self, part: &Part) -> (r: RuleResult)
        ensures
            r == routed(Flow { rules: self.rules@, fallthrough: self.fallthrough }, *part, 0),
    {
        let ghost flow = Flow { rules: self.rules@, fallthrough: self.fallthrough };
        let mut i: usize = 0;
        while i < self.rules.len()
            invariant
                i <= self.rules@.len(),
                flow == (Flow { rules: self.rules@, fallthrough: self.fallthrough }),
                routed(flow, *part, 0) == routed(flow, *part, i as int),
            decreases self.rules@.len() - i,
        {
            if self.rules[i].apply(part) {
                return self.rules[i].destination;
            }
            i += 1;
        }
        self.fallthrough
    }
}

impl Rules {
    /// The verdict on `part`, which starts at the workflow numbered
    /// `starting_rule`; `None` where a workflow is missing, or the part
    /// has no verdict after as many workflows as there are.
    pub fn apply(&self, starting_rule: usize, part: &Part) -> (r: Option<bool>)
        ensures
            r == verdict(flows(self), starting_rule as int, *part, self.rules@.len() as nat),
    {
        let ghost all = flows(self);
        let n = self.rules.len();
        let mut at = starting_rule;
        let mut fuel = n;
        loop
            invariant
                all == flows(self),
                n == self.rules@.len(),
                fuel <= n,
                verdict(all, starting_rule as int, *part, n as nat) == verdict(
                    all,
                    at as int,
                    *part,
                    fuel as nat,
                ),
            decreases fuel,
        {
            if at >= n {
                return None;
            }
            assert(all[at as int] == (Flow {
                rules: self.rules@[at as int].rules@,
                fallthrough: self.rules@[at as int].fallthrough,
            }));
            match self.rules[at].apply(part) {
                RuleResult::FinalStatus(v) => {
                    return Some(v);
                },
                RuleResult::Missing => {
                    return None;
                },
                RuleResult::NextRule(next) => {
                    if fuel == 0 {
                        return None;
                    }
                    at = next;
                    fuel -= 1;
                },
            }
        }
    }
}

/// One more than `v`, held within 64 bits.
pub open spec fn next_up(v: u64) -> u64 {
    if v == u64::MAX {
        v
    } else {
        (v + 1) as u64
    }
}

/// The part of `range` that `rule` catches, and the part it lets pass.
/// A rule for less cuts the range off at its comparison; a rule for
/// greater lets it begin right above its comparison.
pub open spec fn split_range(range: Range, rule: Rule) -> (Range, Range) {
    if rule.less {
        let catch = if range.end > rule.comparison {
            Range { start: range.start, end: rule.comparison }
        } else {
            range
        };
        (catch, Range { start: catch.end, end: range.end })
    } else {
        let catch = if range.start < rule.comparison {
            Range { start: next_up(rule.comparison), end: range.end }
        } else {
            range
        };
        (catch, Range { start: range.start, end: catch.start })
    }
}

/// `block` with `range` for the rating in category `category`.
pub open spec fn with_range(block: PartRange, category: u8, range: Range) -> PartRange {
    if category == 0 {
        PartRange { x: range, ..block }
    } else if category == 1 {
        PartRange { m: range, ..block }
    } else if category == 2 {
        PartRange { a: range, ..block }
    } else {
        PartRange { s: range, ..block }
    }
}

/// The range of `block` for the rating in category `category`.
pub open spec fn range_in(block: PartRange, category: u8) -> Range {
    if category == 0 {
        block.x
    } else if category == 1 {
        block.m
    } else if category == 2 {
        block.a
    } else {
        block.s
    }
}

/// The part of `block` that `rule` catches, and the part it lets pass.
pub open spec fn split_block(block: PartRange, rule: Rule) -> (PartRange, PartRange) {
    let (catch, fall) = split_range(range_in(block, rule.category), rule);
    (with_range(block, rule.category, catch), with_range(block, rule.category, fall))
}

/// What the rules of `flow` from place `from` on make of `block`: for
/// each rule what it catches, with where that goes, and at last what
/// passes all rules, with where the workflow sends it.
pub open spec fn sorted_out(flow: Flow, block: PartRange, from: int) -> Seq<(PartRange, RuleResult)>
    decreases flow.rules.len() - from,
{
    if from < 0 || from >= flow.rules.len() {
        seq![(block, flow.fallthrough)]
    } else {
        let (catch, fall) = split_block(block, flow.rules[from]);
        seq![(catch, flow.rules[from].destination)] + sorted_out(flow, fall, from + 1)
    }
}

/// The blocks of `items` that go on to further workflows, as they are
/// put on the stack.
pub open spec fn onward(items: Seq<(PartRange, RuleResult)>) -> Seq<(usize, PartRange)>
    decreases items.len(),
{
    if items.len() == 0 {
        Seq::empty()
    } else {
        let before = onward(items.drop_last());
        match items.last().1 {
            RuleResult::NextRule(i) => before.push((i, items.last().0)),
            _ => before,
        }
    }
}

/// The blocks of `items` that have their verdict.
pub open spec fn judged(items: Seq<(PartRange, RuleResult)>) -> Seq<(PartRange, RuleResult)>
    decreases items.len(),
{
    if items.len() == 0 {
        Seq::empty()
    } else {
        let before = judged(items.drop_last());
        match items.last().1 {
            RuleResult::FinalStatus(_) => before.push(items.last()),
            _ => before,
        }
    }
}

/// Whether some of `items` goes to a workflow that does not exist.
pub open spec fn any_missing(all: Seq<Flow>, items: Seq<(PartRange, RuleResult)>) -> bool {
    exists|k: int| 0 <= k < items.len() && is_missing(all.len() as int, (#[trigger] items[k]).1)
}

/// The blocks with their verdicts that come of the blocks waiting on
/// `stack`, each before a workflow, within `fuel` visits to workflows;
/// the block put on the stack last is looked at first. Nothing where a
/// workflow is missing or the fuel runs out.
pub open spec fn drained(
    all: Seq<Flow>,
    stack: Seq<(usize, PartRange)>,
    results: Seq<(PartRange, RuleResult)>,
    fuel: nat,
) -> Option<Seq<(PartRange, RuleResult)>>
    decreases fuel,
{
    if stack.len() == 0 {
        Some(results)
    } else if fuel == 0 {
        None
    } else {
        let (at, block) = stack.last();
        if at >= all.len() {
            None
        } else {
            let items = sorted_out(all[at as int], block, 0);
            if any_missing(all, items) {
                None
            } else {
                drained(all, stack.drop_last() + onward(items), results + judged(items), (fuel - 1) as nat)
            }
        }
    }
}

impl Range {
    /// The ratings from 1 to 4000.
    pub fn new() -> (r: Range)
        ensures
            r == (Range { start: 1, end: 4001 }),
    {
        Range { start: 1, end: 4001 }
    }

    /// The part of the range that `rule` catches, and the part it lets
    /// pass.
    pub fn apply(&self, rule: &Rule) -> (r: (Range, Range))
        ensures
            r == split_range(*self, *rule),
    {
        if rule.less {
            let catch = if self.end > rule.comparison {
                Range { start: self.start, end: rule.comparison }
            } else {
                *self
            };
            (catch, Range { start: catch.end, end: self.end })
        } else {
            let catch = if self.start < rule.comparison {
                Range { start: rule.comparison.saturating_add(1), end: self.end }
            } else {
                *self
            };
            (catch, Range { start: self.start, end: catch.start })
        }
    }

    /// How many ratings the range holds; `None` for a range that ends
    /// before it begins.
    pub fn count(&self) -> (r: Option<u64>)
        ensures
            r == if self.end >= self.start {
                Some((self.end - self.start) as u64)
            } else {
                None
            },
    {
        self.end.checked_sub(self.start)
    }
}

impl PartRange {
    /// All parts with ratings from 1 to 4000.
    pub fn new() -> (r: PartRange)
        ensures
            r == (PartRange {
                x: Range { start: 1, end: 4001 },
                m: Range { start: 1, end: 4001 },
                a: Range { start: 1, end: 4001 },
                s: Range { start: 1, end: 4001 },
            }),
    {
        PartRange { x: Range::new(), m: Range::new(), a: Range::new(), s: Range::new() }
    }

    /// How many parts the block holds, where each range is in order and
    /// the number fits 64 bits.
    pub open spec fn spec_count(self) -> Option<u64> {
        if self.x.end >= self.x.start && self.m.end >= self.m.start && self.a.end >= self.a.start
            && self.s.end >= self.s.start && (self.x.end - self.x.start) * (self.m.end
            - self.m.start) <= u64::MAX && (self.x.end - self.x.start) * (self.m.end - self.m.start)
            * (self.a.end - self.a.start) <= u64::MAX && (self.x.end - self.x.start) * (self.m.end
            - self.m.start) * (self.a.end - self.a.start) * (self.s.end - self.s.start)
            <= u64::MAX {
            Some(
                ((self.x.end - self.x.start) * (self.m.end - self.m.start) * (self.a.end
                    - self.a.start) * (self.s.end - self.s.start)) as u64,
            )
        } else {
            None
        }
    }

    /// How many parts the block holds; `None` where a range ends before
    /// it begins or a product on the way exceeds 64 bits.
    pub fn count(&self) -> (r: Option<u64>)
        ensures
            r == self.spec_count(),
    {
        let x = match self.x.count() {
            Some(v) => v,
            None => {
                return None;
            },
        };
        let m = match self.m.count() {
            Some(v) => v,
            None => {
                return None;
            },
        };
        let a = match self.a.count() {
            Some(v) => v,
            None => {
                return None;
            },
        };
        let s = match self.s.count() {
            Some(v) => v,
            None => {
                return None;
            },
        };
        let xm = match x.checked_mul(m) {
            Some(v) => v,
            None => {
                return None;
            },
        };
        let xma = match xm.checked_mul(a) {
            Some(v) => v,
            None => {
                return None;
            },
        };
        xma.checked_mul(s)
    }
}

impl Rule {
    /// The part of `part_range` that the rule catches, and the part it
    /// lets pass.
    pub fn apply_range(&self, part_range: PartRange) -> (r: (PartRange, PartRange))
        ensures
            r == split_block(part_range, *self),
    {
        if self.category == 0 {
            let (catch, fall) = part_range.x.apply(self);
            (PartRange { x: catch, ..part_range }, PartRange { x: fall, ..part_range })
        } else if self.category == 1 {
            let (catch, fall) = part_range.m.apply(self);
            (PartRange { m: catch, ..part_range }, PartRange { m: fall, ..part_range })
        } else if self.category == 2 {
            let (catch, fall) = part_range.a.apply(self);
            (PartRange { a: catch, ..part_range }, PartRange { a: fall, ..part_range })
        } else {
            let (catch, fall) = part_range.s.apply(self);
            (PartRange { s: catch, ..part_range }, PartRange { s: fall, ..part_range })
        }
    }
}

/// `sorted_out` gives one item for each rule that is left, and one more.
pub proof fn lemma_sorted_len(flow: Flow, block: PartRange, from: int)
    requires
        0 <= from <= flow.rules.len(),
    ensures
        sorted_out(flow, block, from).len() == flow.rules.len() - from + 1,
    decreases flow.rules.len() - from,
{
    if from < flow.rules.len() {
        lemma_sorted_len(flow, split_block(block, flow.rules[from]).1, from + 1);
    }
}

/// Whether `dest` names no workflow among `count`.
pub open spec fn is_missing(count: int, dest: RuleResult) -> bool {
    match dest {
        RuleResult::Missing => true,
        RuleResult::NextRule(i) => i >= count,
        RuleResult::FinalStatus(_) => false,
    }
}

/// The first `k + 1` of `items` go on and are judged as the first `k` and
/// then the item at `k`.
proof fn lemma_take_one(items: Seq<(PartRange, RuleResult)>, k: int)
    requires
        0 <= k < items.len(),
    ensures
        onward(items.take(k + 1)) == match items[k].1 {
            RuleResult::NextRule(i) => onward(items.take(k)).push((i, items[k].0)),
            _ => onward(items.take(k)),
        },
        judged(items.take(k + 1)) == match items[k].1 {
            RuleResult::FinalStatus(_) => judged(items.take(k)).push(items[k]),
            _ => judged(items.take(k)),
        },
{
    assert(items.take(k + 1).drop_last() =~= items.take(k));
    assert(items.take(k + 1).last() == items[k]);
}

impl Rules {
    /// Sorts `block`, which stands at position `at` before workflow
    /// `number`, by the rules of that workflow: what goes on is put on
    /// `stack`, what has its verdict on `results`. `false`, with both as
    /// they stood then, where a rule sends parts to a workflow that
    /// does not exist.
    fn sort_out(
        &self,
        number: usize,
        block: PartRange,
        stack: &mut Vec<(usize, PartRange)>,
        results: &mut Vec<(PartRange, RuleResult)>,
    ) -> (done: bool)
        requires
            number < self.rules@.len(),
        ensures
            done == !any_missing(flows(self), sorted_out(flows(self)[number as int], block, 0)),
            done ==> final(stack)@ == old(stack)@ + onward(
                sorted_out(flows(self)[number as int], block, 0),
            ) && final(results)@ == old(results)@ + judged(
                sorted_out(flows(self)[number as int], block, 0),
            ),
    {
        let ghost all = flows(self);
        let ghost flow = all[number as int];
        let ghost items = sorted_out(flow, block, 0);
        let category = &self.rules[number];
        let count = self.rules.len();
        let n = category.rules.len();
        proof {
            lemma_sorted_len(flow, block, 0);
            assert(items.take(0) =~= Seq::empty());
            assert(old(stack)@ + onward(items.take(0)) =~= old(stack)@);
            assert(old(results)@ + judged(items.take(0)) =~= old(results)@);
            assert(items.skip(0) =~= items);
        }
        let mut range = block;
        let mut k: usize = 0;
        while k < n
            invariant
                k <= n,
                n == flow.rules.len(),
                number < self.rules@.len(),
                count == self.rules@.len(),
                all == flows(self),
                flow == all[number as int],
                category == &self.rules@[number as int],
                flow.rules == category.rules@,
                flow.fallthrough == category.fallthrough,
                items == sorted_out(flow, block, 0),
                items.len() == n + 1,
                items.skip(k as int) == sorted_out(flow, range, k as int),
                stack@ == old(stack)@ + onward(items.take(k as int)),
                results@ == old(results)@ + judged(items.take(k as int)),
                forall|j: int| 0 <= j < k ==> !is_missing(count as int, (#[trigger] items[j]).1),
            decreases n - k,
        {
            let rule = category.rules[k];
            let (catch, fall) = rule.apply_range(range);
            proof {
                let rest = sorted_out(flow, fall, k + 1);
                assert(sorted_out(flow, range, k as int) == seq![(catch, rule.destination)] + rest);
                assert(items.skip(k as int)[0] == (catch, rule.destination));
                assert(items[k as int] == (catch, rule.destination));
                assert(items.skip(k + 1) =~= items.skip(k as int).skip(1));
                assert(items.skip(k as int).skip(1) =~= rest);
                lemma_take_one(items, k as int);
            }
            match rule.destination {
                RuleResult::NextRule(next) => {
                    if next >= count {
                        assert(is_missing(all.len() as int, items[k as int].1));
                        return false;
                    }
                    stack.push((next, catch));
                    assert(stack@ =~= old(stack)@ + onward(items.take(k + 1)));
                },
                RuleResult::FinalStatus(_) => {
                    results.push((catch, rule.destination));
                    assert(results@ =~= old(results)@ + judged(items.take(k + 1)));
                },
                RuleResult::Missing => {
                    assert(is_missing(all.len() as int, items[k as int].1));
                    return false;
                },
            }
            range = fall;
            k += 1;
        }
        proof {
            assert(sorted_out(flow, range, n as int) == seq![(range, flow.fallthrough)]);
            assert(items.skip(n as int)[0] == (range, flow.fallthrough));
            assert(items[n as int] == (range, category.fallthrough));
            lemma_take_one(items, n as int);
            assert(items.take(n + 1) =~= items);
        }
        match category.fallthrough {
            RuleResult::NextRule(next) => {
                if next >= count {
                    assert(is_missing(all.len() as int, items[n as int].1));
                    return false;
                }
                stack.push((next, range));
                assert(stack@ =~= old(stack)@ + onward(items));
            },
            RuleResult::FinalStatus(_) => {
                results.push((range, category.fallthrough));
                assert(results@ =~= old(results)@ + judged(items));
            },
            RuleResult::Missing => {
                assert(is_missing(all.len() as int, items[n as int].1));
                return false;
            },
        }
        assert(!any_missing(all, items)) by {
            assert forall|j: int| 0 <= j < items.len() implies !is_missing(
                all.len() as int,
                (#[trigger] items[j]).1,
            ) by {}
        }
        true
    }

    /// The blocks into which the workflows sort `part_range`, which
    /// starts at the workflow numbered `starting_rule`, each with its
    /// verdict; `None` where a workflow is missing or more than `VISITS`
    /// workflows are visited.
    pub fn apply_range(&self, starting_rule: usize, part_range: PartRange) -> (r: Option<
        Vec<(PartRange, RuleResult)>,
    >)
        ensures
            match r {
                Some(v) => drained(
                    flows(self),
                    seq![(starting_rule, part_range)],
                    Seq::empty(),
                    VISITS as nat,
                ) == Some(v@),
                None => drained(
                    flows(self),
                    seq![(starting_rule, part_range)],
                    Seq::empty(),
                    VISITS as nat,
                ) is None,
            },
    {
        let ghost all = flows(self);
        let ghost goal = drained(all, seq![(starting_rule, part_range)], Seq::empty(), VISITS as nat);
        let mut stack: Vec<(usize, PartRange)> = Vec::new();
        let mut results: Vec<(PartRange, RuleResult)> = Vec::new();
        stack.push((starting_rule, part_range));
        assert(stack@ =~= seq![(starting_rule, part_range)]);
        let mut fuel: u64 = VISITS;
        loop
            invariant
                all == flows(self),
                goal == drained(
                    all,
                    seq![(starting_rule, part_range)],
                    Seq::empty(),
                    VISITS as nat,
                ),
                goal == drained(all, stack@, results@, fuel as nat),
            decreases fuel,
        {
            let ghost before = stack@;
            let (number, block) = match stack.pop() {
                Some(top) => top,
                None => {
                    return Some(results);
                },
            };
            if fuel == 0 || number >= self.rules.len() {
                return None;
            }
            assert(stack@ =~= before.drop_last());
            if !self.sort_out(number, block, &mut stack, &mut results) {
                return None;
            }
            fuel -= 1;
        }
    }
}

/// The number that `s` writes, where it fits 64 bits.
pub open spec fn small(s: Seq<u8>) -> Option<u64> {
    match unsigned_text(s) {
        Some(v) => if v <= u64::MAX {
            Some(v as u64)
        } else {
            None
        },
        None => None,
    }
}

/// Where the text `dest` sends parts: `A` accepts, `R` rejects, anything
/// else is the name of a workflow, the last of `names` that reads so.
pub open spec fn destination_of(names: Seq<Seq<u8>>, dest: Seq<u8>) -> RuleResult {
    if dest == seq![65u8] {
        RuleResult::FinalStatus(true)
    } else if dest == seq![82u8] {
        RuleResult::FinalStatus(false)
    } else {
        match resolved(names, dest) {
            Some(i) => RuleResult::NextRule(i),
            None => RuleResult::Missing,
        }
    }
}

/// The number of the category that the letter `b` stands for.
pub open spec fn category_of(b: u8) -> Option<u8> {
    if b == 120 {
        Some(0u8)
    } else if b == 109 {
        Some(1u8)
    } else if b == 97 {
        Some(2u8)
    } else if b == 115 {
        Some(3u8)
    } else {
        None
    }
}

/// The rule that `term` writes: a category's letter, `<` or `>`, a
/// number, a colon and a destination.
pub open spec fn rule_of(names: Seq<Seq<u8>>, term: Seq<u8>) -> Option<Rule> {
    if term.len() < 2 || category_of(term[0]) is None || (term[1] != 60 && term[1] != 62) {
        None
    } else {
        match split_once_of(term.subrange(2, term.len() as int), seq![58u8]) {
            None => None,
            Some((number, dest)) => match small(number) {
                None => None,
                Some(comparison) => Some(
                    Rule {
                        category: category_of(term[0])->Some_0,
                        less: term[1] == 60,
                        comparison,
                        destination: destination_of(names, dest),
                    },
                ),
            },
        }
    }
}

/// The rules that the first `upto` of `terms` write.
pub open spec fn rules_upto(names: Seq<Seq<u8>>, terms: Seq<Seq<u8>>, upto: int) -> Option<Seq<Rule>>
    decreases upto,
{
    if upto <= 0 {
        Some(Seq::empty())
    } else {
        match (rules_upto(names, terms, upto - 1), rule_of(names, terms[upto - 1])) {
            (Some(before), Some(rule)) => Some(before.push(rule)),
            _ => None,
        }
    }
}

/// The name that `line` gives its workflow: what stands before the
/// first opening brace.
pub open spec fn flow_name(line: Seq<u8>) -> Seq<u8> {
    match split_once_of(line, seq![123u8]) {
        Some((name, _)) => name,
        None => line,
    }
}

/// The names of the workflows that `lines` write.
pub open spec fn flow_names(lines: Seq<Seq<u8>>) -> Seq<Seq<u8>> {
    Seq::new(lines.len(), |i: int| flow_name(lines[i]))
}

/// The workflow that `line` writes: a name, and in braces rules with
/// commas between them and at last where the other parts go.
pub open spec fn flow_of(names: Seq<Seq<u8>>, line: Seq<u8>) -> Option<Flow> {
    match split_once_of(line, seq![123u8]) {
        None => None,
        Some((_, rest)) => if rest.len() == 0 || rest.last() != 125 {
            None
        } else {
            let terms = parts_of(rest.drop_last(), seq![44u8]);
            match rules_upto(names, terms, terms.len() - 1) {
                None => None,
                Some(rules) => Some(Flow { rules, fallthrough: destination_of(names, terms.last()) }),
            }
        },
    }
}

/// The workflows that the first `upto` of `lines` write.
pub open spec fn flows_upto(names: Seq<Seq<u8>>, lines: Seq<Seq<u8>>, upto: int) -> Option<Seq<Flow>>
    decreases upto,
{
    if upto <= 0 {
        Some(Seq::empty())
    } else {
        match (flows_upto(names, lines, upto - 1), flow_of(names, lines[upto - 1])) {
            (Some(before), Some(flow)) => Some(before.push(flow)),
            _ => None,
        }
    }
}

/// The numbers that the first `upto` of `terms` give, each behind its
/// equals sign.
pub open spec fn ratings_upto(terms: Seq<Seq<u8>>, upto: int) -> Option<Seq<u64>>
    decreases upto,
{
    if upto <= 0 {
        Some(Seq::empty())
    } else {
        match (ratings_upto(terms, upto - 1), split_once_of(terms[upto - 1], seq![61u8])) {
            (Some(before), Some((_, number))) => match small(number) {
                Some(v) => Some(before.push(v)),
                None => None,
            },
            _ => None,
        }
    }
}

/// The part that `line` writes: four ratings or more, with commas
/// between them and one byte behind them; the first four count.
pub open spec fn part_of(line: Seq<u8>) -> Option<Part> {
    if line.len() == 0 {
        None
    } else {
        let terms = parts_of(line.drop_last(), seq![44u8]);
        match ratings_upto(terms, terms.len() as int) {
            None => None,
            Some(values) => if values.len() < 4 {
                None
            } else {
                Some(Part { x: values[0], m: values[1], a: values[2], s: values[3] })
            },
        }
    }
}

/// The parts that the first `upto` of `lines` write.
pub open spec fn parts_upto(lines: Seq<Seq<u8>>, upto: int) -> Option<Seq<Part>>
    decreases upto,
{
    if upto <= 0 {
        Some(Seq::empty())
    } else {
        match (parts_upto(lines, upto - 1), part_of(lines[upto - 1])) {
            (Some(before), Some(part)) => Some(before.push(part)),
            _ => None,
        }
    }
}

/// What a text holds: the workflows with their names, and the parts.
pub struct Sheet {
    pub names: Seq<Seq<u8>>,
    pub flows: Seq<Flow>,
    pub parts: Seq<Part>,
}

/// What `text` holds: the lines of workflows, an empty line, and the
/// lines of parts.
pub open spec fn sheet_of(text: Seq<u8>) -> Option<Sheet> {
    match split_once_of(text, seq![10u8, 10u8]) {
        None => None,
        Some((top, bottom)) => {
            let names = flow_names(lines_of(top));
            match (
                flows_upto(names, lines_of(top), lines_of(top).len() as int),
                parts_upto(lines_of(bottom), lines_of(bottom).len() as int),
            ) {
                (Some(flows), Some(parts)) => Some(Sheet { names, flows, parts }),
                _ => None,
            }
        },
    }
}

/// Once a rule is not read, the list is not read.
proof fn lemma_rules_lost(names: Seq<Seq<u8>>, terms: Seq<Seq<u8>>, a: int, b: int)
    requires
        a <= b,
        rules_upto(names, terms, a) is None,
    ensures
        rules_upto(names, terms, b) is None,
    decreases b - a,
{
    if a < b {
        lemma_rules_lost(names, terms, a, b - 1);
    }
}

/// Once a workflow is not read, the list is not read.
proof fn lemma_flows_lost(names: Seq<Seq<u8>>, lines: Seq<Seq<u8>>, a: int, b: int)
    requires
        a <= b,
        flows_upto(names, lines, a) is None,
    ensures
        flows_upto(names, lines, b) is None,
    decreases b - a,
{
    if a < b {
        lemma_flows_lost(names, lines, a, b - 1);
    }
}

/// Once a rating is not read, the list is not read.
proof fn lemma_ratings_lost(terms: Seq<Seq<u8>>, a: int, b: int)
    requires
        a <= b,
        ratings_upto(terms, a) is None,
    ensures
        ratings_upto(terms, b) is None,
    decreases b - a,
{
    if a < b {
        lemma_ratings_lost(terms, a, b - 1);
    }
}

/// Once a part is not read, the list is not read.
proof fn lemma_parts_lost(lines: Seq<Seq<u8>>, a: int, b: int)
    requires
        a <= b,
        parts_upto(lines, a) is None,
    ensures
        parts_upto(lines, b) is None,
    decreases b - a,
{
    if a < b {
        lemma_parts_lost(lines, a, b - 1);
    }
}

impl RuleResult {
    /// Where the text `value` sends parts, with `names` the names of
    /// the workflows.
    pub fn from(names: &Vec<Vec<u8>>, value: &Vec<u8>) -> (r: RuleResult)
        ensures
            r == destination_of(names.deep_view(), value@),
            r matches RuleResult::NextRule(i) ==> i < names@.len(),
    {
        if value.len() == 1 && value[0] == 65 {
            assert(value@ =~= seq![65u8]);
            RuleResult::FinalStatus(true)
        } else if value.len() == 1 && value[0] == 82 {
            assert(value@ =~= seq![82u8]);
            RuleResult::FinalStatus(false)
        } else {
            assert(value@ != seq![65u8]) by {
                if value@ == seq![65u8] {
                    assert(seq![65u8].len() == 1);
                    assert(seq![65u8][0] == 65);
                }
            }
            assert(value@ != seq![82u8]) by {
                if value@ == seq![82u8] {
                    assert(seq![82u8].len() == 1);
                    assert(seq![82u8][0] == 82);
                }
            }
            match resolve(names, value) {
                Some(i) => RuleResult::NextRule(i),
                None => RuleResult::Missing,
            }
        }
    }
}

/// The rule that `term` writes.
pub fn read_rule(names: &Vec<Vec<u8>>, term: &Vec<u8>) -> (r: Option<Rule>)
    ensures
        r == rule_of(names.deep_view(), term@),
{
    if term.len() < 2 {
        return None;
    }
    let category: u8 = if term[0] == 120 {
        0
    } else if term[0] == 109 {
        1
    } else if term[0] == 97 {
        2
    } else if term[0] == 115 {
        3
    } else {
        return None;
    };
    if term[1] != 60 && term[1] != 62 {
        return None;
    }
    let colon: [u8; 1] = [58];
    assert(colon@ =~= seq![58u8]);
    let tail = cut(term, 2, term.len());
    let (number, dest) = match split_once(tail.as_slice(), colon.as_slice()) {
        Some(p) => p,
        None => {
            return None;
        },
    };
    let comparison = match parse_u64(number.as_slice()) {
        Some(v) => v,
        None => {
            return None;
        },
    };
    Some(Rule { category, less: term[1] == 60, comparison, destination: RuleResult::from(names, &dest) })
}

/// The workflow that `line` writes.
pub fn read_flow(names: &Vec<Vec<u8>>, line: &Vec<u8>) -> (r: Option<RuleCategory>)
    ensures
        match r {
            Some(c) => flow_of(names.deep_view(), line@) == Some(
                Flow { rules: c.rules@, fallthrough: c.fallthrough },
            ),
            None => flow_of(names.deep_view(), line@) is None,
        },
{
    let brace: [u8; 1] = [123];
    let comma: [u8; 1] = [44];
    assert(brace@ =~= seq![123u8]);
    assert(comma@ =~= seq![44u8]);
    let (_, mut rest) = match split_once(line.as_slice(), brace.as_slice()) {
        Some(p) => p,
        None => {
            return None;
        },
    };
    if rest.len() == 0 || rest[rest.len() - 1] != 125 {
        return None;
    }
    let ghost whole = rest@;
    rest.pop();
    assert(rest@ =~= whole.drop_last());
    let terms = split_by(rest.as_slice(), comma.as_slice());
    let ghost model = terms.deep_view();
    let ghost name_model = names.deep_view();
    let n = terms.len() - 1;
    let mut rules: Vec<Rule> = Vec::new();
    let mut k: usize = 0;
    while k < n
        invariant
            k <= n,
            n + 1 == terms@.len(),
            model == terms.deep_view(),
            name_model == names.deep_view(),
            rules_upto(name_model, model, k as int) == Some(rules@),
            flow_of(name_model, line@) == match rules_upto(name_model, model, n as int) {
                None => None,
                Some(rules) => Some(
                    Flow { rules, fallthrough: destination_of(name_model, model.last()) },
                ),
            },
        decreases n - k,
    {
        assert(model[k as int] =~= terms@[k as int]@);
        match read_rule(names, &terms[k]) {
            Some(rule) => {
                rules.push(rule);
            },
            None => {
                proof {
                    lemma_rules_lost(name_model, model, k + 1, n as int);
                }
                return None;
            },
        }
        k += 1;
    }
    assert(model[n as int] =~= terms@[n as int]@);
    assert(model.last() == model[n as int]);
    let fallthrough = RuleResult::from(names, &terms[n]);
    Some(RuleCategory { rules, fallthrough })
}

/// The part that `line` writes.
pub fn read_part(line: &Vec<u8>) -> (r: Option<Part>)
    ensures
        r == part_of(line@),
{
    if line.len() == 0 {
        return None;
    }
    let equals: [u8; 1] = [61];
    let comma: [u8; 1] = [44];
    assert(equals@ =~= seq![61u8]);
    assert(comma@ =~= seq![44u8]);
    let body = cut(line, 0, line.len() - 1);
    assert(body@ =~= line@.drop_last());
    let terms = split_by(body.as_slice(), comma.as_slice());
    let ghost model = terms.deep_view();
    let n = terms.len();
    let mut values: Vec<u64> = Vec::new();
    let mut k: usize = 0;
    while k < n
        invariant
            k <= n,
            n == terms@.len(),
            model == terms.deep_view(),
            equals@ == seq![61u8],
            ratings_upto(model, k as int) == Some(values@),
            line@.len() > 0,
            model == parts_of(line@.drop_last(), seq![44u8]),
        decreases n - k,
    {
        assert(model[k as int] =~= terms@[k as int]@);
        let number = match split_once(terms[k].as_slice(), equals.as_slice()) {
            Some((_, number)) => number,
            None => {
                proof {
                    lemma_ratings_lost(model, k + 1, n as int);
                }
                return None;
            },
        };
        match parse_u64(number.as_slice()) {
            Some(v) => {
                values.push(v);
            },
            None => {
                proof {
                    lemma_ratings_lost(model, k + 1, n as int);
                }
                return None;
            },
        }
        k += 1;
    }
    if values.len() < 4 {
        return None;
    }
    Some(Part { x: values[0], m: values[1], a: values[2], s: values[3] })
}

/// The models of the workflows `list`.
pub open spec fn flow_models(list: Seq<RuleCategory>) -> Seq<Flow> {
    Seq::new(list.len(), |i: int| Flow { rules: list[i].rules@, fallthrough: list[i].fallthrough })
}

/// The workflows and the parts that `input` holds; `None` where it is
/// not written as `sheet_of` reads it.
pub fn parse(input: &[u8]) -> (r: Option<(Rules, Vec<Part>)>)
    ensures
        match r {
            Some((rules, parts)) => sheet_of(input@) == Some(
                Sheet { names: rules.names.deep_view(), flows: flows(&rules), parts: parts@ },
            ),
            None => sheet_of(input@) is None,
        },
{
    let gap: [u8; 2] = [10, 10];
    let brace: [u8; 1] = [123];
    assert(gap@ =~= seq![10u8, 10u8]);
    assert(brace@ =~= seq![123u8]);
    let (top, bottom) = match split_once(input, gap.as_slice()) {
        Some(p) => p,
        None => {
            return None;
        },
    };
    let lines = split_lines(top.as_slice());
    let ghost model = lines.deep_view();
    let n = lines.len();
    let mut names: Vec<Vec<u8>> = Vec::new();
    let mut i: usize = 0;
    while i < n
        invariant
            i <= n,
            n == lines@.len(),
            model == lines.deep_view(),
            brace@ == seq![123u8],
            names@.len() == i,
            forall|j: int| 0 <= j < i ==> (#[trigger] names@[j])@ == flow_name(model[j]),
        decreases n - i,
    {
        assert(model[i as int] =~= lines@[i as int]@);
        let name = match split_once(lines[i].as_slice(), brace.as_slice()) {
            Some((name, _)) => name,
            None => crate::text::copy_line(&lines[i]),
        };
        names.push(name);
        i += 1;
    }
    let ghost name_model = names.deep_view();
    assert(name_model =~= flow_names(model)) by {
        assert forall|j: int| 0 <= j < name_model.len() implies name_model[j] == flow_name(
            model[j],
        ) by {
            assert(name_model[j] =~= names@[j]@);
        }
    }
    let mut list: Vec<RuleCategory> = Vec::new();
    let mut i: usize = 0;
    while i < n
        invariant
            i <= n,
            n == lines@.len(),
            model == lines.deep_view(),
            name_model == names.deep_view(),
            flows_upto(name_model, model, i as int) == Some(flow_models(list@)),
            split_once_of(input@, seq![10u8, 10u8]) == Some((top@, bottom@)),
            model == lines_of(top@),
            name_model == flow_names(model),
        decreases n - i,
    {
        assert(model[i as int] =~= lines@[i as int]@);
        match read_flow(&names, &lines[i]) {
            Some(category) => {
                let ghost before = list@;
                list.push(category);
                assert(flow_models(list@) =~= flow_models(before).push(
                    Flow { rules: category.rules@, fallthrough: category.fallthrough },
                ));
            },
            None => {
                proof {
                    lemma_flows_lost(name_model, model, i + 1, n as int);
                }
                return None;
            },
        }
        i += 1;
    }
    let rows = split_lines(bottom.as_slice());
    let ghost row_model = rows.deep_view();
    let m = rows.len();
    let mut parts: Vec<Part> = Vec::new();
    let mut i: usize = 0;
    while i < m
        invariant
            i <= m,
            m == rows@.len(),
            row_model == rows.deep_view(),
            parts_upto(row_model, i as int) == Some(parts@),
            split_once_of(input@, seq![10u8, 10u8]) == Some((top@, bottom@)),
            model == lines_of(top@),
            name_model == flow_names(model),
            row_model == lines_of(bottom@),
            flows_upto(name_model, model, model.len() as int) is Some,
        decreases m - i,
    {
        assert(row_model[i as int] =~= rows@[i as int]@);
        match read_part(&rows[i]) {
            Some(part) => {
                parts.push(part);
            },
            None => {
                proof {
                    lemma_parts_lost(row_model, i + 1, m as int);
                }
                return None;
            },
        }
        i += 1;
    }
    let rules = Rules { names, rules: list };
    assert(flows(&rules) =~= flow_models(list@));
    Some((rules, parts))
}

/// The sum of the four ratings of `part`, held within 64 bits.
pub open spec fn score_of(part: Part) -> u64 {
    if part.spec_score() > u64::MAX {
        u64::MAX
    } else {
        part.spec_score() as u64
    }
}

/// The sum of the scores of those among the first `upto` of `parts` that
/// the workflows accept, starting each at workflow `start`; nothing where
/// a part gets no verdict or the sum exceeds 64 bits.
pub open spec fn accepted_sum(all: Seq<Flow>, start: int, parts: Seq<Part>, upto: int) -> Option<u64>
    decreases upto,
{
    if upto <= 0 {
        Some(0u64)
    } else {
        match (accepted_sum(all, start, parts, upto - 1), verdict(all, start, parts[upto - 1], all.len())) {
            (Some(before), Some(accepted)) => if !accepted {
                Some(before)
            } else if before + score_of(parts[upto - 1]) <= u64::MAX {
                Some((before + score_of(parts[upto - 1])) as u64)
            } else {
                None
            },
            _ => None,
        }
    }
}

/// Once the sum is lost, it stays lost.
proof fn lemma_sum_lost(all: Seq<Flow>, start: int, parts: Seq<Part>, a: int, b: int)
    requires
        a <= b,
        accepted_sum(all, start, parts, a) is None,
    ensures
        accepted_sum(all, start, parts, b) is None,
    decreases b - a,
{
    if a < b {
        lemma_sum_lost(all, start, parts, a, b - 1);
    }
}

/// The name of the workflow at which every part starts.
pub open spec fn entry_name() -> Seq<u8> {
    seq![105u8, 110u8]
}

/// The sum of the scores of the parts that the workflows of `text`
/// accept; nothing where the text is not read, no workflow is named
/// `in`, a part gets no verdict or the sum exceeds 64 bits.
pub open spec fn accepted_score(text: Seq<u8>) -> Option<u64> {
    match sheet_of(text) {
        None => None,
        Some(sheet) => match resolved(sheet.names, entry_name()) {
            None => None,
            Some(start) => accepted_sum(sheet.flows, start as int, sheet.parts, sheet.parts.len() as int),
        },
    }
}

/// The accepted blocks among `items`, in order, without a block that
/// equals the accepted block before it.
pub open spec fn kept(items: Seq<(PartRange, RuleResult)>) -> Seq<PartRange>
    decreases items.len(),
{
    if items.len() == 0 {
        Seq::empty()
    } else {
        let before = kept(items.drop_last());
        if items.last().1 == RuleResult::FinalStatus(true) && (before.len() == 0 || before.last()
            != items.last().0) {
            before.push(items.last().0)
        } else {
            before
        }
    }
}

/// How many parts the first `upto` of `blocks` hold together; nothing
/// where a block has no count or the sum exceeds 64 bits.
pub open spec fn block_total(blocks: Seq<PartRange>, upto: int) -> Option<u64>
    decreases upto,
{
    if upto <= 0 {
        Some(0u64)
    } else {
        match (block_total(blocks, upto - 1), blocks[upto - 1].spec_count()) {
            (Some(before), Some(count)) => if before + count <= u64::MAX {
                Some((before + count) as u64)
            } else {
                None
            },
            _ => None,
        }
    }
}

/// Once the total is lost, it stays lost.
proof fn lemma_total_lost(blocks: Seq<PartRange>, a: int, b: int)
    requires
        a <= b,
        block_total(blocks, a) is None,
    ensures
        block_total(blocks, b) is None,
    decreases b - a,
{
    if a < b {
        lemma_total_lost(blocks, a, b - 1);
    }
}

/// How many parts with ratings from 1 to 4000 the workflows of `text`
/// accept; nothing where the text is not read, no workflow is named
/// `in`, the sorting is given up or a number exceeds 64 bits.
pub open spec fn accepted_count(text: Seq<u8>) -> Option<u64> {
    match sheet_of(text) {
        None => None,
        Some(sheet) => match resolved(sheet.names, entry_name()) {
            None => None,
            Some(start) => match drained(
                sheet.flows,
                seq![
                    (
                        start,
                        PartRange {
                            x: Range { start: 1, end: 4001 },
                            m: Range { start: 1, end: 4001 },
                            a: Range { start: 1, end: 4001 },
                            s: Range { start: 1, end: 4001 },
                        },
                    ),
                ],
                Seq::empty(),
                VISITS as nat,
            ) {
                None => None,
                Some(items) => block_total(kept(items), kept(items).len() as int),
            },
        },
    }
}

/// The accepted blocks among `items`, without repeats in a row.
pub fn keep(items: &Vec<(PartRange, RuleResult)>) -> (r: Vec<PartRange>)
    ensures
        r@ == kept(items@),
{
    let mut out: Vec<PartRange> = Vec::new();
    let n = items.len();
    let mut i: usize = 0;
    assert(items@.take(0) =~= Seq::empty());
    while i < n
        invariant
            i <= n,
            n == items@.len(),
            out@ == kept(items@.take(i as int)),
        decreases n - i,
    {
        let (block, dest) = items[i];
        proof {
            assert(items@.take(i + 1).drop_last() =~= items@.take(i as int));
            assert(items@.take(i + 1).last() == items@[i as int]);
        }
        let accepted = match dest {
            RuleResult::FinalStatus(v) => v,
            _ => false,
        };
        if accepted && (out.len() == 0 || out[out.len() - 1] != block) {
            out.push(block);
        }
        i += 1;
    }
    assert(items@.take(n as int) =~= items@);
    out
}

/// How many parts `blocks` hold together.
pub fn total(blocks: &Vec<PartRange>) -> (r: Option<u64>)
    ensures
        r == block_total(blocks@, blocks@.len() as int),
{
    let n = blocks.len();
    let mut sum: u64 = 0;
    let mut i: usize = 0;
    while i < n
        invariant
            i <= n,
            n == blocks@.len(),
            block_total(blocks@, i as int) == Some(sum),
        decreases n - i,
    {
        let next = match blocks[i].count() {
            Some(count) => sum.checked_add(count),
            None => None,
        };
        match next {
            Some(v) => {
                sum = v;
            },
            None => {
                proof {
                    lemma_total_lost(blocks@, i + 1, n as int);
                }
                return None;
            },
        }
        i += 1;
    }
    Some(sum)
}

/// The sum of the scores of the parts that the workflows accept.
pub fn part_one(input: &str) -> (r: Option<u64>)
    ensures
        r == accepted_score(input.spec_bytes()),
{
    let (rules, parts) = match parse(input.as_bytes()) {
        Some(p) => p,
        None => {
            return None;
        },
    };
    let mut entry: Vec<u8> = Vec::new();
    entry.push(105);
    entry.push(110);
    assert(entry@ =~= entry_name());
    let start = match resolve(&rules.names, &entry) {
        Some(i) => i,
        None => {
            return None;
        },
    };
    let ghost all = flows(&rules);
    let n = parts.len();
    let mut sum: u64 = 0;
    let mut i: usize = 0;
    while i < n
        invariant
            i <= n,
            n == parts@.len(),
            all == flows(&rules),
            all.len() == rules.rules@.len(),
            accepted_sum(all, start as int, parts@, i as int) == Some(sum),
            accepted_score(input.spec_bytes()) == accepted_sum(all, start as int, parts@, n as int),
        decreases n - i,
    {
        let next = match rules.apply(start, &parts[i]) {
            Some(true) => sum.checked_add(parts[i].score()),
            Some(false) => Some(sum),
            None => None,
        };
        match next {
            Some(v) => {
                sum = v;
            },
            None => {
                proof {
                    lemma_sum_lost(all, start as int, parts@, i + 1, n as int);
                }
                return None;
            },
        }
        i += 1;
    }
    Some(sum)
}

/// How many parts, of all with ratings from 1 to 4000, the workflows
/// accept.
pub fn part_two(input: &str) -> (r: Option<u64>)
    ensures
        r == accepted_count(input.spec_bytes()),
{
    let (rules, _) = match parse(input.as_bytes()) {
        Some(p) => p,
        None => {
            return None;
        },
    };
    let mut entry: Vec<u8> = Vec::new();
    entry.push(105);
    entry.push(110);
    assert(entry@ =~= entry_name());
    let start = match resolve(&rules.names, &entry) {
        Some(i) => i,
        None => {
            return None;
        },
    };
    let results = match rules.apply_range(start, PartRange::new()) {
        Some(v) => v,
        None => {
            return None;
        },
    };
    let blocks = keep(&results);
    total(&blocks)
}

} // verus!
