//! Scratchcards: how many of a card's numbers win, what the cards are
//! worth, and how many cards there are once each win has been paid in
//! copies of the cards that follow.

use crate::patterns::{find_all, numbers, numbers_of, regex_matches, spans, Span};
use crate::text::{lines_of, split_lines, split_once, split_once_of};
use vstd::prelude::*;
use vstd::string::StringSliceAdditionalSpecFns;

verus! {

/// The greatest number that a card may show, and the greatest count or
/// worth that is reckoned with.
pub const MAX_NR: u64 = 0x7FFF_FFFF;

/// The expression for a number on a card: group 1 holds it.
pub open spec fn number_pattern() -> Seq<char> {
    "(?: {0,2})(?<nr>\\d+)"@
}

/// What parts the card's number from its numbers.
pub open spec fn colon() -> Seq<u8> {
    seq![58u8, 32u8]
}

/// What parts the winning numbers from the card's own.
pub open spec fn bar() -> Seq<u8> {
    seq![32u8, 124u8, 32u8]
}

/// How many of the first `upto` of `have` are among `winning`.
pub open spec fn hits(winning: Seq<u64>, have: Seq<u64>, upto: int) -> nat
    decreases upto,
{
    if upto <= 0 {
        0
    } else if winning.contains(have[upto - 1]) {
        hits(winning, have, upto - 1) + 1
    } else {
        hits(winning, have, upto - 1)
    }
}

/// How many numbers of a card win, with `left` the text of the winning
/// numbers and `right` that of the card's own, and with what the
/// expression finds in each; nothing where a number is not read.
pub open spec fn wins_of(
    left: Seq<u8>,
    found_left: Seq<Seq<Span>>,
    right: Seq<u8>,
    found_right: Seq<Seq<Span>>,
) -> Option<nat> {
    match (numbers_of(left, found_left, 1, MAX_NR), numbers_of(right, found_right, 1, MAX_NR)) {
        (Some(winning), Some(have)) => Some(hits(winning, have, have.len() as int)),
        _ => None,
    }
}

/// How many numbers of the card that `line` writes win.
pub open spec fn card_wins(line: Seq<u8>) -> Option<nat> {
    match split_once_of(line, colon()) {
        Some((_, rest)) => match split_once_of(rest, bar()) {
            Some((left, right)) => match (
                regex_matches(number_pattern(), left),
                regex_matches(number_pattern(), right),
            ) {
                (Some(found_left), Some(found_right)) => wins_of(left, found_left, right, found_right),
                _ => None,
            },
            None => None,
        },
        None => None,
    }
}

/// How many numbers win on each of the cards that the first `upto` of
/// `lines` write.
pub open spec fn wins_upto(lines: Seq<Seq<u8>>, upto: int) -> Option<Seq<nat>>
    decreases upto,
{
    if upto <= 0 {
        Some(Seq::empty())
    } else {
        match (wins_upto(lines, upto - 1), card_wins(lines[upto - 1])) {
            (Some(before), Some(wins)) => Some(before.push(wins)),
            _ => None,
        }
    }
}

/// Two to the power `k`.
pub open spec fn doubled(k: nat) -> nat
    decreases k,
{
    if k == 0 {
        1
    } else {
        2 * doubled((k - 1) as nat)
    }
}

/// What a card with `wins` winning numbers is worth: nothing for none,
/// one point for one, and twice as much for each further one.
pub open spec fn worth(wins: nat) -> nat {
    if wins == 0 {
        0
    } else {
        doubled((wins - 1) as nat)
    }
}

/// What the first `upto` cards are worth together.
pub open spec fn worth_upto(wins: Seq<nat>, upto: int) -> nat
    decreases upto,
{
    if upto <= 0 {
        0
    } else {
        worth_upto(wins, upto - 1) + worth(wins[upto - 1])
    }
}

/// How many there are of each card once the first `upto` cards have
/// paid out: one of each to begin with, and each copy of a card with
/// `w` winning numbers adds one copy to each of the `w` cards behind it.
pub open spec fn copies_after(wins: Seq<nat>, upto: int) -> Seq<nat>
    decreases upto,
{
    if upto <= 0 {
        Seq::new(wins.len(), |j: int| 1nat)
    } else {
        let before = copies_after(wins, upto - 1);
        Seq::new(
            wins.len(),
            |j: int|
                if upto - 1 < j <= upto - 1 + wins[upto - 1] {
                    before[j] + before[upto - 1]
                } else {
                    before[j]
                },
        )
    }
}

/// The sum of the first `upto` of `amounts`.
pub open spec fn sum_upto(amounts: Seq<nat>, upto: int) -> nat
    decreases upto,
{
    if upto <= 0 {
        0
    } else {
        sum_upto(amounts, upto - 1) + amounts[upto - 1]
    }
}

/// Whether each of `amounts` is at most `limit`.
pub open spec fn all_within(amounts: Seq<nat>, limit: nat) -> bool {
    forall|j: int| 0 <= j < amounts.len() ==> #[trigger] amounts[j] <= limit
}

/// What the cards of `text` are worth; nothing where a card is not
/// read, or a card's worth or the sum exceeds `MAX_NR`.
pub open spec fn total_worth(text: Seq<u8>) -> Option<u32> {
    match wins_upto(lines_of(text), lines_of(text).len() as int) {
        Some(wins) => if (forall|i: int| 0 <= i < wins.len() ==> #[trigger] wins[i] <= 31) && worth_upto(
            wins,
            wins.len() as int,
        ) <= MAX_NR {
            Some(worth_upto(wins, wins.len() as int) as u32)
        } else {
            None
        },
        None => None,
    }
}

/// How many cards there are in the end; nothing where a card is not
/// read, the copies of one card exceed `MAX_NR` or the sum 32 bits.
pub open spec fn total_cards(text: Seq<u8>) -> Option<u32> {
    match wins_upto(lines_of(text), lines_of(text).len() as int) {
        Some(wins) => {
            let copies = copies_after(wins, wins.len() as int);
            if all_within(copies, MAX_NR as nat) && sum_upto(copies, copies.len() as int) <= u32::MAX {
                Some(sum_upto(copies, copies.len() as int) as u32)
            } else {
                None
            }
        },
        None => None,
    }
}

/// Once a card is not read, the list is not read.
proof fn lemma_wins_lost(lines: Seq<Seq<u8>>, a: int, b: int)
    requires
        a <= b,
        wins_upto(lines, a) is None,
    ensures
        wins_upto(lines, b) is None,
    decreases b - a,
{
    if a < b {
        lemma_wins_lost(lines, a, b - 1);
    }
}

/// `wins_upto` reads one count for each line.
proof fn lemma_wins_len(lines: Seq<Seq<u8>>, upto: int)
    requires
        0 <= upto,
        wins_upto(lines, upto) is Some,
    ensures
        wins_upto(lines, upto)->Some_0.len() == upto,
    decreases upto,
{
    if upto > 0 {
        lemma_wins_len(lines, upto - 1);
    }
}

/// There is one number of copies for each card.
pub proof fn lemma_copies_len(wins: Seq<nat>, upto: int)
    ensures
        copies_after(wins, upto).len() == wins.len(),
    decreases upto,
{
    if upto > 0 {
        lemma_copies_len(wins, upto - 1);
    }
}

/// The copies of a card never become fewer, and there is always one.
pub proof fn lemma_copies_grow(wins: Seq<nat>, a: int, b: int, j: int)
    requires
        0 <= a <= b,
        0 <= j < wins.len(),
    ensures
        1 <= copies_after(wins, a)[j] <= copies_after(wins, b)[j],
    decreases b - a,
{
    lemma_copies_len(wins, a);
    lemma_copies_len(wins, b);
    if a < b {
        lemma_copies_grow(wins, a, b - 1, j);
        lemma_copies_len(wins, b - 1);
    } else {
        lemma_copies_one(wins, a, j);
    }
}

/// There is at least one of each card.
proof fn lemma_copies_one(wins: Seq<nat>, upto: int, j: int)
    requires
        0 <= j < wins.len(),
    ensures
        1 <= copies_after(wins, upto)[j],
    decreases upto,
{
    if upto > 0 {
        lemma_copies_one(wins, upto - 1, j);
        lemma_copies_len(wins, upto - 1);
    }
}

/// A card that has paid out keeps its number of copies.
pub proof fn lemma_copies_settled(wins: Seq<nat>, a: int, b: int, j: int)
    requires
        0 <= j < a <= b,
        j < wins.len(),
    ensures
        copies_after(wins, a)[j] == copies_after(wins, b)[j],
    decreases b - a,
{
    if a < b {
        lemma_copies_settled(wins, a, b - 1, j);
        lemma_copies_len(wins, b - 1);
    }
}

/// The powers of two grow.
proof fn lemma_doubled_grows(a: nat, b: nat)
    requires
        a <= b,
    ensures
        doubled(a) <= doubled(b),
        doubled(a) >= 1,
    decreases b,
{
    if a < b {
        lemma_doubled_grows(a, (b - 1) as nat);
    } else if a > 0 {
        lemma_doubled_grows((a - 1) as nat, (a - 1) as nat);
    }
}

/// The sum of worths is at least each worth.
proof fn lemma_worth_covers(wins: Seq<nat>, upto: int, i: int)
    requires
        0 <= i < upto <= wins.len(),
    ensures
        worth(wins[i]) <= worth_upto(wins, upto),
    decreases upto,
{
    if i < upto - 1 {
        lemma_worth_covers(wins, upto - 1, i);
    }
}

/// The sums of worths grow.
proof fn lemma_worth_grows(wins: Seq<nat>, a: int, b: int)
    requires
        a <= b,
    ensures
        worth_upto(wins, a) <= worth_upto(wins, b),
    decreases b - a,
{
    if a < b {
        lemma_worth_grows(wins, a, b - 1);
    }
}

/// The sums of amounts grow.
proof fn lemma_sum_grows(amounts: Seq<nat>, a: int, b: int)
    requires
        a <= b,
    ensures
        sum_upto(amounts, a) <= sum_upto(amounts, b),
    decreases b - a,
{
    if a < b {
        lemma_sum_grows(amounts, a, b - 1);
    }
}

/// Whether `list` holds `value`.
pub fn holds(list: &Vec<u64>, value: u64) -> (r: bool)
    ensures
        r == list@.contains(value),
{
    let mut i: usize = 0;
    while i < list.len()
        invariant
            i <= list@.len(),
            forall|j: int| 0 <= j < i ==> list@[j] != value,
        decreases list@.len() - i,
    {
        if list[i] == value {
            return true;
        }
        i += 1;
    }
    false
}

/// How many numbers of a card win, with what the expression finds in
/// the text of the winning numbers and in that of the card's own.
pub fn count_wins(
    left: &[u8],
    found_left: &Vec<Vec<Span>>,
    right: &[u8],
    found_right: &Vec<Vec<Span>>,
) -> (r: Option<usize>)
    ensures
        match r {
            Some(n) => wins_of(left@, spans(found_left), right@, spans(found_right)) == Some(n as nat),
            None => wins_of(left@, spans(found_left), right@, spans(found_right)) is None,
        },
{
    let winning = match numbers(left, found_left, 1, MAX_NR) {
        Some(v) => v,
        None => {
            return None;
        },
    };
    let have = match numbers(right, found_right, 1, MAX_NR) {
        Some(v) => v,
        None => {
            return None;
        },
    };
    let mut count: usize = 0;
    let mut i: usize = 0;
    while i < have.len()
        invariant
            i <= have@.len(),
            count <= i,
            count == hits(winning@, have@, i as int),
        decreases have@.len() - i,
    {
        if holds(&winning, have[i]) {
            count += 1;
        }
        i += 1;
    }
    Some(count)
}

/// How many numbers of the card that `line` writes win.
pub fn read_card(line: &[u8]) -> (r: Option<usize>)
    ensures
        match r {
            Some(n) => card_wins(line@) == Some(n as nat),
            None => card_wins(line@) is None,
        },
{
    let colon_bytes: [u8; 2] = [58, 32];
    let bar_bytes: [u8; 3] = [32, 124, 32];
    assert(colon_bytes@ =~= colon());
    assert(bar_bytes@ =~= bar());
    let (_, rest) = match split_once(line, colon_bytes.as_slice()) {
        Some(p) => p,
        None => {
            return None;
        },
    };
    let (left, right) = match split_once(rest.as_slice(), bar_bytes.as_slice()) {
        Some(p) => p,
        None => {
            return None;
        },
    };
    let found_left = match find_all("(?: {0,2})(?<nr>\\d+)", left.as_slice()) {
        Some(v) => v,
        None => {
            return None;
        },
    };
    let found_right = match find_all("(?: {0,2})(?<nr>\\d+)", right.as_slice()) {
        Some(v) => v,
        None => {
            return None;
        },
    };
    count_wins(left.as_slice(), &found_left, right.as_slice(), &found_right)
}

/// The view of a list of counts.
pub open spec fn counts(list: Seq<usize>) -> Seq<nat> {
    Seq::new(list.len(), |i: int| list[i] as nat)
}

/// How many numbers win on each of the cards that `input` writes.
pub fn read_cards(input: &[u8]) -> (r: Option<Vec<usize>>)
    ensures
        match r {
            Some(list) => wins_upto(lines_of(input@), lines_of(input@).len() as int) == Some(
                counts(list@),
            ),
            None => wins_upto(lines_of(input@), lines_of(input@).len() as int) is None,
        },
{
    let lines = split_lines(input);
    let ghost model = lines.deep_view();
    let n = lines.len();
    let mut out: Vec<usize> = Vec::new();
    let mut i: usize = 0;
    assert(counts(out@) =~= Seq::empty());
    while i < n
        invariant
            i <= n,
            n == lines@.len(),
            model == lines.deep_view(),
            model == lines_of(input@),
            wins_upto(model, i as int) == Some(counts(out@)),
        decreases n - i,
    {
        assert(model[i as int] =~= lines@[i as int]@);
        match read_card(lines[i].as_slice()) {
            Some(wins) => {
                let ghost before = out@;
                out.push(wins);
                assert(counts(out@) =~= counts(before).push(wins as nat));
            },
            None => {
                proof {
                    lemma_wins_lost(model, i + 1, n as int);
                }
                return None;
            },
        }
        i += 1;
    }
    Some(out)
}

/// What a card with `wins` winning numbers is worth; `None` beyond 31
/// of them.
pub fn points(wins: usize) -> (r: Option<u64>)
    ensures
        r == if wins <= 31 {
            Some(worth(wins as nat) as u64)
        } else {
            None
        },
        wins <= 31 ==> worth(wins as nat) <= 0x4000_0000,
{
    if wins > 31 {
        return None;
    }
    if wins == 0 {
        return Some(0);
    }
    let mut value: u64 = 1;
    let mut k: usize = 1;
    assert(doubled(0) == 1);
    while k < wins
        invariant
            1 <= k <= wins <= 31,
            value == doubled((k - 1) as nat),
            value <= 0x4000_0000,
        decreases wins - k,
    {
        assert(doubled(k as nat) == 2 * doubled((k - 1) as nat));
        assert(doubled((k + 1) as nat) == 2 * doubled(k as nat));
        proof {
            lemma_doubled_bound(k as nat);
        }
        value = value * 2;
        k += 1;
    }
    proof {
        lemma_doubled_bound((wins - 1) as nat);
    }
    Some(value)
}

/// Two to a power of at most 30 is at most 2^30.
proof fn lemma_doubled_bound(k: nat)
    requires
        k <= 30,
    ensures
        doubled(k) * doubled((30 - k) as nat) == 0x4000_0000,
        doubled(k) <= 0x4000_0000,
    decreases k,
{
    reveal_with_fuel(doubled, 32);
    assert(doubled(30) == 0x4000_0000);
    if k > 0 {
        lemma_doubled_bound((k - 1) as nat);
        let a = doubled((k - 1) as nat);
        let b = doubled((30 - k) as nat);
        assert(doubled(k) == 2 * a);
        assert(doubled((30 - (k - 1)) as nat) == 2 * b);
        assert((2 * a) * b == a * (2 * b)) by (nonlinear_arith);
    }
    lemma_doubled_grows(0, (30 - k) as nat);
    assert(doubled(k) <= doubled(k) * doubled((30 - k) as nat)) by (nonlinear_arith)
        requires
            doubled((30 - k) as nat) >= 1,
    ;
}

/// The view of a list of amounts.
pub open spec fn amounts_of(list: Seq<u64>) -> Seq<nat> {
    Seq::new(list.len(), |i: int| list[i] as nat)
}

/// What the cards with the winning numbers `wins` are worth together;
/// `None` where a card has more than 31 of them or the sum exceeds
/// `MAX_NR`.
pub fn sum_points(wins: &Vec<usize>) -> (r: Option<u32>)
    ensures
        r == if (forall|i: int| 0 <= i < wins@.len() ==> #[trigger] counts(wins@)[i] <= 31)
            && worth_upto(counts(wins@), wins@.len() as int) <= MAX_NR {
            Some(worth_upto(counts(wins@), wins@.len() as int) as u32)
        } else {
            None
        },
{
    let ghost model = counts(wins@);
    let n = wins.len();
    let mut sum: u64 = 0;
    let mut i: usize = 0;
    while i < n
        invariant
            i <= n,
            n == wins@.len(),
            model == counts(wins@),
            sum == worth_upto(model, i as int),
            sum <= MAX_NR,
            forall|j: int| 0 <= j < i ==> #[trigger] model[j] <= 31,
        decreases n - i,
    {
        assert(model[i as int] == wins@[i as int] as nat);
        match points(wins[i]) {
            Some(v) => {
                if sum + v > MAX_NR {
                    proof {
                        lemma_worth_grows(model, i + 1, n as int);
                    }
                    return None;
                }
                sum = sum + v;
            },
            None => {
                return None;
            },
        }
        i += 1;
    }
    Some(sum as u32)
}

/// How many cards there are in the end, with `wins` the winning
/// numbers of each card; `None` where the copies of one card exceed
/// `MAX_NR` or the sum exceeds 32 bits.
pub fn count_cards(wins: &Vec<usize>) -> (r: Option<u32>)
    ensures
        r == if all_within(copies_after(counts(wins@), wins@.len() as int), MAX_NR as nat)
            && sum_upto(copies_after(counts(wins@), wins@.len() as int), wins@.len() as int)
            <= u32::MAX {
            Some(sum_upto(copies_after(counts(wins@), wins@.len() as int), wins@.len() as int) as u32)
        } else {
            None
        },
{
    let ghost model = counts(wins@);
    let ghost goal = copies_after(model, wins@.len() as int);
    let n = wins.len();
    let mut amounts: Vec<u64> = Vec::new();
    let mut i: usize = 0;
    while i < n
        invariant
            i <= n,
            amounts@.len() == i,
            forall|j: int| 0 <= j < i ==> amounts@[j] == 1,
        decreases n - i,
    {
        amounts.push(1);
        i += 1;
    }
    assert(amounts_of(amounts@) =~= copies_after(model, 0));
    proof {
        lemma_copies_len(model, n as int);
    }
    let mut pos: usize = 0;
    while pos < n
        invariant
            pos <= n,
            n == wins@.len(),
            model == counts(wins@),
            model.len() == n,
            goal == copies_after(model, n as int),
            goal.len() == n,
            amounts@.len() == n,
            amounts_of(amounts@) == copies_after(model, pos as int),
            forall|j: int| 0 <= j < n ==> #[trigger] amounts@[j] <= MAX_NR,
        decreases n - pos,
    {
        let ghost before = copies_after(model, pos as int);
        let ghost after = copies_after(model, pos + 1);
        proof {
            lemma_copies_len(model, pos as int);
            lemma_copies_len(model, pos + 1);
        }
        assert(before[pos as int] == amounts@[pos as int] as nat);
        let amount = amounts[pos];
        let count = wins[pos];
        assert(model[pos as int] == count as nat);
        let mut k: usize = 0;
        while k < count && k < n - pos - 1
            invariant
                pos < n,
                n == wins@.len(),
                model == counts(wins@),
                model.len() == n,
                model[pos as int] == count as nat,
                goal == copies_after(model, n as int),
                goal.len() == n,
                amounts@.len() == n,
                before == copies_after(model, pos as int),
                after == copies_after(model, pos + 1),
                before.len() == n,
                after.len() == n,
                amount == before[pos as int],
                amount <= MAX_NR,
                k <= count,
                k <= n - pos - 1,
                forall|j: int| 0 <= j < n ==> #[trigger] amounts@[j] <= MAX_NR,
                forall|j: int|
                    0 <= j < n ==> #[trigger] amounts@[j] as nat == if pos < j <= pos + k {
                        before[j] + before[pos as int]
                    } else {
                        before[j]
                    },
            decreases count - k,
        {
            let at = pos + k + 1;
            let next = amounts[at] + amount;
            if next > MAX_NR {
                proof {
                    assert(after[at as int] == before[at as int] + before[pos as int]);
                    lemma_copies_grow(model, pos + 1, n as int, at as int);
                    assert(goal[at as int] > MAX_NR);
                }
                return None;
            }
            amounts.set(at, next);
            k += 1;
        }
        assert(amounts_of(amounts@) =~= after);
        pos += 1;
    }
    assert(amounts_of(amounts@) == goal);
    assert(all_within(goal, MAX_NR as nat)) by {
        assert forall|j: int| 0 <= j < goal.len() implies #[trigger] goal[j] <= MAX_NR as nat by {
            assert(goal[j] == amounts@[j] as nat);
        }
    }
    let mut sum: u64 = 0;
    let mut i: usize = 0;
    while i < n
        invariant
            i <= n,
            n == amounts@.len(),
            n == wins@.len(),
            model == counts(wins@),
            goal == copies_after(model, n as int),
            goal == amounts_of(amounts@),
            all_within(goal, MAX_NR as nat),
            sum == sum_upto(goal, i as int),
            sum <= u32::MAX,
            forall|j: int| 0 <= j < n ==> #[trigger] amounts@[j] <= MAX_NR,
        decreases n - i,
    {
        assert(goal[i as int] == amounts@[i as int] as nat);
        if sum + amounts[i] > 0xFFFF_FFFF {
            proof {
                lemma_sum_grows(goal, i + 1, n as int);
            }
            return None;
        }
        sum = sum + amounts[i];
        i += 1;
    }
    Some(sum as u32)
}

/// What the cards are worth together.
pub fn part_one(input: &str) -> (r: Option<u32>)
    ensures
        r == total_worth(input.spec_bytes()),
{
    match read_cards(input.as_bytes()) {
        Some(wins) => {
            proof {
                lemma_wins_len(lines_of(input.spec_bytes()), lines_of(input.spec_bytes()).len() as int);
            }
            sum_points(&wins)
        },
        None => None,
    }
}

/// How many cards there are in the end.
pub fn part_two(input: &str) -> (r: Option<u32>)
    ensures
        r == total_cards(input.spec_bytes()),
{
    match read_cards(input.as_bytes()) {
        Some(wins) => {
            proof {
                lemma_wins_len(lines_of(input.spec_bytes()), lines_of(input.spec_bytes()).len() as int);
                lemma_copies_len(counts(wins@), wins@.len() as int);
            }
            count_cards(&wins)
        },
        None => None,
    }
}

} // verus!
