//! Camel cards: hands are ranked by their kind and then card by card,
//! and each wins its bid times its rank.

use crate::sorting::{ascending, runs_of, sort, tally};
use crate::text::{gap_len, lines_of, parse_i64, signed_text, split_lines};
use vstd::prelude::*;
use vstd::string::StringSliceAdditionalSpecFns;

verus! {

/// The byte of the card that may stand in as a joker.
pub const JOKER: u8 = 74;

/// A hand: the text of its kind, the strengths of its cards, and its bid.
pub struct Hand {
    pub kind: Vec<u8>,
    pub cards: Vec<u8>,
    pub bet: i64,
}

/// The mathematical model of a [`Hand`].
pub struct HandModel {
    pub kind: Seq<u8>,
    pub cards: Seq<u8>,
    pub bet: int,
}

impl View for Hand {
    type V = HandModel;

    open spec fn view(&self) -> HandModel {
        HandModel { kind: self.kind@, cards: self.cards@, bet: self.bet as int }
    }
}

/// The strength of the card written as `byte`: the court cards and the
/// ten stand above every digit, and a joker below.
pub open spec fn card_value(byte: u8, jokers: bool) -> u8 {
    if byte == 84 {
        128
    } else if byte == 74 {
        if jokers {
            0
        } else {
            129
        }
    } else if byte == 81 {
        130
    } else if byte == 75 {
        132
    } else if byte == 65 {
        136
    } else {
        byte
    }
}

/// The decimal text of `n`.
pub open spec fn decimal_text(n: nat) -> Seq<u8>
    decreases n,
{
    if n < 10 {
        seq![(48 + n) as u8]
    } else {
        decimal_text(n / 10).push((48 + n % 10) as u8)
    }
}

/// The decimal texts of `counts`, from the last to the first, joined.
pub open spec fn joined_back(counts: Seq<u64>) -> Seq<u8>
    decreases counts.len(),
{
    if counts.len() == 0 {
        Seq::empty()
    } else {
        decimal_text(counts.last() as nat) + joined_back(counts.drop_last())
    }
}

/// The lengths of `runs`, for the runs of other values than `skip`.
pub open spec fn lengths(runs: Seq<(usize, u64)>, skip: Option<u64>) -> Seq<u64>
    decreases runs.len(),
{
    if runs.len() == 0 {
        Seq::empty()
    } else {
        let before = lengths(runs.drop_last(), skip);
        if skip == Some(runs.last().1) {
            before
        } else {
            before.push(runs.last().0 as u64)
        }
    }
}

/// How often `value` occurs in `s`.
pub open spec fn occurrences(s: Seq<u64>, value: u64) -> nat
    decreases s.len(),
{
    if s.len() == 0 {
        0
    } else {
        occurrences(s.drop_last(), value) + if s.last() == value {
            1nat
        } else {
            0nat
        }
    }
}

/// The bytes of `cards` as numbers.
pub open spec fn widened(cards: Seq<u8>) -> Seq<u64> {
    Seq::new(cards.len(), |k: int| cards[k] as u64)
}

/// How often each card occurs in `cards`, in ascending order.
pub open spec fn plain_counts(cards: Seq<u8>) -> Seq<u64> {
    ascending(lengths(runs_of(ascending(widened(cards))), None))
}

/// How often each card but the joker occurs in `cards`, in ascending
/// order, with the jokers counted towards the most frequent card; the
/// jokers alone where there is no other card.
pub open spec fn joker_counts(cards: Seq<u8>) -> Seq<u64> {
    let others = ascending(lengths(runs_of(ascending(widened(cards))), Some(JOKER as u64)));
    let jokers = occurrences(widened(cards), JOKER as u64);
    if others.len() == 0 {
        seq![if jokers > u64::MAX {
            u64::MAX
        } else {
            jokers as u64
        }]
    } else {
        others.update(
            others.len() - 1,
            if others.last() + jokers > u64::MAX {
                u64::MAX
            } else {
                (others.last() + jokers) as u64
            },
        )
    }
}

/// The text of the kind of the hand `cards`: how often each card occurs,
/// the most frequent first.
pub open spec fn kind_of(cards: Seq<u8>, jokers: bool) -> Seq<u8> {
    if jokers {
        joined_back(joker_counts(cards))
    } else {
        joined_back(plain_counts(cards))
    }
}

/// How the texts `a` and `b` compare byte by byte: `-1` where `a` comes
/// first, `1` where `b` does, `0` where they are equal. A text comes
/// before every text that continues it.
pub open spec fn text_order(a: Seq<u8>, b: Seq<u8>) -> int
    decreases a.len(),
{
    if a.len() == 0 {
        if b.len() == 0 {
            0
        } else {
            -1
        }
    } else if b.len() == 0 {
        1
    } else if a[0] < b[0] {
        -1
    } else if a[0] > b[0] {
        1
    } else {
        text_order(a.drop_first(), b.drop_first())
    }
}

/// How the cards `a` and `b` compare one by one as far as both reach:
/// the first pair of different cards decides.
pub open spec fn cards_order(a: Seq<u8>, b: Seq<u8>) -> int
    decreases a.len(),
{
    if a.len() == 0 || b.len() == 0 {
        0
    } else if a[0] < b[0] {
        -1
    } else if a[0] > b[0] {
        1
    } else {
        cards_order(a.drop_first(), b.drop_first())
    }
}

/// How two hands compare: by the text of their kind, then by their cards.
pub open spec fn hand_order(a: HandModel, b: HandModel) -> int {
    if text_order(a.kind, b.kind) != 0 {
        text_order(a.kind, b.kind)
    } else {
        cards_order(a.cards, b.cards)
    }
}

/// How many of the first `upto` of `hands` come before hand `i`: the
/// weaker ones, and the equal ones listed before it.
pub open spec fn beaten(hands: Seq<HandModel>, i: int, upto: int) -> int
    decreases upto,
{
    if upto <= 0 {
        0
    } else {
        let j = upto - 1;
        beaten(hands, i, upto - 1) + if hand_order(hands[j], hands[i]) < 0 || (j < i
            && hand_order(hands[j], hands[i]) == 0) {
            1int
        } else {
            0int
        }
    }
}

/// What the first `upto` of `hands` win together: each its bid times its
/// rank among all hands.
pub open spec fn winnings(hands: Seq<HandModel>, upto: int) -> int
    decreases upto,
{
    if upto <= 0 {
        0
    } else {
        winnings(hands, upto - 1) + (beaten(hands, upto - 1, hands.len() as int) + 1) * hands[upto
            - 1].bet
    }
}

/// The strength of the card written as `byte`.
pub fn byte_to_card_value(byte: &u8, is_part_two: bool) -> (r: u8)
    ensures
        r == card_value(*byte, is_part_two),
{
    let b = *byte;
    if b == 84 {
        128
    } else if b == 74 {
        if is_part_two {
            0
        } else {
            129
        }
    } else if b == 81 {
        130
    } else if b == 75 {
        132
    } else if b == 65 {
        136
    } else {
        b
    }
}

/// The decimal text of `n`.
pub fn decimal(n: u64) -> (r: Vec<u8>)
    ensures
        r@ == decimal_text(n as nat),
    decreases n,
{
    if n < 10 {
        let mut v: Vec<u8> = Vec::new();
        v.push(48 + n as u8);
        assert(v@ =~= seq![(48 + n) as u8]);
        v
    } else {
        let mut v = decimal(n / 10);
        v.push(48 + (n % 10) as u8);
        v
    }
}

/// Puts `more` behind `out`.
pub fn append(out: &mut Vec<u8>, more: &Vec<u8>)
    ensures
        final(out)@ == old(out)@ + more@,
{
    let ghost before = out@;
    let mut i: usize = 0;
    while i < more.len()
        invariant
            i <= more@.len(),
            out@ == before + more@.subrange(0, i as int),
        decreases more@.len() - i,
    {
        out.push(more[i]);
        assert(out@ =~= before + more@.subrange(0, i + 1));
        i += 1;
    }
    assert(more@.subrange(0, more@.len() as int) =~= more@);
}

/// The decimal texts of `counts`, from the last to the first, joined.
pub fn join_back(counts: &Vec<u64>) -> (r: Vec<u8>)
    ensures
        r@ == joined_back(counts@),
{
    let mut out: Vec<u8> = Vec::new();
    let mut k: usize = counts.len();
    assert(counts@.subrange(0, k as int) =~= counts@);
    assert(Seq::<u8>::empty() + joined_back(counts@) =~= joined_back(counts@));
    while k > 0
        invariant
            k <= counts@.len(),
            joined_back(counts@) == out@ + joined_back(counts@.subrange(0, k as int)),
        decreases k,
    {
        let ghost head = counts@.subrange(0, k as int);
        let ghost old_out = out@;
        k -= 1;
        let text = decimal(counts[k]);
        append(&mut out, &text);
        proof {
            assert(head.last() == counts@[k as int]);
            assert(head.drop_last() =~= counts@.subrange(0, k as int));
            assert(old_out + (text@ + joined_back(head.drop_last())) =~= (old_out + text@)
                + joined_back(head.drop_last()));
        }
    }
    assert(counts@.subrange(0, 0) =~= Seq::<u64>::empty());
    assert(out@ + Seq::<u8>::empty() =~= out@);
    out
}

/// The bytes of `cards` as numbers.
pub fn widen(cards: &Vec<u8>) -> (r: Vec<u64>)
    ensures
        r@ == widened(cards@),
{
    let mut out: Vec<u64> = Vec::new();
    let mut i: usize = 0;
    while i < cards.len()
        invariant
            i <= cards@.len(),
            out@.len() == i,
            forall|k: int| 0 <= k < i ==> #[trigger] out@[k] == cards@[k] as u64,
        decreases cards@.len() - i,
    {
        out.push(cards[i] as u64);
        i += 1;
    }
    assert(out@ =~= widened(cards@));
    out
}

/// The lengths of `runs`, for the runs of other values than `skip`.
pub fn run_lengths(runs: &Vec<(usize, u64)>, skip: Option<u64>) -> (r: Vec<u64>)
    ensures
        r@ == lengths(runs@, skip),
{
    let mut out: Vec<u64> = Vec::new();
    let mut i: usize = 0;
    assert(runs@.subrange(0, 0) =~= Seq::<(usize, u64)>::empty());
    while i < runs.len()
        invariant
            i <= runs@.len(),
            out@ == lengths(runs@.subrange(0, i as int), skip),
        decreases runs@.len() - i,
    {
        let (count, value) = runs[i];
        proof {
            let longer = runs@.subrange(0, i + 1);
            assert(longer.drop_last() =~= runs@.subrange(0, i as int));
            assert(longer.last() == runs@[i as int]);
        }
        let skipped = match skip {
            Some(s) => s == value,
            None => false,
        };
        if !skipped {
            out.push(count as u64);
        }
        i += 1;
    }
    assert(runs@.subrange(0, runs@.len() as int) =~= runs@);
    out
}

/// How often `value` occurs in `s`, held within 64 bits.
pub fn count_of(s: &Vec<u64>, value: u64) -> (r: u64)
    ensures
        r == if occurrences(s@, value) > u64::MAX {
            u64::MAX as nat
        } else {
            occurrences(s@, value)
        },
{
    let mut total: u64 = 0;
    let mut i: usize = 0;
    assert(s@.subrange(0, 0) =~= Seq::<u64>::empty());
    while i < s.len()
        invariant
            i <= s@.len(),
            total == if occurrences(s@.subrange(0, i as int), value) > u64::MAX {
                u64::MAX as nat
            } else {
                occurrences(s@.subrange(0, i as int), value)
            },
        decreases s@.len() - i,
    {
        proof {
            let longer = s@.subrange(0, i + 1);
            assert(longer.drop_last() =~= s@.subrange(0, i as int));
            assert(longer.last() == s@[i as int]);
        }
        if s[i] == value {
            total = total.saturating_add(1);
        }
        i += 1;
    }
    assert(s@.subrange(0, s@.len() as int) =~= s@);
    total
}

/// The text of the kind of the hand `cards`.
pub fn kind(cards: &Vec<u8>, jokers: bool) -> (r: Vec<u8>)
    ensures
        r@ == kind_of(cards@, jokers),
{
    let wide = widen(cards);
    let runs = tally(&sort(&wide));
    if !jokers {
        let counts = sort(&run_lengths(&runs, None));
        join_back(&counts)
    } else {
        let mut counts = sort(&run_lengths(&runs, Some(JOKER as u64)));
        let spare = count_of(&wide, JOKER as u64);
        let n = counts.len();
        if n == 0 {
            counts.push(spare);
            assert(counts@ =~= joker_counts(cards@));
        } else {
            let top = counts[n - 1].saturating_add(spare);
            counts.set(n - 1, top);
            assert(counts@ =~= joker_counts(cards@));
        }
        join_back(&counts)
    }
}

/// How the texts `a` and `b` compare byte by byte.
pub fn compare_text(a: &Vec<u8>, b: &Vec<u8>) -> (r: i8)
    ensures
        r == text_order(a@, b@),
{
    let mut i: usize = 0;
    assert(a@.subrange(0, a@.len() as int) =~= a@);
    assert(b@.subrange(0, b@.len() as int) =~= b@);
    while i < a.len() && i < b.len()
        invariant
            i <= a@.len(),
            i <= b@.len(),
            text_order(a@, b@) == text_order(
                a@.subrange(i as int, a@.len() as int),
                b@.subrange(i as int, b@.len() as int),
            ),
        decreases a@.len() - i,
    {
        let ghost ra = a@.subrange(i as int, a@.len() as int);
        let ghost rb = b@.subrange(i as int, b@.len() as int);
        assert(ra[0] == a@[i as int] && rb[0] == b@[i as int]);
        assert(ra.drop_first() =~= a@.subrange(i + 1, a@.len() as int));
        assert(rb.drop_first() =~= b@.subrange(i + 1, b@.len() as int));
        if a[i] < b[i] {
            return -1;
        }
        if a[i] > b[i] {
            return 1;
        }
        i += 1;
    }
    if i < b.len() {
        -1
    } else if i < a.len() {
        1
    } else {
        0
    }
}

/// How the cards `a` and `b` compare one by one as far as both reach.
pub fn compare_cards(a: &Vec<u8>, b: &Vec<u8>) -> (r: i8)
    ensures
        r == cards_order(a@, b@),
{
    let mut i: usize = 0;
    assert(a@.subrange(0, a@.len() as int) =~= a@);
    assert(b@.subrange(0, b@.len() as int) =~= b@);
    while i < a.len() && i < b.len()
        invariant
            i <= a@.len(),
            i <= b@.len(),
            cards_order(a@, b@) == cards_order(
                a@.subrange(i as int, a@.len() as int),
                b@.subrange(i as int, b@.len() as int),
            ),
        decreases a@.len() - i,
    {
        let ghost ra = a@.subrange(i as int, a@.len() as int);
        let ghost rb = b@.subrange(i as int, b@.len() as int);
        assert(ra[0] == a@[i as int] && rb[0] == b@[i as int]);
        assert(ra.drop_first() =~= a@.subrange(i + 1, a@.len() as int));
        assert(rb.drop_first() =~= b@.subrange(i + 1, b@.len() as int));
        if a[i] < b[i] {
            return -1;
        }
        if a[i] > b[i] {
            return 1;
        }
        i += 1;
    }
    0
}

/// The models of a list of hands.
pub open spec fn hands_view(hands: &Vec<Hand>) -> Seq<HandModel> {
    Seq::new(hands@.len(), |k: int| hands@[k]@)
}

/// How two hands compare.
pub fn compare_hands(a: &Hand, b: &Hand) -> (r: i8)
    ensures
        r == hand_order(a@, b@),
{
    let by_kind = compare_text(&a.kind, &b.kind);
    if by_kind != 0 {
        by_kind
    } else {
        compare_cards(&a.cards, &b.cards)
    }
}

/// How many of `hands` come before hand `i`.
pub fn rank_below(hands: &Vec<Hand>, i: usize) -> (r: usize)
    requires
        i < hands@.len(),
    ensures
        r == beaten(hands_view(hands), i as int, hands@.len() as int),
        r < hands@.len(),
{
    let ghost all = hands_view(hands);
    let mut total: usize = 0;
    let mut j: usize = 0;
    while j < hands.len()
        invariant
            j <= hands@.len(),
            i < hands@.len(),
            all == hands_view(hands),
            total == beaten(all, i as int, j as int),
            total <= j,
            j > i ==> total < j,
        decreases hands@.len() - j,
    {
        let c = compare_hands(&hands[j], &hands[i]);
        proof {
            if j == i {
                lemma_order_self(all[i as int]);
            }
        }
        if c < 0 || (j < i && c == 0) {
            total += 1;
        }
        j += 1;
    }
    total
}

/// A text compares equal to itself, and so do cards.
proof fn lemma_text_self(a: Seq<u8>)
    ensures
        text_order(a, a) == 0,
        cards_order(a, a) == 0,
    decreases a.len(),
{
    if a.len() > 0 {
        lemma_text_self(a.drop_first());
    }
}

/// A hand compares equal to itself.
proof fn lemma_order_self(h: HandModel)
    ensures
        hand_order(h, h) == 0,
{
    lemma_text_self(h.kind);
    lemma_text_self(h.cards);
}

/// Most hands that a game may have.
pub const MOST_HANDS: usize = 0xFFFF_FFFF;

/// What `hands` win together; `None` for more than [`MOST_HANDS`] hands
/// or a bid that does not fit 32 bits.
pub fn total_winnings(hands: &Vec<Hand>) -> (r: Option<i128>)
    ensures
        match r {
            Some(v) => v == winnings(hands_view(hands), hands@.len() as int) && hands@.len()
                <= MOST_HANDS,
            None => hands@.len() > MOST_HANDS || exists|k: int|
                0 <= k < hands@.len() && !(i32::MIN <= (#[trigger] hands@[k]).bet <= i32::MAX),
        },
{
    let n = hands.len();
    if n > MOST_HANDS {
        return None;
    }
    let ghost all = hands_view(hands);
    let mut total: i128 = 0;
    let mut i: usize = 0;
    while i < n
        invariant
            i <= n,
            n == hands@.len(),
            n <= MOST_HANDS,
            all == hands_view(hands),
            total == winnings(all, i as int),
            -0x8000_0000_0000_0000 * i <= total <= 0x8000_0000_0000_0000 * i,
        decreases n - i,
    {
        let bet = hands[i].bet;
        if bet < i32::MIN as i64 || bet > i32::MAX as i64 {
            return None;
        }
        let rank = rank_below(hands, i) as i128 + 1;
        assert(-0x8000_0000_0000_0000 <= rank * bet <= 0x8000_0000_0000_0000) by (nonlinear_arith)
            requires
                1 <= rank <= 0xFFFF_FFFF,
                -0x8000_0000 <= bet <= 0x7FFF_FFFF,
        ;
        assert(all[i as int].bet == bet);
        total = total + rank * (bet as i128);
        i += 1;
    }
    Some(total)
}

/// A single space.
pub open spec fn space() -> Seq<u8> {
    seq![32u8]
}

/// The strengths of `cards`.
pub open spec fn strengths(cards: Seq<u8>, jokers: bool) -> Seq<u8> {
    Seq::new(cards.len(), |k: int| card_value(cards[k], jokers))
}

/// The hand that `line` writes: cards in its first `split` bytes, and a
/// bid that fits 32 bits after one more byte. With jokers a hand needs a
/// card.
pub open spec fn hand_of(line: Seq<u8>, split: int, jokers: bool) -> Option<HandModel> {
    if line.len() < split + 1 || (jokers && split == 0) {
        None
    } else {
        match signed_text(line.subrange(split + 1, line.len() as int)) {
            Some(bet) => if i32::MIN <= bet <= i32::MAX {
                Some(
                    HandModel {
                        kind: kind_of(line.subrange(0, split), jokers),
                        cards: strengths(line.subrange(0, split), jokers),
                        bet,
                    },
                )
            } else {
                None
            },
            None => None,
        }
    }
}

/// The hands that `text` writes, line by line, each as wide as the text
/// is up to its first space.
pub open spec fn game_of(text: Seq<u8>, jokers: bool) -> Option<Seq<HandModel>> {
    let split = gap_len(text, space(), 0) as int;
    let lines = lines_of(text);
    if split < text.len() && forall|k: int|
        0 <= k < lines.len() ==> (#[trigger] hand_of(lines[k], split, jokers)) is Some {
        Some(Seq::new(lines.len(), |k: int| hand_of(lines[k], split, jokers)->Some_0))
    } else {
        None
    }
}

/// What the game written in `text` pays out, cut to 32 bits.
pub open spec fn payout(text: Seq<u8>, jokers: bool) -> Option<u32> {
    match game_of(text, jokers) {
        Some(hands) => if hands.len() <= MOST_HANDS {
            Some((winnings(hands, hands.len() as int) % 0x1_0000_0000) as u32)
        } else {
            None
        },
        None => None,
    }
}

/// The hand that `line` writes.
pub fn read_hand(line: &Vec<u8>, split: usize, jokers: bool) -> (r: Option<Hand>)
    ensures
        match r {
            Some(h) => hand_of(line@, split as int, jokers) == Some(h@),
            None => hand_of(line@, split as int, jokers) is None,
        },
{
    if line.len() <= split || (jokers && split == 0) {
        return None;
    }
    let raw = crate::day08::cut(line, 0, split);
    let rest = crate::day08::cut(line, split + 1, line.len());
    let bet = match parse_i64(rest.as_slice()) {
        Some(b) => b,
        None => {
            return None;
        },
    };
    if bet < i32::MIN as i64 || bet > i32::MAX as i64 {
        return None;
    }
    let mut cards: Vec<u8> = Vec::new();
    let mut i: usize = 0;
    while i < raw.len()
        invariant
            i <= raw@.len(),
            cards@.len() == i,
            forall|k: int| 0 <= k < i ==> #[trigger] cards@[k] == card_value(raw@[k], jokers),
        decreases raw@.len() - i,
    {
        cards.push(byte_to_card_value(&raw[i], jokers));
        i += 1;
    }
    assert(cards@ =~= strengths(raw@, jokers));
    Some(Hand { kind: kind(&raw, jokers), cards, bet })
}

/// Where the first space stands in `bytes`.
pub fn first_space(bytes: &[u8]) -> (r: usize)
    ensures
        r == gap_len(bytes@, space(), 0),
        r <= bytes@.len(),
{
    let mark: [u8; 1] = [32];
    assert(mark@ =~= space());
    let mut i: usize = 0;
    while i < bytes.len() && !crate::text::found_at(bytes, mark.as_slice(), i)
        invariant
            i <= bytes@.len(),
            mark@ == space(),
            gap_len(bytes@, space(), 0) == i + gap_len(bytes@, space(), i as int),
        decreases bytes@.len() - i,
    {
        i += 1;
    }
    i
}

/// What the game written in `bytes` pays out.
pub fn play(bytes: &[u8], jokers: bool) -> (r: Option<u32>)
    ensures
        r == payout(bytes@, jokers),
{
    let split = first_space(bytes);
    if split >= bytes.len() {
        return None;
    }
    let lines = split_lines(bytes);
    let ghost model = lines.deep_view();
    let mut hands: Vec<Hand> = Vec::new();
    let mut k: usize = 0;
    while k < lines.len()
        invariant
            k <= lines@.len(),
            model == lines.deep_view(),
            model == lines_of(bytes@),
            split == gap_len(bytes@, space(), 0),
            split < bytes@.len(),
            hands@.len() == k,
            forall|j: int| 0 <= j < k ==> (#[trigger] hand_of(model[j], split as int, jokers)) is Some,
            forall|j: int|
                0 <= j < k ==> (#[trigger] hands@[j])@ == hand_of(model[j], split as int, jokers)->Some_0,
        decreases lines@.len() - k,
    {
        assert(model[k as int] =~= lines@[k as int]@);
        match read_hand(&lines[k], split, jokers) {
            Some(h) => {
                hands.push(h);
            },
            None => {
                assert(hand_of(model[k as int], split as int, jokers) is None);
                return None;
            },
        }
        k += 1;
    }
    proof {
        assert(hands_view(&hands) =~= Seq::new(
            model.len(),
            |j: int| hand_of(model[j], split as int, jokers)->Some_0,
        ));
        assert(game_of(bytes@, jokers) == Some(hands_view(&hands)));
    }
    match total_winnings(&hands) {
        Some(v) => {
            let m = v % 0x1_0000_0000;
            let lifted = if m < 0 {
                m + 0x1_0000_0000
            } else {
                m
            };
            Some(lifted as u32)
        },
        None => {
            proof {
                if hands@.len() <= MOST_HANDS {
                    let j = choose|j: int|
                        0 <= j < hands@.len() && !(i32::MIN <= (#[trigger] hands@[j]).bet
                            <= i32::MAX);
                    assert(hands@[j]@ == hand_of(model[j], split as int, jokers)->Some_0);
                }
            }
            None
        },
    }
}

/// What the game pays out when `J` is a jack.
pub fn part_one(input: &str) -> (r: Option<u32>)
    ensures
        r == payout(input.spec_bytes(), false),
{
    play(input.as_bytes(), false)
}

/// What the game pays out when `J` is a joker.
pub fn part_two(input: &str) -> (r: Option<u32>)
    ensures
        r == payout(input.spec_bytes(), true),
{
    play(input.as_bytes(), true)
}

} // verus!
