//! Seed almanac: numbers are passed through a chain of maps, each a list
//! of ranges that shift what falls into them.

use crate::text::{
    fields_of, lines_of, parse_u64, parts_of, split_by, split_fields, split_lines, unsigned_text,
};
use vstd::prelude::*;
use vstd::string::StringSliceAdditionalSpecFns;

verus! {

/// The numbers from `start` to `end`, both included, and what is added to
/// a number that falls among them.
#[derive(Clone, Copy, Debug, PartialEq, Eq, Structural)]
pub struct Range {
    pub start: u64,
    pub end: u64,
    pub modifier: i64,
}

/// `v`, but no less than zero and no more than the largest 64-bit number.
pub open spec fn clamped(v: int) -> u64 {
    if v < 0 {
        0
    } else if v > u64::MAX {
        u64::MAX
    } else {
        v as u64
    }
}

/// The range that a line of three numbers writes. Read forwards, the
/// numbers are destination, source and length, and the range covers the
/// source; read in reverse (`rev`), it covers the destination and leads
/// back to the source.
pub open spec fn range_of(text: Seq<u8>, rev: bool) -> Option<Range> {
    let f = fields_of(text);
    if f.len() < 3 {
        None
    } else {
        match (unsigned_text(f[0]), unsigned_text(f[1]), unsigned_text(f[2])) {
            (Some(a), Some(b), Some(len)) => {
                let from = if rev {
                    a
                } else {
                    b
                };
                let to = if rev {
                    b
                } else {
                    a
                };
                if a <= i64::MAX && b <= i64::MAX && 1 <= len <= u64::MAX {
                    Some(
                        Range {
                            start: from as u64,
                            end: clamped(from + len - 1),
                            modifier: (to - from) as i64,
                        },
                    )
                } else {
                    None
                }
            },
            _ => None,
        }
    }
}

impl Range {
    /// Whether `nr` falls into the range.
    pub open spec fn holds(self, nr: u64) -> bool {
        self.start <= nr <= self.end
    }

    /// What `nr` becomes: the modifier added, held within the 64-bit
    /// numbers.
    pub open spec fn shifted(self, nr: u64) -> u64 {
        clamped(nr + self.modifier)
    }

    /// The range written as destination, source and length.
    pub fn from(range_str: &str) -> (r: Range)
        requires
            range_of(range_str.spec_bytes(), false) is Some,
        ensures
            Some(r) == range_of(range_str.spec_bytes(), false),
    {
        match read_range(range_str.as_bytes(), false) {
            Some(r) => r,
            None => Range { start: 0, end: 0, modifier: 0 },
        }
    }

    /// The range written as destination, source and length, read in
    /// reverse: it covers the destination and leads back to the source.
    pub fn from_rev(range_str: &str) -> (r: Range)
        requires
            range_of(range_str.spec_bytes(), true) is Some,
        ensures
            Some(r) == range_of(range_str.spec_bytes(), true),
    {
        match read_range(range_str.as_bytes(), true) {
            Some(r) => r,
            None => Range { start: 0, end: 0, modifier: 0 },
        }
    }

    /// The `end` numbers from `start` on, unchanged.
    pub fn from_simple(start: u64, end: u64) -> (r: Range)
        requires
            1 <= start + end <= u64::MAX + 1,
        ensures
            r == (Range { start, end: (start + end - 1) as u64, modifier: 0 }),
    {
        let last: u64 = if end == 0 {
            start - 1
        } else {
            start + (end - 1)
        };
        Range { start, end: last, modifier: 0 }
    }

    /// What `nr` becomes.
    pub fn apply(&self, nr: &u64) -> (r: u64)
        ensures
            r == self.shifted(*nr),
    {
        let wide: i128 = (*nr as i128) + (self.modifier as i128);
        if wide < 0 {
            0
        } else if wide > u64::MAX as i128 {
            u64::MAX
        } else {
            wide as u64
        }
    }

    /// Whether `nr` falls into the range.
    pub fn is_in_range(&self, nr: &u64) -> (r: bool)
        ensures
            r == self.holds(*nr),
    {
        *nr <= self.end && *nr >= self.start
    }
}

/// The range that `bytes` writes, if it writes one.
pub fn read_range(bytes: &[u8], rev: bool) -> (r: Option<Range>)
    ensures
        r == range_of(bytes@, rev),
{
    let f = split_fields(bytes);
    if f.len() < 3 {
        return None;
    }
    assert(f.deep_view()[0] =~= f@[0]@);
    assert(f.deep_view()[1] =~= f@[1]@);
    assert(f.deep_view()[2] =~= f@[2]@);
    let a = parse_u64(f[0].as_slice());
    let b = parse_u64(f[1].as_slice());
    let len = parse_u64(f[2].as_slice());
    match (a, b, len) {
        (Some(a), Some(b), Some(len)) => {
            if a > i64::MAX as u64 || b > i64::MAX as u64 || len == 0 {
                return None;
            }
            let from = if rev {
                a
            } else {
                b
            };
            let to = if rev {
                b
            } else {
                a
            };
            Some(
                Range {
                    start: from,
                    end: from.saturating_add(len - 1),
                    modifier: (to as i64) - (from as i64),
                },
            )
        },
        _ => None,
    }
}

/// One less than `n`, and zero for zero.
pub open spec fn tail_len(n: nat) -> nat {
    if n == 0 {
        0
    } else {
        (n - 1) as nat
    }
}

/// The ranges written on all lines of `lines` but the first, if each of
/// them writes one.
pub open spec fn ranges_of(lines: Seq<Seq<u8>>, rev: bool) -> Option<Seq<Range>> {
    if forall|k: int| 1 <= k < lines.len() ==> (#[trigger] range_of(lines[k], rev)) is Some {
        Some(Seq::new(tail_len(lines.len()), |k: int| range_of(lines[k + 1], rev)->Some_0))
    } else {
        None
    }
}

/// What `nr` becomes in the map `ranges`: the first range that holds it
/// shifts it, and where none holds it, it stays.
pub open spec fn map_once(ranges: Seq<Range>, nr: u64) -> u64
    decreases ranges.len(),
{
    if ranges.len() == 0 {
        nr
    } else if ranges[0].holds(nr) {
        ranges[0].shifted(nr)
    } else {
        map_once(ranges.drop_first(), nr)
    }
}

/// What `nr` becomes when passed through `maps`, first to last.
pub open spec fn convert(maps: Seq<Seq<Range>>, nr: u64) -> u64
    decreases maps.len(),
{
    if maps.len() == 0 {
        nr
    } else {
        convert(maps.drop_first(), map_once(maps[0], nr))
    }
}

/// The numbers that the words `f` write, if each writes one that fits 64
/// bits.
pub open spec fn numbers_of(f: Seq<Seq<u8>>) -> Option<Seq<u64>> {
    if forall|k: int|
        0 <= k < f.len() ==> (#[trigger] unsigned_text(f[k])) is Some && unsigned_text(f[k])->Some_0
            <= u64::MAX {
        Some(Seq::new(f.len(), |k: int| unsigned_text(f[k])->Some_0 as u64))
    } else {
        None
    }
}

/// The maps written in the blocks of `blocks` after the first, if all
/// their lines write ranges.
pub open spec fn maps_of(blocks: Seq<Seq<u8>>, rev: bool) -> Option<Seq<Seq<Range>>> {
    if forall|k: int|
        1 <= k < blocks.len() ==> (#[trigger] ranges_of(lines_of(blocks[k]), rev)) is Some {
        Some(
            Seq::new(
                tail_len(blocks.len()),
                |k: int| ranges_of(lines_of(blocks[k + 1]), rev)->Some_0,
            ),
        )
    } else {
        None
    }
}

/// The blank line that parts the blocks of an almanac.
pub open spec fn block_gap() -> Seq<u8> {
    seq![10u8, 10u8]
}

/// The mark after which the seeds are listed.
pub open spec fn seed_mark() -> Seq<u8> {
    seq![58u8, 32u8]
}

/// The seeds listed in the first block of `text`: the numbers between the
/// first and the second `": "`.
pub open spec fn seeds_of(text: Seq<u8>) -> Option<Seq<u64>> {
    let head = parts_of(parts_of(text, block_gap())[0], seed_mark());
    if head.len() < 2 {
        None
    } else {
        numbers_of(fields_of(head[1]))
    }
}

/// The least of `first` and what the numbers `s` become in `maps`.
pub open spec fn lowest(maps: Seq<Seq<Range>>, s: Seq<u64>, first: u64) -> u64
    decreases s.len(),
{
    if s.len() == 0 {
        first
    } else {
        let rest = lowest(maps, s.drop_last(), first);
        let here = convert(maps, s.last());
        if here < rest {
            here
        } else {
            rest
        }
    }
}

/// What `nr` becomes in the map `ranges`.
pub fn pass(ranges: &Vec<Range>, nr: u64) -> (r: u64)
    ensures
        r == map_once(ranges@, nr),
{
    let mut i: usize = 0;
    assert(ranges@.subrange(0, ranges@.len() as int) =~= ranges@);
    while i < ranges.len()
        invariant
            i <= ranges@.len(),
            map_once(ranges@, nr) == map_once(ranges@.subrange(i as int, ranges@.len() as int), nr),
        decreases ranges@.len() - i,
    {
        let ghost rest = ranges@.subrange(i as int, ranges@.len() as int);
        assert(rest[0] == ranges@[i as int]);
        assert(rest.drop_first() =~= ranges@.subrange(i + 1, ranges@.len() as int));
        if ranges[i].is_in_range(&nr) {
            return ranges[i].apply(&nr);
        }
        i += 1;
    }
    assert(ranges@.subrange(i as int, ranges@.len() as int).len() == 0);
    nr
}

/// The model of a list of maps.
pub open spec fn maps_view(maps: &Vec<Vec<Range>>) -> Seq<Seq<Range>> {
    Seq::new(maps@.len(), |k: int| maps@[k]@)
}

/// What `nr` becomes when passed through `maps`, first to last.
pub fn pass_all(maps: &Vec<Vec<Range>>, nr: u64) -> (r: u64)
    ensures
        r == convert(maps_view(maps), nr),
{
    let ghost all = maps_view(maps);
    let mut cur = nr;
    let mut i: usize = 0;
    assert(all.subrange(0, all.len() as int) =~= all);
    while i < maps.len()
        invariant
            i <= maps@.len(),
            all == maps_view(maps),
            convert(all, nr) == convert(all.subrange(i as int, all.len() as int), cur),
        decreases maps@.len() - i,
    {
        let ghost rest = all.subrange(i as int, all.len() as int);
        assert(rest[0] == maps@[i as int]@);
        assert(rest.drop_first() =~= all.subrange(i + 1, all.len() as int));
        cur = pass(&maps[i], cur);
        i += 1;
    }
    assert(all.subrange(i as int, all.len() as int).len() == 0);
    cur
}

/// The ranges written on all lines of `block` but the first.
pub fn read_ranges(block: &[u8], rev: bool) -> (r: Option<Vec<Range>>)
    ensures
        match r {
            Some(v) => ranges_of(lines_of(block@), rev) == Some(v@),
            None => ranges_of(lines_of(block@), rev) is None,
        },
{
    let lines = split_lines(block);
    let ghost model = lines.deep_view();
    let mut out: Vec<Range> = Vec::new();
    if lines.len() == 0 {
        assert(out@ =~= Seq::new(tail_len(model.len()), |k: int| range_of(model[k + 1], rev)->Some_0));
        return Some(out);
    }
    let mut i: usize = 1;
    while i < lines.len()
        invariant
            1 <= i <= lines@.len(),
            model == lines.deep_view(),
            model == lines_of(block@),
            out@.len() == i - 1,
            forall|k: int| 1 <= k < i && k < model.len() ==> (#[trigger] range_of(model[k], rev)) is Some,
            forall|k: int|
                0 <= k < out@.len() ==> #[trigger] out@[k] == range_of(model[k + 1], rev)->Some_0,
        decreases lines@.len() - i,
    {
        assert(model[i as int] =~= lines@[i as int]@);
        match read_range(lines[i].as_slice(), rev) {
            Some(r) => {
                out.push(r);
            },
            None => {
                assert(model.len() == lines@.len());
                assert(range_of(model[i as int], rev) is None);
                assert(!(forall|k: int|
                    1 <= k < model.len() ==> (#[trigger] range_of(model[k], rev)) is Some));
                return None;
            },
        }
        i += 1;
    }
    assert(model.len() == lines@.len());
    assert(out@.len() == tail_len(model.len()));
    let ghost want = Seq::new(tail_len(model.len()), |k: int| range_of(model[k + 1], rev)->Some_0);
    assert forall|k: int| 0 <= k < out@.len() implies out@[k] == want[k] by {
        assert(out@[k] == range_of(model[k + 1], rev)->Some_0);
    }
    assert(out@ =~= want);
    assert(forall|k: int| 1 <= k < model.len() ==> (#[trigger] range_of(model[k], rev)) is Some);
    Some(out)
}

/// The maps written in the blocks of `blocks` after the first.
pub fn read_maps(blocks: &Vec<Vec<u8>>, rev: bool) -> (r: Option<Vec<Vec<Range>>>)
    ensures
        match r {
            Some(v) => maps_of(blocks.deep_view(), rev) == Some(maps_view(&v)),
            None => maps_of(blocks.deep_view(), rev) is None,
        },
{
    let ghost model = blocks.deep_view();
    let mut out: Vec<Vec<Range>> = Vec::new();
    if blocks.len() == 0 {
        assert(maps_view(&out) =~= Seq::new(
            tail_len(model.len()),
            |k: int| ranges_of(lines_of(model[k + 1]), rev)->Some_0,
        ));
        return Some(out);
    }
    let mut i: usize = 1;
    while i < blocks.len()
        invariant
            1 <= i <= blocks@.len(),
            model == blocks.deep_view(),
            out@.len() == i - 1,
            forall|k: int|
                1 <= k < i && k < model.len() ==> (#[trigger] ranges_of(lines_of(model[k]), rev)) is Some,
            forall|k: int|
                0 <= k < out@.len() ==> (#[trigger] out@[k])@ == ranges_of(
                    lines_of(model[k + 1]),
                    rev,
                )->Some_0,
        decreases blocks@.len() - i,
    {
        assert(model[i as int] =~= blocks@[i as int]@);
        match read_ranges(blocks[i].as_slice(), rev) {
            Some(r) => {
                out.push(r);
            },
            None => {
                assert(ranges_of(lines_of(model[i as int]), rev) is None);
                return None;
            },
        }
        i += 1;
    }
    assert(model.len() == blocks@.len());
    let ghost want = Seq::new(
        tail_len(model.len()),
        |k: int| ranges_of(lines_of(model[k + 1]), rev)->Some_0,
    );
    assert forall|k: int| 0 <= k < out@.len() implies maps_view(&out)[k] == want[k] by {
        assert(out@[k]@ == ranges_of(lines_of(model[k + 1]), rev)->Some_0);
    }
    assert(maps_view(&out) =~= want);
    Some(out)
}

/// The numbers that the words of `bytes` write.
pub fn read_numbers(bytes: &[u8]) -> (r: Option<Vec<u64>>)
    ensures
        match r {
            Some(v) => numbers_of(fields_of(bytes@)) == Some(v@),
            None => numbers_of(fields_of(bytes@)) is None,
        },
{
    let f = split_fields(bytes);
    let ghost model = f.deep_view();
    let mut out: Vec<u64> = Vec::new();
    let mut i: usize = 0;
    while i < f.len()
        invariant
            i <= f@.len(),
            model == f.deep_view(),
            model == fields_of(bytes@),
            out@.len() == i,
            forall|k: int|
                0 <= k < i ==> (#[trigger] unsigned_text(model[k])) is Some && unsigned_text(
                    model[k],
                )->Some_0 <= u64::MAX,
            forall|k: int| 0 <= k < i ==> #[trigger] out@[k] == unsigned_text(model[k])->Some_0 as u64,
        decreases f@.len() - i,
    {
        assert(model[i as int] =~= f@[i as int]@);
        match parse_u64(f[i].as_slice()) {
            Some(v) => {
                out.push(v);
            },
            None => {
                assert(!(unsigned_text(model[i as int]) is Some && unsigned_text(
                    model[i as int],
                )->Some_0 <= u64::MAX));
                return None;
            },
        }
        i += 1;
    }
    assert(out@ =~= Seq::new(model.len(), |k: int| unsigned_text(model[k])->Some_0 as u64));
    Some(out)
}

/// The seeds listed in the first of `blocks`.
pub fn read_seeds(blocks: &Vec<Vec<u8>>) -> (r: Option<Vec<u64>>)
    requires
        blocks@.len() >= 1,
    ensures
        ({
            let head = parts_of(blocks.deep_view()[0], seed_mark());
            match r {
                Some(v) => head.len() >= 2 && numbers_of(fields_of(head[1])) == Some(v@),
                None => head.len() < 2 || numbers_of(fields_of(head[1])) is None,
            }
        }),
{
    let mark: [u8; 2] = [58, 32];
    assert(mark@ =~= seed_mark());
    assert(blocks.deep_view()[0] =~= blocks@[0]@);
    let head = split_by(blocks[0].as_slice(), mark.as_slice());
    if head.len() < 2 {
        return None;
    }
    assert(head.deep_view()[1] =~= head@[1]@);
    read_numbers(head[1].as_slice())
}

/// What the closest location of an almanac comes to: the least of what
/// the seeds become in the maps, cut to 32 bits; nothing where the
/// almanac is not well written or lists no seed.
pub open spec fn closest(text: Seq<u8>) -> Option<u32> {
    let blocks = parts_of(text, block_gap());
    match (seeds_of(text), maps_of(blocks, false)) {
        (Some(seeds), Some(maps)) => if seeds.len() == 0 {
            None
        } else {
            Some((lowest(maps, seeds, u64::MAX) % 0x1_0000_0000) as u32)
        },
        _ => None,
    }
}

/// The lowest location that any of the seeds of the almanac written in
/// `input` ends up at.
pub fn part_one(input: &str) -> (r: Option<u32>)
    ensures
        r == closest(input.spec_bytes()),
{
    let gap: [u8; 2] = [10, 10];
    assert(gap@ =~= block_gap());
    let blocks = split_by(input.as_bytes(), gap.as_slice());
    let seeds = match read_seeds(&blocks) {
        Some(s) => s,
        None => {
            return None;
        },
    };
    let maps = match read_maps(&blocks, false) {
        Some(m) => m,
        None => {
            return None;
        },
    };
    if seeds.len() == 0 {
        return None;
    }
    let mut best: u64 = u64::MAX;
    let mut i: usize = 0;
    while i < seeds.len()
        invariant
            i <= seeds@.len(),
            best == lowest(maps_view(&maps), seeds@.subrange(0, i as int), u64::MAX),
        decreases seeds@.len() - i,
    {
        let here = pass_all(&maps, seeds[i]);
        proof {
            let longer = seeds@.subrange(0, i + 1);
            assert(longer.drop_last() =~= seeds@.subrange(0, i as int));
            assert(longer.last() == seeds@[i as int]);
        }
        if here < best {
            best = here;
        }
        i += 1;
    }
    assert(seeds@.subrange(0, seeds@.len() as int) =~= seeds@);
    assert(seeds_of(input.spec_bytes()) == Some(seeds@));
    assert(maps_of(parts_of(input.spec_bytes(), block_gap()), false) == Some(maps_view(&maps)));
    Some((best % 0x1_0000_0000) as u32)
}

/// What `nr` becomes when passed through `maps`, last to first.
pub open spec fn convert_back(maps: Seq<Seq<Range>>, nr: u64) -> u64
    decreases maps.len(),
{
    if maps.len() == 0 {
        nr
    } else {
        convert_back(maps.drop_last(), map_once(maps.last(), nr))
    }
}

/// The ranges of seeds that the numbers `s` list as pairs of a start and
/// a length, if they are pairs and each range ends within 64 bits.
pub open spec fn seed_ranges_of(s: Seq<u64>) -> Option<Seq<Range>> {
    if s.len() % 2 == 0 && forall|k: int|
        0 <= k < s.len() / 2 ==> 1 <= #[trigger] s[2 * k] + s[2 * k + 1] <= u64::MAX + 1 {
        Some(
            Seq::new(
                s.len() / 2,
                |k: int|
                    Range {
                        start: s[2 * k],
                        end: (s[2 * k] + s[2 * k + 1] - 1) as u64,
                        modifier: 0,
                    },
            ),
        )
    } else {
        None
    }
}

/// Whether some of `ranges` holds `nr`.
pub open spec fn held(ranges: Seq<Range>, nr: u64) -> bool {
    exists|k: int| 0 <= k < ranges.len() && (#[trigger] ranges[k]).holds(nr)
}

/// Whether the location `i` leads back through `maps` to a seed of
/// `seeds`.
pub open spec fn grows(maps: Seq<Seq<Range>>, seeds: Seq<Range>, i: u64) -> bool {
    held(seeds, convert_back(maps, i))
}

/// What the closest location of an almanac whose seeds are listed as
/// ranges comes to: the least location that leads back to a seed, cut to
/// 32 bits; nothing where the almanac is not well written or no location
/// leads back to a seed.
pub open spec fn closest_of_ranges(text: Seq<u8>, r: Option<u32>) -> bool {
    let blocks = parts_of(text, block_gap());
    match (seeds_of(text), maps_of(blocks, true)) {
        (Some(numbers), Some(maps)) => match seed_ranges_of(numbers) {
            Some(seeds) => match r {
                Some(v) => exists|i: u64| #[trigger]
                    grows(maps, seeds, i) && v == i % 0x1_0000_0000 && forall|j: u64|
                        j < i ==> !grows(maps, seeds, j),
                None => forall|i: u64| !grows(maps, seeds, i),
            },
            None => r is None,
        },
        _ => r is None,
    }
}

/// Whether some of `ranges` holds `nr`.
pub fn any_holds(ranges: &Vec<Range>, nr: u64) -> (r: bool)
    ensures
        r == held(ranges@, nr),
{
    let mut k: usize = 0;
    while k < ranges.len()
        invariant
            k <= ranges@.len(),
            forall|j: int| 0 <= j < k ==> !(#[trigger] ranges@[j]).holds(nr),
        decreases ranges@.len() - k,
    {
        if ranges[k].is_in_range(&nr) {
            return true;
        }
        k += 1;
    }
    false
}

/// What `nr` becomes when passed through `maps`, last to first.
pub fn pass_back(maps: &Vec<Vec<Range>>, nr: u64) -> (r: u64)
    ensures
        r == convert_back(maps_view(maps), nr),
{
    let ghost all = maps_view(maps);
    let mut cur = nr;
    let mut i: usize = maps.len();
    assert(all.subrange(0, all.len() as int) =~= all);
    while i > 0
        invariant
            i <= maps@.len(),
            all == maps_view(maps),
            convert_back(all, nr) == convert_back(all.subrange(0, i as int), cur),
        decreases i,
    {
        let ghost rest = all.subrange(0, i as int);
        assert(rest.last() == maps@[i - 1]@);
        assert(rest.drop_last() =~= all.subrange(0, i - 1));
        i -= 1;
        cur = pass(&maps[i], cur);
    }
    assert(all.subrange(0, 0).len() == 0);
    cur
}

/// The ranges of seeds that `numbers` lists as pairs of a start and a
/// length.
pub fn pair_up(numbers: &Vec<u64>) -> (r: Option<Vec<Range>>)
    ensures
        match r {
            Some(v) => seed_ranges_of(numbers@) == Some(v@),
            None => seed_ranges_of(numbers@) is None,
        },
{
    let n = numbers.len();
    if n % 2 != 0 {
        return None;
    }
    let mut out: Vec<Range> = Vec::new();
    let mut k: usize = 0;
    while k < n / 2
        invariant
            k <= n / 2,
            n == numbers@.len(),
            n % 2 == 0,
            out@.len() == k,
            forall|j: int|
                0 <= j < k ==> 1 <= #[trigger] numbers@[2 * j] + numbers@[2 * j + 1] <= u64::MAX + 1,
            forall|j: int|
                0 <= j < k ==> #[trigger] out@[j] == (Range {
                    start: numbers@[2 * j],
                    end: (numbers@[2 * j] + numbers@[2 * j + 1] - 1) as u64,
                    modifier: 0,
                }),
        decreases n / 2 - k,
    {
        let start = numbers[2 * k];
        let len = numbers[2 * k + 1];
        if (start == 0 && len == 0) || (len > 0 && start > u64::MAX - (len - 1)) {
            assert(!(1 <= numbers@[2 * k] + numbers@[2 * k + 1] <= u64::MAX + 1));
            return None;
        }
        out.push(Range::from_simple(start, len));
        k += 1;
    }
    assert(out@ =~= Seq::new(
        numbers@.len() / 2,
        |j: int|
            Range {
                start: numbers@[2 * j],
                end: (numbers@[2 * j] + numbers@[2 * j + 1] - 1) as u64,
                modifier: 0,
            },
    ));
    Some(out)
}

/// The lowest location that leads back to any seed of the ranges of
/// seeds that the almanac written in `input` lists.
pub fn part_two(input: &str) -> (r: Option<u32>)
    ensures
        closest_of_ranges(input.spec_bytes(), r),
{
    let gap: [u8; 2] = [10, 10];
    assert(gap@ =~= block_gap());
    let blocks = split_by(input.as_bytes(), gap.as_slice());
    let numbers = match read_seeds(&blocks) {
        Some(s) => s,
        None => {
            return None;
        },
    };
    let maps = match read_maps(&blocks, true) {
        Some(m) => m,
        None => {
            return None;
        },
    };
    let seeds = match pair_up(&numbers) {
        Some(s) => s,
        None => {
            return None;
        },
    };
    assert(seeds_of(input.spec_bytes()) == Some(numbers@));
    assert(maps_of(parts_of(input.spec_bytes(), block_gap()), true) == Some(maps_view(&maps)));
    let mut i: u64 = 0;
    loop
        invariant
            seeds_of(input.spec_bytes()) == Some(numbers@),
            maps_of(parts_of(input.spec_bytes(), block_gap()), true) == Some(maps_view(&maps)),
            seed_ranges_of(numbers@) == Some(seeds@),
            forall|j: u64| j < i ==> !grows(maps_view(&maps), seeds@, j),
        decreases u64::MAX - i,
    {
        let seed_nr = pass_back(&maps, i);
        if any_holds(&seeds, seed_nr) {
            assert(grows(maps_view(&maps), seeds@, i));
            return Some((i % 0x1_0000_0000) as u32);
        }
        if i == u64::MAX {
            return None;
        }
        i += 1;
    }
}

} // verus!
