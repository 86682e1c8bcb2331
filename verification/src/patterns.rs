//! Searching a line with a regular expression of the `regex` crate, and
//! reading numbers out of what it finds.

use crate::text::{parse_u64, unsigned_text};
use vstd::prelude::*;

verus! {

/// Where a group of a regular expression matched: the place of its first
/// byte and the place behind its last.
pub type Span = Option<(usize, usize)>;

/// What the regular expression `pattern` finds in `text`: for each match,
/// from left to right and without overlap, the span of each group of the
/// pattern, the whole match being group 0 and the others counted by their
/// opening parentheses; nothing where `pattern` is no regular expression.
pub uninterp spec fn regex_matches(pattern: Seq<char>, text: Seq<u8>) -> Option<
    Seq<Seq<Option<(usize, usize)>>>,
>;

/// The spans that `found` holds, match by match.
pub open spec fn spans(found: &Vec<Vec<Span>>) -> Seq<Seq<Span>> {
    Seq::new(found@.len(), |i: int| found@[i]@)
}

/// Whether every span of `found` is in order and lies within `len` bytes.
pub open spec fn within(found: Seq<Seq<Span>>, len: int) -> bool {
    forall|i: int, j: int|
        0 <= i < found.len() && 0 <= j < found[i].len() ==> match #[trigger] found[i][j] {
            Some((start, end)) => start <= end <= len,
            None => true,
        }
}

/// `regex::bytes::Regex::new` on `pattern`, and on the expression it
/// gives `captures_iter` over `text`: each match with the spans of its
/// groups, as `Captures::iter` hands them out. A span begins no later
/// than it ends and ends within the text. `None` where `new` refuses the
/// pattern.
#[verifier::external_body]
pub(crate) fn find_all(pattern: &str, text: &[u8]) -> (r: Option<Vec<Vec<Span>>>)
    ensures
        match r {
            Some(found) => regex_matches(pattern@, text@) == Some(spans(&found)) && within(
                spans(&found),
                text@.len() as int,
            ),
            None => regex_matches(pattern@, text@) is None,
        },
{
    match regex::bytes::Regex::new(pattern) {
        Ok(re) => Some(
            re.captures_iter(text).map(
                |caps| caps.iter().map(|group| group.map(|m| (m.start(), m.end()))).collect(),
            ).collect(),
        ),
        Err(_) => None,
    }
}

/// The bytes of `line` that group `group` of the match `groups` covers;
/// nothing where the match has no such group, the group took no part in
/// it, or its span is not within the line.
pub open spec fn group_text(line: Seq<u8>, groups: Seq<Span>, group: int) -> Option<Seq<u8>> {
    if 0 <= group < groups.len() {
        match groups[group] {
            Some((start, end)) => if start <= end <= line.len() {
                Some(line.subrange(start as int, end as int))
            } else {
                None
            },
            None => None,
        }
    } else {
        None
    }
}

/// The number that `s` writes, where it is at most `limit`.
pub open spec fn bounded(s: Seq<u8>, limit: u64) -> Option<u64> {
    match unsigned_text(s) {
        Some(v) => if v <= limit {
            Some(v as u64)
        } else {
            None
        },
        None => None,
    }
}

/// The numbers that group `group` of the first `upto` matches of `found`
/// writes in `line`; nothing where one of them is no number up to
/// `limit`.
pub open spec fn numbers_upto(
    line: Seq<u8>,
    found: Seq<Seq<Span>>,
    group: int,
    limit: u64,
    upto: int,
) -> Option<Seq<u64>>
    decreases upto,
{
    if upto <= 0 {
        Some(Seq::empty())
    } else {
        match (
            numbers_upto(line, found, group, limit, upto - 1),
            group_text(line, found[upto - 1], group),
        ) {
            (Some(before), Some(text)) => match bounded(text, limit) {
                Some(v) => Some(before.push(v)),
                None => None,
            },
            _ => None,
        }
    }
}

/// The numbers that group `group` of the matches `found` writes in
/// `line`.
pub open spec fn numbers_of(line: Seq<u8>, found: Seq<Seq<Span>>, group: int, limit: u64) -> Option<
    Seq<u64>,
> {
    numbers_upto(line, found, group, limit, found.len() as int)
}

/// Once a number is not read, the list is not read.
pub proof fn lemma_numbers_lost(
    line: Seq<u8>,
    found: Seq<Seq<Span>>,
    group: int,
    limit: u64,
    a: int,
    b: int,
)
    requires
        a <= b,
        numbers_upto(line, found, group, limit, a) is None,
    ensures
        numbers_upto(line, found, group, limit, b) is None,
    decreases b - a,
{
    if a < b {
        lemma_numbers_lost(line, found, group, limit, a, b - 1);
    }
}

/// The bytes of `line` that group `group` of the match `groups` covers.
pub fn group_bytes(line: &[u8], groups: &Vec<Span>, group: usize) -> (r: Option<Vec<u8>>)
    ensures
        match r {
            Some(v) => group_text(line@, groups@, group as int) == Some(v@),
            None => group_text(line@, groups@, group as int) is None,
        },
{
    if group >= groups.len() {
        return None;
    }
    match groups[group] {
        Some((start, end)) => {
            if start > end || end > line.len() {
                return None;
            }
            let mut out: Vec<u8> = Vec::new();
            let mut i: usize = start;
            while i < end
                invariant
                    start <= i <= end <= line@.len(),
                    out@ == line@.subrange(start as int, i as int),
                decreases end - i,
            {
                out.push(line[i]);
                assert(out@ =~= line@.subrange(start as int, i + 1));
                i += 1;
            }
            assert(line@.subrange(start as int, start as int) =~= Seq::<u8>::empty());
            Some(out)
        },
        None => None,
    }
}

/// The number that `bytes` write, where it is at most `limit`.
pub fn read_bounded(bytes: &[u8], limit: u64) -> (r: Option<u64>)
    ensures
        r == bounded(bytes@, limit),
{
    match parse_u64(bytes) {
        Some(v) => if v <= limit {
            Some(v)
        } else {
            None
        },
        None => None,
    }
}

/// The numbers that group `group` of the matches `found` writes in
/// `line`, each at most `limit`.
pub fn numbers(line: &[u8], found: &Vec<Vec<Span>>, group: usize, limit: u64) -> (r: Option<
    Vec<u64>,
>)
    ensures
        match r {
            Some(v) => numbers_of(line@, spans(found), group as int, limit) == Some(v@),
            None => numbers_of(line@, spans(found), group as int, limit) is None,
        },
{
    let ghost model = spans(found);
    let n = found.len();
    let mut out: Vec<u64> = Vec::new();
    let mut i: usize = 0;
    while i < n
        invariant
            i <= n,
            n == found@.len(),
            model == spans(found),
            numbers_upto(line@, model, group as int, limit, i as int) == Some(out@),
        decreases n - i,
    {
        assert(model[i as int] == found@[i as int]@);
        let value = match group_bytes(line, &found[i], group) {
            Some(text) => read_bounded(text.as_slice(), limit),
            None => None,
        };
        match value {
            Some(v) => {
                out.push(v);
            },
            None => {
                proof {
                    lemma_numbers_lost(line@, model, group as int, limit, i + 1, n as int);
                }
                return None;
            },
        }
        i += 1;
    }
    Some(out)
}

/// The number that group `group` of the match `groups` writes in
/// `line`, where it is at most `limit`.
pub open spec fn group_value(line: Seq<u8>, groups: Seq<Span>, group: int, limit: u64) -> Option<u64> {
    match group_text(line, groups, group) {
        Some(text) => bounded(text, limit),
        None => None,
    }
}

/// The number that group `group` of the match `groups` writes in
/// `line`, where it is at most `limit`.
pub fn group_number(line: &[u8], groups: &Vec<Span>, group: usize, limit: u64) -> (r: Option<u64>)
    ensures
        r == group_value(line@, groups@, group as int, limit),
{
    match group_bytes(line, groups, group) {
        Some(text) => read_bounded(text.as_slice(), limit),
        None => None,
    }
}

} // verus!
