//! Reading puzzle text: lines, fields and decimal numbers, all on bytes.

use vstd::prelude::*;

verus! {

/// The line feed byte.
pub const LF: u8 = 10;

/// The carriage return byte.
pub const CR: u8 = 13;

/// How many bytes from position `from` on precede the next line feed or
/// the end of `s`.
pub open spec fn line_len(s: Seq<u8>, from: int) -> nat
    decreases s.len() - from,
{
    if from < 0 || from >= s.len() || s[from] == LF {
        0
    } else {
        1 + line_len(s, from + 1)
    }
}

/// `line` without one trailing carriage return.
pub open spec fn trim_cr(line: Seq<u8>) -> Seq<u8> {
    if line.len() > 0 && line.last() == CR {
        line.drop_last()
    } else {
        line
    }
}

/// The lines of `s` from position `from` on.
pub open spec fn lines_from(s: Seq<u8>, from: int) -> Seq<Seq<u8>>
    decreases s.len() - from,
{
    if from < 0 || from >= s.len() {
        Seq::empty()
    } else {
        let n = from + line_len(s, from);
        if n >= s.len() {
            seq![s.subrange(from, s.len() as int)]
        } else {
            seq![trim_cr(s.subrange(from, n))] + lines_from(s, n + 1)
        }
    }
}

/// The lines of `s`: the stretches between line feeds, each without the
/// carriage return that may precede its line feed. A line feed at the very
/// end starts no further line.
pub open spec fn lines_of(s: Seq<u8>) -> Seq<Seq<u8>> {
    lines_from(s, 0)
}

/// The line that starts at `from` ends before the end of `s`, and holds no
/// line feed.
pub proof fn lemma_line_len(s: Seq<u8>, from: int)
    requires
        0 <= from <= s.len(),
    ensures
        from + line_len(s, from) <= s.len(),
        from + line_len(s, from) < s.len() ==> s[from + line_len(s, from)] == LF,
        forall|i: int| from <= i < from + line_len(s, from) ==> s[i] != LF,
    decreases s.len() - from,
{
    if from < s.len() && s[from] != LF {
        lemma_line_len(s, from + 1);
    }
}

/// Appending a row to a vector of rows appends its bytes to the model.
pub proof fn lemma_rows_push(before: Vec<Vec<u8>>, after: Vec<Vec<u8>>, line: Vec<u8>)
    requires
        after@ == before@.push(line),
    ensures
        after.deep_view() == before.deep_view().push(line@),
{
    assert(line.deep_view() =~= line@);
    assert forall|i: int| 0 <= i < after@.len() implies after.deep_view()[i] == before.deep_view().push(
        line@,
    )[i] by {
        if i < before@.len() {
            assert(after@[i] == before@[i]);
        }
    }
    assert(after.deep_view() =~= before.deep_view().push(line@));
}

/// Splits `bytes` into its lines.
pub fn split_lines(bytes: &[u8]) -> (out: Vec<Vec<u8>>)
    ensures
        out.deep_view() == lines_of(bytes@),
{
    let n = bytes.len();
    let mut out: Vec<Vec<u8>> = Vec::new();
    let mut pos: usize = 0;
    assert(out.deep_view() =~= Seq::<Seq<u8>>::empty());
    while pos < n
        invariant
            pos <= n,
            n == bytes@.len(),
            lines_of(bytes@) == out.deep_view() + lines_from(bytes@, pos as int),
        decreases n - pos,
    {
        let mut line: Vec<u8> = Vec::new();
        let mut end = pos;
        while end < n && bytes[end] != LF
            invariant
                pos <= end <= n,
                n == bytes@.len(),
                line@ == bytes@.subrange(pos as int, end as int),
                line_len(bytes@, pos as int) == (end - pos) + line_len(bytes@, end as int),
            decreases n - end,
        {
            line.push(bytes[end]);
            assert(line@ =~= bytes@.subrange(pos as int, end as int + 1));
            end += 1;
        }
        let ghost before = out.deep_view();
        let ghost out0 = out;
        let ghost rest = lines_from(bytes@, pos as int);
        assert(pos + line_len(bytes@, pos as int) == end);
        if end < n {
            let m = line.len();
            if m > 0 && line[m - 1] == CR {
                line.pop();
            }
            assert(line@ =~= trim_cr(bytes@.subrange(pos as int, end as int)));
            out.push(line);
            proof {
                assert(rest == seq![trim_cr(bytes@.subrange(pos as int, end as int))] + lines_from(
                    bytes@,
                    end as int + 1,
                ));
                lemma_rows_push(out0, out, line);
                assert(before + rest =~= out.deep_view() + lines_from(bytes@, end as int + 1));
            }
            pos = end + 1;
        } else {
            out.push(line);
            proof {
                assert(rest == seq![bytes@.subrange(pos as int, n as int)]);
                lemma_rows_push(out0, out, line);
                assert(lines_from(bytes@, n as int) =~= Seq::<Seq<u8>>::empty());
                assert(before + rest =~= out.deep_view() + lines_from(bytes@, n as int));
            }
            pos = n;
        }
    }
    assert(lines_from(bytes@, pos as int) =~= Seq::<Seq<u8>>::empty());
    assert(out.deep_view() + Seq::<Seq<u8>>::empty() =~= out.deep_view());
    out
}

/// A copy of `line`.
pub fn copy_line(line: &Vec<u8>) -> (r: Vec<u8>)
    ensures
        r@ == line@,
{
    let mut out: Vec<u8> = Vec::new();
    let mut i: usize = 0;
    while i < line.len()
        invariant
            i <= line@.len(),
            out@ == line@.subrange(0, i as int),
        decreases line@.len() - i,
    {
        out.push(line[i]);
        assert(out@ =~= line@.subrange(0, i as int + 1));
        i += 1;
    }
    assert(out@ =~= line@);
    out
}

/// A copy of `rows`.
pub fn copy_rows(rows: &Vec<Vec<u8>>) -> (r: Vec<Vec<u8>>)
    ensures
        r.deep_view() == rows.deep_view(),
{
    let mut out: Vec<Vec<u8>> = Vec::new();
    let mut i: usize = 0;
    while i < rows.len()
        invariant
            i <= rows@.len(),
            out@.len() == i,
            forall|k: int| 0 <= k < i ==> (#[trigger] out@[k])@ == rows@[k]@,
        decreases rows@.len() - i,
    {
        out.push(copy_line(&rows[i]));
        i += 1;
    }
    assert(out.deep_view() =~= rows.deep_view()) by {
        assert forall|k: int| 0 <= k < out@.len() implies out.deep_view()[k] == rows.deep_view()[k] by {
            assert(out@[k]@ == rows@[k]@);
            assert(out.deep_view()[k] =~= out@[k]@);
            assert(rows.deep_view()[k] =~= rows@[k]@);
        }
    }
    out
}

/// Whether `a` and `b` hold the same bytes.
pub fn lines_equal(a: &Vec<u8>, b: &Vec<u8>) -> (r: bool)
    ensures
        r == (a@ == b@),
{
    if a.len() != b.len() {
        return false;
    }
    let mut i: usize = 0;
    while i < a.len()
        invariant
            i <= a@.len(),
            a@.len() == b@.len(),
            forall|k: int| 0 <= k < i ==> a@[k] == b@[k],
        decreases a@.len() - i,
    {
        if a[i] != b[i] {
            return false;
        }
        i += 1;
    }
    assert(a@ =~= b@);
    true
}

/// Whether `a` and `b` hold the same rows.
pub fn rows_equal(a: &Vec<Vec<u8>>, b: &Vec<Vec<u8>>) -> (r: bool)
    ensures
        r == (a.deep_view() == b.deep_view()),
{
    if a.len() != b.len() {
        assert(a.deep_view().len() != b.deep_view().len());
        return false;
    }
    let mut i: usize = 0;
    while i < a.len()
        invariant
            i <= a@.len(),
            a@.len() == b@.len(),
            forall|k: int| 0 <= k < i ==> (#[trigger] a@[k])@ == b@[k]@,
        decreases a@.len() - i,
    {
        if !lines_equal(&a[i], &b[i]) {
            assert(a.deep_view()[i as int] =~= a@[i as int]@);
            assert(b.deep_view()[i as int] =~= b@[i as int]@);
            return false;
        }
        i += 1;
    }
    assert(a.deep_view() =~= b.deep_view()) by {
        assert forall|k: int| 0 <= k < a@.len() implies a.deep_view()[k] == b.deep_view()[k] by {
            assert(a@[k]@ == b@[k]@);
            assert(a.deep_view()[k] =~= a@[k]@);
            assert(b.deep_view()[k] =~= b@[k]@);
        }
    }
    true
}

/// Whether `sep` stands in `s` at position `i`.
pub open spec fn matches_at(s: Seq<u8>, sep: Seq<u8>, i: int) -> bool {
    0 <= i && i + sep.len() <= s.len() && s.subrange(i, i + sep.len()) == sep
}

/// How many bytes from position `from` on precede the next occurrence of
/// `sep` or the end of `s`.
pub open spec fn gap_len(s: Seq<u8>, sep: Seq<u8>, from: int) -> nat
    decreases s.len() - from,
{
    if from < 0 || from >= s.len() || matches_at(s, sep, from) {
        0
    } else {
        1 + gap_len(s, sep, from + 1)
    }
}

/// The parts of `s` from position `from` on that lie between occurrences
/// of `sep`, found from left to right without overlap.
pub open spec fn parts_from(s: Seq<u8>, sep: Seq<u8>, from: int) -> Seq<Seq<u8>>
    decreases s.len() - from,
{
    if from < 0 || from > s.len() || sep.len() == 0 {
        Seq::empty()
    } else {
        let n = from + gap_len(s, sep, from);
        if n + sep.len() > s.len() {
            seq![s.subrange(from, s.len() as int)]
        } else {
            seq![s.subrange(from, n)] + parts_from(s, sep, n + sep.len())
        }
    }
}

/// The parts of `s` between occurrences of `sep`: one more than there
/// are occurrences, empty parts included.
pub open spec fn parts_of(s: Seq<u8>, sep: Seq<u8>) -> Seq<Seq<u8>> {
    parts_from(s, sep, 0)
}

/// The gap that starts at `from` ends at an occurrence of `sep` or at the
/// end of `s`.
pub proof fn lemma_gap_len(s: Seq<u8>, sep: Seq<u8>, from: int)
    requires
        0 <= from <= s.len(),
    ensures
        from + gap_len(s, sep, from) <= s.len(),
        from + gap_len(s, sep, from) < s.len() ==> matches_at(s, sep, from + gap_len(s, sep, from)),
    decreases s.len() - from,
{
    if from < s.len() && !matches_at(s, sep, from) {
        lemma_gap_len(s, sep, from + 1);
    }
}

/// Whether `sep` stands in `bytes` at position `i`.
pub fn found_at(bytes: &[u8], sep: &[u8], i: usize) -> (r: bool)
    ensures
        r == matches_at(bytes@, sep@, i as int),
{
    let n = bytes.len();
    let m = sep.len();
    if m > n || i > n - m {
        return false;
    }
    let mut k: usize = 0;
    while k < m
        invariant
            k <= m,
            m == sep@.len(),
            n == bytes@.len(),
            i + m <= n,
            forall|j: int| 0 <= j < k ==> bytes@[i + j] == sep@[j],
        decreases m - k,
    {
        if bytes[i + k] != sep[k] {
            assert(bytes@.subrange(i as int, i + m)[k as int] != sep@[k as int]);
            return false;
        }
        k += 1;
    }
    assert(bytes@.subrange(i as int, i + m) =~= sep@);
    true
}

/// Splits `bytes` at every occurrence of `sep`, found from left to right
/// without overlap.
pub fn split_by(bytes: &[u8], sep: &[u8]) -> (out: Vec<Vec<u8>>)
    requires
        sep@.len() >= 1,
    ensures
        out.deep_view() == parts_of(bytes@, sep@),
        out@.len() >= 1,
{
    let n = bytes.len();
    let m = sep.len();
    let mut out: Vec<Vec<u8>> = Vec::new();
    let mut pos: usize = 0;
    let mut done = false;
    assert(out.deep_view() =~= Seq::<Seq<u8>>::empty());
    while !done
        invariant
            pos <= n,
            n == bytes@.len(),
            m == sep@.len(),
            m >= 1,
            !done ==> parts_of(bytes@, sep@) == out.deep_view() + parts_from(
                bytes@,
                sep@,
                pos as int,
            ),
            done ==> parts_of(bytes@, sep@) == out.deep_view() && out@.len() >= 1,
        decreases n - pos + if done {
            0int
        } else {
            1int
        },
    {
        let mut part: Vec<u8> = Vec::new();
        let mut end = pos;
        while end < n && !found_at(bytes, sep, end)
            invariant
                pos <= end <= n,
                n == bytes@.len(),
                part@ == bytes@.subrange(pos as int, end as int),
                gap_len(bytes@, sep@, pos as int) == (end - pos) + gap_len(
                    bytes@,
                    sep@,
                    end as int,
                ),
            decreases n - end,
        {
            part.push(bytes[end]);
            assert(part@ =~= bytes@.subrange(pos as int, end as int + 1));
            end += 1;
        }
        let ghost before = out.deep_view();
        let ghost out0 = out;
        let ghost rest = parts_from(bytes@, sep@, pos as int);
        assert(pos + gap_len(bytes@, sep@, pos as int) == end);
        out.push(part);
        proof {
            lemma_rows_push(out0, out, part);
        }
        if end < n {
            proof {
                assert(matches_at(bytes@, sep@, end as int));
                assert(end + m <= n);
                assert(rest == seq![bytes@.subrange(pos as int, end as int)] + parts_from(
                    bytes@,
                    sep@,
                    end + m,
                ));
                assert(before + rest =~= out.deep_view() + parts_from(bytes@, sep@, end + m));
            }
            pos = end + m;
        } else {
            proof {
                assert(rest == seq![bytes@.subrange(pos as int, n as int)]);
                assert(before + rest =~= out.deep_view());
            }
            pos = n;
            done = true;
        }
    }
    out
}

/// Whether `b` is a blank: a space, a tab, a line feed, a vertical tab, a
/// form feed or a carriage return.
pub open spec fn is_blank(b: u8) -> bool {
    b == 32 || (9 <= b <= 13)
}

/// How many bytes from position `from` on precede the next blank or the
/// end of `s`.
pub open spec fn word_len(s: Seq<u8>, from: int) -> nat
    decreases s.len() - from,
{
    if from < 0 || from >= s.len() || is_blank(s[from]) {
        0
    } else {
        1 + word_len(s, from + 1)
    }
}

/// The words of `s` from position `from` on.
pub open spec fn fields_from(s: Seq<u8>, from: int) -> Seq<Seq<u8>>
    decreases s.len() - from,
{
    if from < 0 || from >= s.len() {
        Seq::empty()
    } else {
        let n = from + word_len(s, from);
        let rest = if n >= s.len() {
            Seq::empty()
        } else {
            fields_from(s, n + 1)
        };
        if n > from {
            seq![s.subrange(from, n)] + rest
        } else {
            rest
        }
    }
}

/// The words of `s`: the stretches without blanks, in order.
pub open spec fn fields_of(s: Seq<u8>) -> Seq<Seq<u8>> {
    fields_from(s, 0)
}

/// The word that starts at `from` ends before the end of `s`.
pub proof fn lemma_word_len(s: Seq<u8>, from: int)
    requires
        0 <= from <= s.len(),
    ensures
        from + word_len(s, from) <= s.len(),
    decreases s.len() - from,
{
    if from < s.len() && !is_blank(s[from]) {
        lemma_word_len(s, from + 1);
    }
}

/// Whether `b` is a blank.
pub fn blank(b: u8) -> (r: bool)
    ensures
        r == is_blank(b),
{
    b == 32 || (9 <= b && b <= 13)
}

/// Splits `bytes` into its words.
pub fn split_fields(bytes: &[u8]) -> (out: Vec<Vec<u8>>)
    ensures
        out.deep_view() == fields_of(bytes@),
        forall|i: int| 0 <= i < out@.len() ==> (#[trigger] out@[i])@.len() >= 1,
{
    let n = bytes.len();
    let mut out: Vec<Vec<u8>> = Vec::new();
    let mut pos: usize = 0;
    assert(out.deep_view() =~= Seq::<Seq<u8>>::empty());
    while pos < n
        invariant
            pos <= n,
            n == bytes@.len(),
            fields_of(bytes@) == out.deep_view() + fields_from(bytes@, pos as int),
            forall|i: int| 0 <= i < out@.len() ==> (#[trigger] out@[i])@.len() >= 1,
        decreases n - pos,
    {
        let mut word: Vec<u8> = Vec::new();
        let mut end = pos;
        while end < n && !blank(bytes[end])
            invariant
                pos <= end <= n,
                n == bytes@.len(),
                word@ == bytes@.subrange(pos as int, end as int),
                word_len(bytes@, pos as int) == (end - pos) + word_len(bytes@, end as int),
            decreases n - end,
        {
            word.push(bytes[end]);
            assert(word@ =~= bytes@.subrange(pos as int, end as int + 1));
            end += 1;
        }
        assert(pos + word_len(bytes@, pos as int) == end);
        let ghost before = out.deep_view();
        let ghost out0 = out;
        let ghost rest = fields_from(bytes@, pos as int);
        let next = if end < n {
            end + 1
        } else {
            n
        };
        let ghost tail = fields_from(bytes@, next as int);
        proof {
            lemma_word_len(bytes@, pos as int);
            if end >= n {
                assert(tail =~= Seq::<Seq<u8>>::empty());
            }
            assert(tail == if end >= n {
                Seq::<Seq<u8>>::empty()
            } else {
                fields_from(bytes@, end + 1)
            });
        }
        if end > pos {
            out.push(word);
            proof {
                lemma_rows_push(out0, out, word);
                assert(rest == seq![bytes@.subrange(pos as int, end as int)] + tail);
                assert(before + rest =~= out.deep_view() + tail);
            }
        } else {
            proof {
                assert(rest == tail);
            }
        }
        pos = next;
    }
    proof {
        assert(fields_from(bytes@, pos as int) =~= Seq::<Seq<u8>>::empty());
        assert(out.deep_view() + Seq::<Seq<u8>>::empty() =~= out.deep_view());
    }
    out
}

/// Whether `b` is a decimal digit.
pub open spec fn is_digit(b: u8) -> bool {
    48 <= b <= 57
}

/// The number that the decimal digits `s` write.
pub open spec fn digits_value(s: Seq<u8>) -> nat
    decreases s.len(),
{
    if s.len() == 0 {
        0
    } else {
        (digits_value(s.drop_last()) * 10 + (s.last() - 48)) as nat
    }
}

/// Whether `s` holds decimal digits only.
pub open spec fn all_digits(s: Seq<u8>) -> bool {
    forall|i: int| 0 <= i < s.len() ==> is_digit(#[trigger] s[i])
}

/// The number that `s` writes without a sign or after a plus sign: one or
/// more decimal digits.
pub open spec fn unsigned_text(s: Seq<u8>) -> Option<nat> {
    let body = if s.len() > 0 && s[0] == 43 {
        s.subrange(1, s.len() as int)
    } else {
        s
    };
    if body.len() > 0 && all_digits(body) {
        Some(digits_value(body))
    } else {
        None
    }
}

/// The number that `s` writes: one or more decimal digits, after a plus
/// or a minus sign or none.
pub open spec fn signed_text(s: Seq<u8>) -> Option<int> {
    if s.len() > 0 && s[0] == 45 {
        let body = s.subrange(1, s.len() as int);
        if body.len() > 0 && all_digits(body) {
            Some(-(digits_value(body) as int))
        } else {
            None
        }
    } else {
        match unsigned_text(s) {
            Some(v) => Some(v as int),
            None => None,
        }
    }
}

/// More digits never write a smaller number.
pub proof fn lemma_digits_grow(s: Seq<u8>, k: int)
    requires
        all_digits(s),
        0 <= k <= s.len(),
    ensures
        digits_value(s.subrange(0, k)) <= digits_value(s),
    decreases s.len() - k,
{
    if k < s.len() {
        lemma_digits_grow(s, k + 1);
        let longer = s.subrange(0, k + 1);
        assert(longer.drop_last() =~= s.subrange(0, k));
        assert(longer.last() == s[k]);
        assert(is_digit(s[k]));
    } else {
        assert(s.subrange(0, k) =~= s);
    }
}

/// The number that the digits `bytes[from..]` write, if they are digits,
/// at least one, and the number is at most `limit`.
fn read_digits(bytes: &[u8], from: usize, limit: u64) -> (r: Option<u64>)
    requires
        from <= bytes@.len(),
    ensures
        ({
            let body = bytes@.subrange(from as int, bytes@.len() as int);
            match r {
                Some(v) => body.len() > 0 && all_digits(body) && v == digits_value(body) && v
                    <= limit,
                None => !(body.len() > 0 && all_digits(body) && digits_value(body) <= limit),
            }
        }),
{
    let n = bytes.len();
    let ghost body = bytes@.subrange(from as int, n as int);
    if from == n {
        return None;
    }
    let mut acc: u64 = 0;
    let mut i: usize = from;
    while i < n
        invariant
            from <= i <= n,
            n == bytes@.len(),
            body == bytes@.subrange(from as int, n as int),
            all_digits(body.subrange(0, i - from)),
            acc == digits_value(body.subrange(0, i - from)),
            acc <= limit,
        decreases n - i,
    {
        let b = bytes[i];
        let ghost shorter = body.subrange(0, i - from);
        let ghost longer = body.subrange(0, i - from + 1);
        proof {
            assert(longer.drop_last() =~= shorter);
            assert(longer.last() == b);
        }
        if b < 48 || b > 57 {
            assert(!is_digit(body[i - from]));
            return None;
        }
        let d = (b - 48) as u64;
        if d > limit || acc > (limit - d) / 10 {
            proof {
                assert(digits_value(longer) > limit);
                if all_digits(body) {
                    lemma_digits_grow(body, i - from + 1);
                }
            }
            return None;
        }
        acc = acc * 10 + d;
        proof {
            assert forall|k: int| 0 <= k < longer.len() implies is_digit(#[trigger] longer[k]) by {
                if k < shorter.len() {
                    assert(shorter[k] == longer[k]);
                }
            }
        }
        i += 1;
    }
    assert(body.subrange(0, n - from) =~= body);
    Some(acc)
}

/// Reads what `bytes` writes as an unsigned number that fits 64 bits.
pub fn parse_u64(bytes: &[u8]) -> (r: Option<u64>)
    ensures
        match r {
            Some(v) => unsigned_text(bytes@) == Some(v as nat),
            None => match unsigned_text(bytes@) {
                Some(v) => v > u64::MAX,
                None => true,
            },
        },
{
    let from: usize = if bytes.len() > 0 && bytes[0] == 43 {
        1
    } else {
        0
    };
    assert(from == 0 ==> bytes@.subrange(0, bytes@.len() as int) =~= bytes@);
    read_digits(bytes, from, u64::MAX)
}

/// Reads what `bytes` writes as a signed number that fits 64 bits.
pub fn parse_i64(bytes: &[u8]) -> (r: Option<i64>)
    ensures
        match r {
            Some(v) => signed_text(bytes@) == Some(v as int),
            None => match signed_text(bytes@) {
                Some(v) => v < i64::MIN || v > i64::MAX,
                None => true,
            },
        },
{
    if bytes.len() > 0 && bytes[0] == 45 {
        match read_digits(bytes, 1, 9223372036854775808) {
            Some(v) => {
                if v == 9223372036854775808 {
                    Some(i64::MIN)
                } else {
                    Some(-(v as i64))
                }
            },
            None => None,
        }
    } else {
        let from: usize = if bytes.len() > 0 && bytes[0] == 43 {
            1
        } else {
            0
        };
        assert(from == 0 ==> bytes@.subrange(0, bytes@.len() as int) =~= bytes@);
        match read_digits(bytes, from, 9223372036854775807) {
            Some(v) => Some(v as i64),
            None => None,
        }
    }
}

/// The two parts of `s` before and after the first occurrence of `sep`.
pub open spec fn split_once_of(s: Seq<u8>, sep: Seq<u8>) -> Option<(Seq<u8>, Seq<u8>)> {
    let n = gap_len(s, sep, 0) as int;
    if sep.len() == 0 || n + sep.len() > s.len() {
        None
    } else {
        Some((s.subrange(0, n), s.subrange(n + sep.len(), s.len() as int)))
    }
}

/// Splits `bytes` at the first occurrence of `sep`.
pub fn split_once(bytes: &[u8], sep: &[u8]) -> (r: Option<(Vec<u8>, Vec<u8>)>)
    requires
        sep@.len() >= 1,
    ensures
        match r {
            Some((a, b)) => split_once_of(bytes@, sep@) == Some((a@, b@)),
            None => split_once_of(bytes@, sep@) is None,
        },
{
    let n = bytes.len();
    let m = sep.len();
    let mut head: Vec<u8> = Vec::new();
    let mut end: usize = 0;
    while end < n && !found_at(bytes, sep, end)
        invariant
            end <= n,
            n == bytes@.len(),
            head@ == bytes@.subrange(0, end as int),
            gap_len(bytes@, sep@, 0) == end + gap_len(bytes@, sep@, end as int),
        decreases n - end,
    {
        head.push(bytes[end]);
        assert(head@ =~= bytes@.subrange(0, end as int + 1));
        end += 1;
    }
    if end >= n {
        return None;
    }
    let mut tail: Vec<u8> = Vec::new();
    let mut i: usize = end + m;
    while i < n
        invariant
            end + m <= i <= n,
            n == bytes@.len(),
            tail@ == bytes@.subrange(end + m, i as int),
        decreases n - i,
    {
        tail.push(bytes[i]);
        assert(tail@ =~= bytes@.subrange(end + m, i as int + 1));
        i += 1;
    }
    Some((head, tail))
}

} // verus!
