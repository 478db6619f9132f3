//! Character-level text model shared by the parsers.
//!
//! Text is handled as a sequence of `char`s.  Each exec helper works on a
//! span `lo..hi` of a `Vec<char>` and is specified by a spec function over
//! the characters of that span.

use vstd::prelude::*;

verus! {

/// Unicode `White_Space`, the set that `char::is_whitespace` tests.
pub open spec fn is_ws(c: char) -> bool {
    ||| c == ' '
    ||| ('\t' <= c && c <= '\r')
    ||| c == '\u{85}'
    ||| c == '\u{a0}'
    ||| c == '\u{1680}'
    ||| ('\u{2000}' <= c && c <= '\u{200a}')
    ||| c == '\u{2028}'
    ||| c == '\u{2029}'
    ||| c == '\u{202f}'
    ||| c == '\u{205f}'
    ||| c == '\u{3000}'
}

/// Position of the first `c` in `s`, or `s.len()` when there is none.
pub open spec fn index_of(s: Seq<char>, c: char) -> int
    decreases s.len(),
{
    if s.len() == 0 {
        0
    } else if s[0] == c {
        0
    } else {
        1 + index_of(s.drop_first(), c)
    }
}

/// `s` without its leading whitespace.
pub open spec fn trim_start(s: Seq<char>) -> Seq<char>
    decreases s.len(),
{
    if s.len() > 0 && is_ws(s[0]) {
        trim_start(s.drop_first())
    } else {
        s
    }
}

/// `s` without its trailing whitespace.
pub open spec fn trim_end(s: Seq<char>) -> Seq<char>
    decreases s.len(),
{
    if s.len() > 0 && is_ws(s.last()) {
        trim_end(s.drop_last())
    } else {
        s
    }
}

/// `s` without leading and trailing whitespace (`str::trim`).
pub open spec fn trim(s: Seq<char>) -> Seq<char> {
    trim_end(trim_start(s))
}

/// `s` with the prefix `p` removed, when `s` starts with `p`.
pub open spec fn strip_prefix(s: Seq<char>, p: Seq<char>) -> Option<Seq<char>> {
    if p.len() <= s.len() && s.subrange(0, p.len() as int) == p {
        Some(s.subrange(p.len() as int, s.len() as int))
    } else {
        None
    }
}

/// `s` with the suffix `p` removed, when `s` ends with `p`.
pub open spec fn strip_suffix(s: Seq<char>, p: Seq<char>) -> Option<Seq<char>> {
    if p.len() <= s.len() && s.subrange(s.len() - p.len(), s.len() as int) == p {
        Some(s.subrange(0, s.len() - p.len()))
    } else {
        None
    }
}

/// A line with one trailing carriage return removed.
pub open spec fn strip_cr(l: Seq<char>) -> Seq<char> {
    if l.len() > 0 && l.last() == '\r' {
        l.drop_last()
    } else {
        l
    }
}

/// The lines of `s` as `str::lines` yields them: split after each `'\n'`,
/// a `"\r\n"` ending counts as one, and a final line ending is optional.
pub open spec fn lines(s: Seq<char>) -> Seq<Seq<char>>
    decreases s.len(),
{
    if s.len() == 0 {
        seq![]
    } else {
        let i = index_of(s, '\n');
        proof {
            lemma_index_of_bounds(s, '\n');
        }
        if i >= s.len() {
            seq![s]
        } else {
            seq![strip_cr(s.subrange(0, i))] + lines(s.subrange(i + 1, s.len() as int))
        }
    }
}

/// The pieces of `s` between occurrences of `c` (`str::split` on a char).
pub open spec fn split_on(s: Seq<char>, c: char) -> Seq<Seq<char>>
    decreases s.len(),
{
    let i = index_of(s, c);
    proof {
        lemma_index_of_bounds(s, c);
    }
    if i >= s.len() {
        seq![s]
    } else {
        seq![s.subrange(0, i)] + split_on(s.subrange(i + 1, s.len() as int), c)
    }
}

/// Position of the first whitespace character of `s`, or `s.len()`.
pub open spec fn index_ws(s: Seq<char>) -> int
    decreases s.len(),
{
    if s.len() == 0 {
        0
    } else if is_ws(s[0]) {
        0
    } else {
        1 + index_ws(s.drop_first())
    }
}

/// The whitespace-separated words of `s` (`str::split_whitespace`).
pub open spec fn words(s: Seq<char>) -> Seq<Seq<char>>
    decreases s.len(),
{
    if s.len() == 0 {
        seq![]
    } else if is_ws(s[0]) {
        words(s.drop_first())
    } else {
        let k = index_ws(s);
        proof {
            lemma_index_ws_bounds(s);
        }
        seq![s.subrange(0, k)] + words(s.subrange(k, s.len() as int))
    }
}

/// An ASCII decimal digit.
pub open spec fn is_digit(c: char) -> bool {
    '0' <= c && c <= '9'
}

/// Every character of `s` is an ASCII decimal digit.
pub open spec fn all_digits(s: Seq<char>) -> bool {
    forall|i: int| 0 <= i < s.len() ==> is_digit(#[trigger] s[i])
}

/// The value of one decimal digit.
pub open spec fn digit_value(c: char) -> nat {
    (c as int - '0' as int) as nat
}

/// The number that the decimal digits `s` spell (0 for no digits).
pub open spec fn digits_value(s: Seq<char>) -> nat
    decreases s.len(),
{
    if s.len() == 0 {
        0
    } else {
        digits_value(s.drop_last()) * 10 + digit_value(s.last())
    }
}

/// `str::parse::<u64>`: an optional `'+'`, then one or more ASCII digits
/// whose value fits in a `u64`.
pub open spec fn parse_u64(s: Seq<char>) -> Option<u64> {
    let d = if s.len() > 0 && s[0] == '+' {
        s.drop_first()
    } else {
        s
    };
    if d.len() > 0 && all_digits(d) && digits_value(d) <= u64::MAX {
        Some(digits_value(d) as u64)
    } else {
        None
    }
}

/// Bounds and defining facts of `index_of`.
pub proof fn lemma_index_of_bounds(s: Seq<char>, c: char)
    ensures
        0 <= index_of(s, c) <= s.len(),
        forall|j: int| 0 <= j < index_of(s, c) ==> s[j] != c,
        index_of(s, c) < s.len() ==> s[index_of(s, c)] == c,
    decreases s.len(),
{
    if s.len() > 0 && s[0] != c {
        lemma_index_of_bounds(s.drop_first(), c);
        assert forall|j: int| 0 <= j < index_of(s, c) implies s[j] != c by {
            if j > 0 {
                assert(s[j] == s.drop_first()[j - 1]);
            }
        }
    }
}

/// Bounds of `index_ws`; it is positive when `s` starts with a non-space.
pub proof fn lemma_index_ws_bounds(s: Seq<char>)
    ensures
        0 <= index_ws(s) <= s.len(),
        s.len() > 0 && !is_ws(s[0]) ==> index_ws(s) >= 1,
    decreases s.len(),
{
    if s.len() > 0 && !is_ws(s[0]) {
        lemma_index_ws_bounds(s.drop_first());
    }
}

/// `index_ws(s)` is `i` when no character before `i` is whitespace and
/// `i` holds whitespace or is the end.
proof fn lemma_index_ws_is(s: Seq<char>, i: int)
    requires
        0 <= i <= s.len(),
        forall|j: int| 0 <= j < i ==> !is_ws(s[j]),
        i < s.len() ==> is_ws(s[i]),
    ensures
        index_ws(s) == i,
    decreases s.len(),
{
    if s.len() > 0 && !is_ws(s[0]) {
        lemma_index_ws_is(s.drop_first(), i - 1);
    }
}

/// A longer run of digits is worth at least as much as its prefix.
proof fn lemma_digits_value_prefix(s: Seq<char>, k: int)
    requires
        0 <= k <= s.len(),
        all_digits(s),
    ensures
        digits_value(s.subrange(0, k)) <= digits_value(s),
    decreases s.len(),
{
    if k < s.len() {
        let p = s.drop_last();
        assert(p.subrange(0, k) == s.subrange(0, k));
        assert(all_digits(p)) by {
            assert forall|i: int| 0 <= i < p.len() implies is_digit(#[trigger] p[i]) by {
                assert(p[i] == s[i]);
            }
        }
        lemma_digits_value_prefix(p, k);
    } else {
        assert(s.subrange(0, k) == s);
    }
}

/// The first position at which `c` occurs is `i` when every earlier
/// character differs from `c` and `i` holds `c` or is the end.
pub proof fn lemma_index_of_is(s: Seq<char>, c: char, i: int)
    requires
        0 <= i <= s.len(),
        forall|j: int| 0 <= j < i ==> s[j] != c,
        i < s.len() ==> s[i] == c,
    ensures
        index_of(s, c) == i,
    decreases s.len(),
{
    if s.len() > 0 && s[0] != c {
        lemma_index_of_is(s.drop_first(), c, i - 1);
    }
}

/// No character of `s` is `c`.
pub open spec fn free_of(s: Seq<char>, c: char) -> bool {
    forall|i: int| 0 <= i < s.len() ==> s[i] != c
}

/// Text that neither starts nor ends with whitespace is its own trim.
pub proof fn lemma_trim_unchanged(s: Seq<char>)
    requires
        s.len() > 0 ==> !is_ws(s[0]) && !is_ws(s.last()),
    ensures
        trim(s) == s,
{
    assert(trim_start(s) == s);
}

/// `trim_start` leaves nothing or text that starts with a non-space.
proof fn lemma_trim_start_shape(s: Seq<char>)
    ensures
        trim_start(s).len() > 0 ==> !is_ws(trim_start(s)[0]),
    decreases s.len(),
{
    if s.len() > 0 && is_ws(s[0]) {
        lemma_trim_start_shape(s.drop_first());
    }
}

/// `trim_end` leaves a prefix that is empty or ends with a non-space.
proof fn lemma_trim_end_shape(s: Seq<char>)
    ensures
        trim_end(s).len() <= s.len(),
        trim_end(s) == s.subrange(0, trim_end(s).len() as int),
        trim_end(s).len() > 0 ==> !is_ws(trim_end(s).last()),
    decreases s.len(),
{
    if s.len() > 0 && is_ws(s.last()) {
        lemma_trim_end_shape(s.drop_last());
    } else {
        assert(s.subrange(0, s.len() as int) == s);
    }
}

/// Trimming twice is trimming once.
pub proof fn lemma_trim_idempotent(s: Seq<char>)
    ensures
        trim(trim(s)) == trim(s),
{
    let t = trim_start(s);
    let u = trim_end(t);
    lemma_trim_start_shape(s);
    lemma_trim_end_shape(t);
    if u.len() > 0 {
        assert(u[0] == t[0]);
    }
    lemma_trim_unchanged(u);
}

/// One leading space is trimmed away from text that otherwise neither
/// starts nor ends with whitespace.
pub proof fn lemma_trim_space_before(s: Seq<char>)
    requires
        s.len() > 0,
        !is_ws(s[0]),
        !is_ws(s.last()),
    ensures
        trim(seq![' '] + s) == s,
{
    assert((seq![' '] + s).drop_first() == s);
    assert(trim_start(s) == s);
    assert(trim_start(seq![' '] + s) == s);
}

/// A line without line breaks, a `'\n'`, then more text: the line comes
/// first, then the lines of the rest.
pub proof fn lemma_lines_cons(l: Seq<char>, rest: Seq<char>)
    requires
        free_of(l, '\n'),
        free_of(l, '\r'),
    ensures
        lines(l + seq!['\n'] + rest) == seq![l] + lines(rest),
{
    let s = l + seq!['\n'] + rest;
    assert forall|j: int| 0 <= j < l.len() implies s[j] != '\n' by {
        assert(s[j] == l[j]);
    }
    assert(s[l.len() as int] == '\n');
    lemma_index_of_is(s, '\n', l.len() as int);
    assert(s.subrange(0, l.len() as int) == l);
    assert(s.subrange(l.len() as int + 1, s.len() as int) == rest);
    if l.len() > 0 {
        assert(l.last() != '\r');
    }
    assert(strip_cr(l) == l);
}

/// Text without `c` splits into itself alone.
pub proof fn lemma_split_none(s: Seq<char>, c: char)
    requires
        free_of(s, c),
    ensures
        split_on(s, c) == seq![s],
{
    lemma_index_of_is(s, c, s.len() as int);
}

/// Text without `c`, then `c`, then more: the text is the first piece,
/// then the pieces of the rest.
pub proof fn lemma_split_cons(a: Seq<char>, c: char, b: Seq<char>)
    requires
        free_of(a, c),
    ensures
        split_on(a + seq![c] + b, c) == seq![a] + split_on(b, c),
{
    let s = a + seq![c] + b;
    assert forall|j: int| 0 <= j < a.len() implies s[j] != c by {
        assert(s[j] == a[j]);
    }
    assert(s[a.len() as int] == c);
    lemma_index_of_is(s, c, a.len() as int);
    assert(s.subrange(0, a.len() as int) == a);
    assert(s.subrange(a.len() as int + 1, s.len() as int) == b);
}

/// Stripping a prefix from text that starts with it leaves the rest.
pub proof fn lemma_strip_prefix_of(p: Seq<char>, s: Seq<char>)
    ensures
        strip_prefix(p + s, p) == Some(s),
{
    assert((p + s).subrange(0, p.len() as int) == p);
    assert((p + s).subrange(p.len() as int, (p + s).len() as int) == s);
}

/// Stripping a suffix from text that ends with it leaves the rest.
pub proof fn lemma_strip_suffix_of(s: Seq<char>, p: Seq<char>)
    ensures
        strip_suffix(s + p, p) == Some(s),
{
    assert((s + p).subrange(s.len() as int, (s + p).len() as int) == p);
    assert((s + p).subrange(0, s.len() as int) == s);
}

/// Text whose last character differs from the last of `p` does not end
/// with `p`.
pub proof fn lemma_strip_suffix_not(s: Seq<char>, p: Seq<char>)
    requires
        p.len() > 0,
        s.len() > 0,
        s.last() != p.last(),
    ensures
        strip_suffix(s, p) is None,
{
    if p.len() <= s.len() {
        let t = s.subrange(s.len() - p.len(), s.len() as int);
        assert(t.last() == s.last());
        assert(t != p);
    }
}

/// Whether `t[lo..hi]` starts with `p`.
pub fn has_prefix_in(t: &Vec<char>, lo: usize, hi: usize, p: &Vec<char>) -> (b: bool)
    requires
        lo <= hi <= t.len(),
    ensures
        b == strip_prefix(t@.subrange(lo as int, hi as int), p@) is Some,
        b ==> lo + p@.len() <= hi && strip_prefix(t@.subrange(lo as int, hi as int), p@) == Some(
            t@.subrange(lo + p@.len(), hi as int),
        ),
{
    if p.len() > hi - lo {
        return false;
    }
    let mut k: usize = 0;
    while k < p.len()
        invariant
            p.len() <= hi - lo,
            lo <= hi <= t.len(),
            0 <= k <= p.len(),
            forall|j: int| 0 <= j < k ==> t@[lo + j] == p@[j],
        decreases p.len() - k,
    {
        if t[lo + k] != p[k] {
            assert(t@.subrange(lo as int, hi as int).subrange(0, p.len() as int)[k as int] != p@[k as int]);
            return false;
        }
        k += 1;
    }
    assert(t@.subrange(lo as int, hi as int).subrange(0, p.len() as int) == p@);
    assert(t@.subrange(lo as int, hi as int).subrange(p.len() as int, (hi - lo) as int) == t@.subrange(
        lo + p@.len(),
        hi as int,
    ));
    true
}

/// Whether `t[lo..hi]` ends with `p`.
pub fn has_suffix_in(t: &Vec<char>, lo: usize, hi: usize, p: &Vec<char>) -> (b: bool)
    requires
        lo <= hi <= t.len(),
    ensures
        b == strip_suffix(t@.subrange(lo as int, hi as int), p@) is Some,
        b ==> lo + p@.len() <= hi && strip_suffix(t@.subrange(lo as int, hi as int), p@) == Some(
            t@.subrange(lo as int, hi - p@.len()),
        ),
{
    if p.len() > hi - lo {
        return false;
    }
    let base = hi - p.len();
    let mut k: usize = 0;
    while k < p.len()
        invariant
            p.len() <= hi - lo,
            base == hi - p.len(),
            lo <= hi <= t.len(),
            0 <= k <= p.len(),
            forall|j: int| 0 <= j < k ==> t@[base + j] == p@[j],
        decreases p.len() - k,
    {
        if t[base + k] != p[k] {
            let ghost s = t@.subrange(lo as int, hi as int);
            assert(s.subrange(s.len() - p.len(), s.len() as int)[k as int] != p@[k as int]);
            return false;
        }
        k += 1;
    }
    let ghost s = t@.subrange(lo as int, hi as int);
    assert(s.subrange(s.len() - p.len(), s.len() as int) == p@);
    assert(s.subrange(0, s.len() - p.len()) == t@.subrange(lo as int, hi - p@.len()));
    true
}

/// Whether `t[lo..hi]` is exactly `p`.
pub fn equals_in(t: &Vec<char>, lo: usize, hi: usize, p: &Vec<char>) -> (b: bool)
    requires
        lo <= hi <= t.len(),
    ensures
        b == (t@.subrange(lo as int, hi as int) == p@),
{
    if p.len() != hi - lo {
        assert(t@.subrange(lo as int, hi as int).len() != p@.len());
        return false;
    }
    let b = has_prefix_in(t, lo, hi, p);
    proof {
        let s = t@.subrange(lo as int, hi as int);
        assert(s.subrange(0, p.len() as int) == s);
    }
    b
}

/// Whether the spans `a..b` and `c..d` of `t` hold the same characters.
pub fn same_span(t: &Vec<char>, a: usize, b: usize, c: usize, d: usize) -> (r: bool)
    requires
        a <= b <= t.len(),
        c <= d <= t.len(),
    ensures
        r == (t@.subrange(a as int, b as int) == t@.subrange(c as int, d as int)),
{
    if b - a != d - c {
        assert(t@.subrange(a as int, b as int).len() != t@.subrange(c as int, d as int).len());
        return false;
    }
    let mut k: usize = 0;
    while k < b - a
        invariant
            a <= b <= t.len(),
            c <= d <= t.len(),
            b - a == d - c,
            0 <= k <= b - a,
            t@.subrange(a as int, a + k) == t@.subrange(c as int, c + k),
        decreases b - a - k,
    {
        if t[a + k] != t[c + k] {
            assert(t@.subrange(a as int, b as int)[k as int] != t@.subrange(c as int, d as int)[k as int]);
            return false;
        }
        assert(t@.subrange(a as int, a + k + 1) == t@.subrange(a as int, a + k).push(t@[a + k]));
        assert(t@.subrange(c as int, c + k + 1) == t@.subrange(c as int, c + k).push(t@[c + k]));
        k += 1;
    }
    assert(t@.subrange(a as int, b as int) == t@.subrange(c as int, d as int));
    true
}

/// The next line of `t` starting at `pos`: it spans `r.0..r.1`, and the
/// rest of the text starts at `r.2`.
pub fn next_line(t: &Vec<char>, pos: usize) -> (r: (usize, usize, usize))
    requires
        pos < t.len(),
    ensures
        pos == r.0 <= r.1 <= r.2 <= t.len(),
        pos < r.2,
        lines(t@.subrange(pos as int, t.len() as int)) == seq![t@.subrange(r.0 as int, r.1 as int)]
            + lines(t@.subrange(r.2 as int, t.len() as int)),
{
    let n = t.len();
    let i = find_in(t, pos, n, '\n');
    let ghost s = t@.subrange(pos as int, n as int);
    if i == n {
        assert(lines(t@.subrange(n as int, n as int)) == Seq::<Seq<char>>::empty());
        assert(s == t@.subrange(pos as int, n as int));
        return (pos, n, n);
    }
    assert(s.subrange(0, i - pos) == t@.subrange(pos as int, i as int));
    assert(s.subrange(i - pos + 1, s.len() as int) == t@.subrange(i + 1, n as int));
    if i > pos && t[i - 1] == '\r' {
        assert(t@.subrange(pos as int, i as int).drop_last() == t@.subrange(pos as int, i - 1));
        (pos, i - 1, i + 1)
    } else {
        (pos, i, i + 1)
    }
}

/// The spans of the pieces of `t[lo..hi]` between occurrences of `c`.
pub fn split_in(t: &Vec<char>, lo: usize, hi: usize, c: char) -> (v: Vec<(usize, usize)>)
    requires
        lo <= hi <= t.len(),
    ensures
        v@.len() == split_on(t@.subrange(lo as int, hi as int), c).len(),
        forall|k: int|
            0 <= k < v@.len() ==> lo <= (#[trigger] v@[k]).0 <= v@[k].1 <= hi
                && t@.subrange(v@[k].0 as int, v@[k].1 as int) == split_on(
                t@.subrange(lo as int, hi as int),
                c,
            )[k],
{
    let mut v: Vec<(usize, usize)> = Vec::new();
    let mut pos = lo;
    loop
        invariant_except_break
            lo <= pos <= hi <= t.len(),
            split_on(t@.subrange(lo as int, hi as int), c) == v@.map_values(
                |p: (usize, usize)| t@.subrange(p.0 as int, p.1 as int),
            ) + split_on(t@.subrange(pos as int, hi as int), c),
            forall|k: int| 0 <= k < v@.len() ==> lo <= (#[trigger] v@[k]).0 <= v@[k].1 <= hi,
        ensures
            split_on(t@.subrange(lo as int, hi as int), c) == v@.map_values(
                |p: (usize, usize)| t@.subrange(p.0 as int, p.1 as int),
            ),
            forall|k: int| 0 <= k < v@.len() ==> lo <= (#[trigger] v@[k]).0 <= v@[k].1 <= hi,
        decreases hi - pos,
    {
        let i = find_in(t, pos, hi, c);
        let ghost s = t@.subrange(pos as int, hi as int);
        let ghost before = v@;
        v.push((pos, i));
        assert(s.subrange(0, i - pos) == t@.subrange(pos as int, i as int));
        assert(v@.map_values(|p: (usize, usize)| t@.subrange(p.0 as int, p.1 as int))
            == before.map_values(|p: (usize, usize)| t@.subrange(p.0 as int, p.1 as int))
            + seq![t@.subrange(pos as int, i as int)]);
        if i == hi {
            assert(s.subrange(0, i - pos) == s);
            break;
        }
        assert(s.subrange(i - pos + 1, s.len() as int) == t@.subrange(i + 1, hi as int));
        pos = i + 1;
    }
    v
}

/// The spans of the whitespace-separated words of `t[lo..hi]`.
pub fn words_in(t: &Vec<char>, lo: usize, hi: usize) -> (v: Vec<(usize, usize)>)
    requires
        lo <= hi <= t.len(),
    ensures
        v@.len() == words(t@.subrange(lo as int, hi as int)).len(),
        forall|k: int|
            0 <= k < v@.len() ==> lo <= (#[trigger] v@[k]).0 <= v@[k].1 <= hi
                && t@.subrange(v@[k].0 as int, v@[k].1 as int) == words(
                t@.subrange(lo as int, hi as int),
            )[k],
{
    let mut v: Vec<(usize, usize)> = Vec::new();
    let mut pos = lo;
    while pos < hi
        invariant
            lo <= pos <= hi <= t.len(),
            words(t@.subrange(lo as int, hi as int)) == v@.map_values(
                |p: (usize, usize)| t@.subrange(p.0 as int, p.1 as int),
            ) + words(t@.subrange(pos as int, hi as int)),
            forall|k: int| 0 <= k < v@.len() ==> lo <= (#[trigger] v@[k]).0 <= v@[k].1 <= hi,
        decreases hi - pos,
    {
        let ghost s = t@.subrange(pos as int, hi as int);
        if is_whitespace(t[pos]) {
            assert(s.drop_first() == t@.subrange(pos + 1, hi as int));
            pos += 1;
        } else {
            let mut e = pos + 1;
            while e < hi && !is_whitespace(t[e])
                invariant
                    pos < e <= hi <= t.len(),
                    forall|j: int| pos <= j < e ==> !is_ws(t@[j]),
                decreases hi - e,
            {
                e += 1;
            }
            proof {
                lemma_index_ws_is(s, e - pos);
            }
            let ghost before = v@;
            v.push((pos, e));
            assert(s.subrange(0, e - pos) == t@.subrange(pos as int, e as int));
            assert(s.subrange(e - pos, s.len() as int) == t@.subrange(e as int, hi as int));
            assert(v@.map_values(|p: (usize, usize)| t@.subrange(p.0 as int, p.1 as int))
                == before.map_values(|p: (usize, usize)| t@.subrange(p.0 as int, p.1 as int))
                + seq![t@.subrange(pos as int, e as int)]);
            pos = e;
        }
    }
    assert(words(t@.subrange(hi as int, hi as int)) == Seq::<Seq<char>>::empty());
    v
}

/// `str::parse::<u64>` on `t[lo..hi]`.
pub fn parse_u64_in(t: &Vec<char>, lo: usize, hi: usize) -> (r: Option<u64>)
    requires
        lo <= hi <= t.len(),
    ensures
        r == parse_u64(t@.subrange(lo as int, hi as int)),
{
    let ghost s = t@.subrange(lo as int, hi as int);
    let start = if lo < hi && t[lo] == '+' {
        lo + 1
    } else {
        lo
    };
    let ghost d = t@.subrange(start as int, hi as int);
    assert(d == (if s.len() > 0 && s[0] == '+' { s.drop_first() } else { s }));
    if start == hi {
        return None;
    }
    let mut v: u64 = 0;
    let mut i = start;
    while i < hi
        invariant
            lo <= start <= i <= hi <= t.len(),
            start < hi,
            s == t@.subrange(lo as int, hi as int),
            d == t@.subrange(start as int, hi as int),
            d == (if s.len() > 0 && s[0] == '+' { s.drop_first() } else { s }),
            all_digits(t@.subrange(start as int, i as int)),
            v == digits_value(t@.subrange(start as int, i as int)),
        decreases hi - i,
    {
        let c = t[i];
        if !('0' <= c && c <= '9') {
            assert(d[i - start] == c);
            return None;
        }
        let ghost p = t@.subrange(start as int, i + 1);
        assert(p.drop_last() == t@.subrange(start as int, i as int));
        assert(all_digits(p)) by {
            assert forall|j: int| 0 <= j < p.len() implies is_digit(#[trigger] p[j]) by {
                if j < p.len() - 1 {
                    assert(p[j] == t@.subrange(start as int, i as int)[j]);
                }
            }
        }
        let dv = (c as u32 - '0' as u32) as u64;
        assert(dv == digit_value(c));
        match v.checked_mul(10) {
            Some(m) => match m.checked_add(dv) {
                Some(nv) => {
                    v = nv;
                },
                None => {
                    proof {
                        overflow_rest(t@, start as int, i + 1, hi as int);
                    }
                    return None;
                },
            },
            None => {
                proof {
                    overflow_rest(t@, start as int, i + 1, hi as int);
                }
                return None;
            },
        }
        i += 1;
    }
    assert(t@.subrange(start as int, i as int) == d);
    Some(v)
}

/// Once a prefix of a digit run exceeds `u64::MAX`, the whole run does, or
/// the run holds a non-digit.
proof fn overflow_rest(t: Seq<char>, start: int, k: int, hi: int)
    requires
        0 <= start < k <= hi <= t.len(),
        digits_value(t.subrange(start, k)) > u64::MAX,
    ensures
        !(all_digits(t.subrange(start, hi)) && digits_value(t.subrange(start, hi)) <= u64::MAX),
{
    let d = t.subrange(start, hi);
    if all_digits(d) {
        assert(d.subrange(0, k - start) == t.subrange(start, k));
        lemma_digits_value_prefix(d, k - start);
    }
}

/// The characters of an optional string.
pub open spec fn opt_view(o: Option<String>) -> Option<Seq<char>> {
    match o {
        Some(s) => Some(s@),
        None => None,
    }
}

/// Whether every character of `t[lo..hi]` is an ASCII digit.
pub fn all_digits_in(t: &Vec<char>, lo: usize, hi: usize) -> (b: bool)
    requires
        lo <= hi <= t.len(),
    ensures
        b == all_digits(t@.subrange(lo as int, hi as int)),
{
    let mut i = lo;
    while i < hi
        invariant
            lo <= i <= hi <= t.len(),
            forall|j: int| lo <= j < i ==> is_digit(#[trigger] t@[j]),
        decreases hi - i,
    {
        if !('0' <= t[i] && t[i] <= '9') {
            assert(t@.subrange(lo as int, hi as int)[i - lo] == t@[i as int]);
            return false;
        }
        i += 1;
    }
    assert forall|j: int| 0 <= j < hi - lo implies is_digit(#[trigger] t@.subrange(lo as int, hi as int)[j]) by {
        assert(t@.subrange(lo as int, hi as int)[j] == t@[lo + j]);
    }
    true
}

/// An owned copy of the characters `lo..hi` of `s`, whose characters are `t`.
pub fn span_string(s: &str, t: &Vec<char>, lo: usize, hi: usize) -> (r: String)
    requires
        t@ == s@,
        lo <= hi <= t.len(),
    ensures
        r@ == t@.subrange(lo as int, hi as int),
{
    s.substring_char(lo, hi).to_owned()
}

/// `char::is_whitespace`.
pub fn is_whitespace(c: char) -> (b: bool)
    ensures
        b == is_ws(c),
{
    c == ' ' || ('\t' <= c && c <= '\r') || c == '\u{85}' || c == '\u{a0}' || c == '\u{1680}'
        || ('\u{2000}' <= c && c <= '\u{200a}') || c == '\u{2028}' || c == '\u{2029}'
        || c == '\u{202f}' || c == '\u{205f}' || c == '\u{3000}'
}

/// The characters of `s`, in order.
pub fn chars_of(s: &str) -> (v: Vec<char>)
    ensures
        v@ == s@,
{
    let mut v: Vec<char> = Vec::new();
    for c in it: s.chars()
        invariant
            v@ == it.seq().take(it.index()),
            it.seq() == s@,
    {
        v.push(c);
    }
    v
}

/// Position of the first `c` in `t[lo..hi]`, as an index into `t`
/// (`hi` when there is none).
pub fn find_in(t: &Vec<char>, lo: usize, hi: usize, c: char) -> (r: usize)
    requires
        lo <= hi <= t.len(),
    ensures
        lo <= r <= hi,
        r - lo == index_of(t@.subrange(lo as int, hi as int), c),
{
    let mut i = lo;
    while i < hi && t[i] != c
        invariant
            lo <= i <= hi <= t.len(),
            forall|j: int| lo <= j < i ==> t@[j] != c,
        decreases hi - i,
    {
        i += 1;
    }
    proof {
        lemma_index_of_is(t@.subrange(lo as int, hi as int), c, i - lo);
    }
    i
}

/// The span of `t[lo..hi]` left by `trim`.
pub fn trim_in(t: &Vec<char>, lo: usize, hi: usize) -> (r: (usize, usize))
    requires
        lo <= hi <= t.len(),
    ensures
        lo <= r.0 <= r.1 <= hi,
        t@.subrange(r.0 as int, r.1 as int) == trim(t@.subrange(lo as int, hi as int)),
{
    let mut i = lo;
    while i < hi && is_whitespace(t[i])
        invariant
            lo <= i <= hi <= t.len(),
            trim_start(t@.subrange(lo as int, hi as int)) == trim_start(t@.subrange(i as int, hi as int)),
        decreases hi - i,
    {
        assert(t@.subrange(i as int, hi as int).drop_first() == t@.subrange(i + 1, hi as int));
        i += 1;
    }
    let mut j = hi;
    while j > i && is_whitespace(t[j - 1])
        invariant
            lo <= i <= j <= hi <= t.len(),
            trim_end(t@.subrange(i as int, hi as int)) == trim_end(t@.subrange(i as int, j as int)),
        decreases j - i,
    {
        assert(t@.subrange(i as int, j as int).drop_last() == t@.subrange(i as int, j - 1));
        j -= 1;
    }
    (i, j)
}

} // verus!
