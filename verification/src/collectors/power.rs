//! CPU package power from the `cpu_power` sampler of `powermetrics`.
//!
//! A reading is a line `CPU Power: 1234 mW` or
//! `Combined Power (CPU + GPU + ANE): 1234 mW`.  The library finds the
//! milliwatt figure and hands back its digits; turning them into watts is
//! left to the caller.

use vstd::prelude::*;
use crate::text::{
    chars_of, find_in, free_of, has_prefix_in, index_of, is_digit, is_ws, lemma_index_of_is,
    lemma_lines_cons, lemma_strip_prefix_of, lemma_trim_idempotent, lemma_trim_space_before, lemma_trim_unchanged, lines,
    next_line, opt_view, span_string, strip_prefix, trim, trim_in,
};

verus! {

/// A character of a milliwatt figure: an ASCII digit or `'.'`.
pub open spec fn is_number_char(c: char) -> bool {
    is_digit(c) || c == '.'
}

/// Length of the longest prefix of `s` made of number characters.
pub open spec fn number_prefix_len(s: Seq<char>) -> int
    decreases s.len(),
{
    if s.len() > 0 && is_number_char(s[0]) {
        1 + number_prefix_len(s.drop_first())
    } else {
        0
    }
}

/// The figure at the start of `s` once trimmed: its leading digits and
/// dots, or `None` when there are none.
pub open spec fn milliwatt_figure(s: Seq<char>) -> Option<Seq<char>> {
    let t = trim(s);
    let k = number_prefix_len(t);
    if k == 0 {
        None
    } else {
        Some(t.subrange(0, k))
    }
}

/// The figure of the first reading line in `ls`.  A trimmed line that
/// starts with `"CPU Power:"` is a reading of what follows the prefix; one
/// that starts with `"Combined Power"` and holds a `':'` is a reading of
/// what follows its first `':'`; other lines are skipped.
pub open spec fn reading_in(ls: Seq<Seq<char>>) -> Option<Seq<char>>
    decreases ls.len(),
{
    if ls.len() == 0 {
        None
    } else {
        let t = trim(ls[0]);
        match strip_prefix(t, "CPU Power:"@) {
            Some(rest) => milliwatt_figure(rest),
            None => if strip_prefix(t, "Combined Power"@) is Some && index_of(t, ':') < t.len() {
                milliwatt_figure(t.subrange(index_of(t, ':') + 1, t.len() as int))
            } else {
                reading_in(ls.drop_first())
            },
        }
    }
}

/// `number_prefix_len(s)` is `k` when the first `k` characters are number
/// characters and the one after them is not (or there is none).
proof fn lemma_number_prefix_len_is(s: Seq<char>, k: int)
    requires
        0 <= k <= s.len(),
        forall|j: int| 0 <= j < k ==> is_number_char(s[j]),
        k < s.len() ==> !is_number_char(s[k]),
    ensures
        number_prefix_len(s) == k,
    decreases s.len(),
{
    if s.len() > 0 && is_number_char(s[0]) {
        lemma_number_prefix_len_is(s.drop_first(), k - 1);
    }
}

/// The digits of the CPU power reading in `powermetrics` output, in
/// milliwatts.
pub fn parse_digits(out: &str) -> (r: Option<String>)
    ensures
        opt_view(r) == reading_in(lines(out@)),
{
    let t = chars_of(out);
    let cpu = chars_of("CPU Power:");
    let combined = chars_of("Combined Power");
    let n = t.len();
    let mut pos: usize = 0;
    assert(t@.subrange(0, n as int) == t@);
    while pos < n
        invariant
            n == t.len(),
            t@ == out@,
            cpu@ == "CPU Power:"@,
            combined@ == "Combined Power"@,
            pos <= n,
            reading_in(lines(out@)) == reading_in(lines(t@.subrange(pos as int, n as int))),
        decreases n - pos,
    {
        let (a, b, next) = next_line(&t, pos);
        let (ta, tb) = trim_in(&t, a, b);
        let ghost tl = t@.subrange(ta as int, tb as int);
        let ghost ls = lines(t@.subrange(pos as int, n as int));
        assert(ls[0] == t@.subrange(a as int, b as int));
        if has_prefix_in(&t, ta, tb, &cpu) {
            return figure_in(out, &t, ta + cpu.len(), tb);
        }
        if has_prefix_in(&t, ta, tb, &combined) {
            let c = find_in(&t, ta, tb, ':');
            if c < tb {
                assert(tl.subrange(c - ta + 1, tl.len() as int) == t@.subrange(c + 1, tb as int));
                return figure_in(out, &t, c + 1, tb);
            }
        }
        assert(ls.drop_first() == lines(t@.subrange(next as int, n as int)));
        pos = next;
    }
    assert(lines(t@.subrange(n as int, n as int)) == Seq::<Seq<char>>::empty());
    None
}

/// The milliwatt figure at the start of `t[lo..hi]`.
fn figure_in(out: &str, t: &Vec<char>, lo: usize, hi: usize) -> (r: Option<String>)
    requires
        t@ == out@,
        lo <= hi <= t.len(),
    ensures
        opt_view(r) == milliwatt_figure(t@.subrange(lo as int, hi as int)),
{
    let (a, b) = trim_in(t, lo, hi);
    let mut e = a;
    while e < b && (('0' <= t[e] && t[e] <= '9') || t[e] == '.')
        invariant
            a <= e <= b <= t.len(),
            forall|j: int| a <= j < e ==> is_number_char(t@[j]),
        decreases b - e,
    {
        e += 1;
    }
    let ghost s = t@.subrange(a as int, b as int);
    proof {
        lemma_number_prefix_len_is(s, e - a);
    }
    if e == a {
        None
    } else {
        assert(s.subrange(0, e - a) == t@.subrange(a as int, e as int));
        Some(span_string(out, t, a, e))
    }
}

/// A line that, trimmed, starts neither with `"CPU Power:"` nor with
/// `"Combined Power"` is no reading: the lines after it decide.
pub proof fn lemma_reading_skips_other_lines(l: Seq<char>, ls: Seq<Seq<char>>)
    requires
        strip_prefix(trim(l), "CPU Power:"@) is None,
        strip_prefix(trim(l), "Combined Power"@) is None,
    ensures
        reading_in(seq![l] + ls) == reading_in(ls),
{
    assert((seq![l] + ls)[0] == l);
    assert((seq![l] + ls).drop_first() == ls);
}

/// In the output text: a line (without line breaks) that, trimmed, starts
/// neither with `"CPU Power:"` nor with `"Combined Power"`, then a line
/// end, then more output, reads as the rest alone.
pub proof fn lemma_parse_digits_skips_other_line(l: Seq<char>, rest: Seq<char>)
    requires
        free_of(l, '\n'),
        free_of(l, '\r'),
        strip_prefix(trim(l), "CPU Power:"@) is None,
        strip_prefix(trim(l), "Combined Power"@) is None,
    ensures
        reading_in(lines(l + seq!['\n'] + rest)) == reading_in(lines(rest)),
{
    lemma_lines_cons(l, rest);
    lemma_reading_skips_other_lines(l, lines(rest));
}

/// A figure of digits and dots `d`, after one space and followed by
/// `" mW"`, is read as `d`.
proof fn lemma_figure_of(d: Seq<char>)
    requires
        d.len() > 0,
        forall|i: int| 0 <= i < d.len() ==> is_number_char(#[trigger] d[i]),
    ensures
        milliwatt_figure(seq![' '] + d + " mW"@) == Some(d),
{
    reveal_strlit(" mW");
    let x = d + " mW"@;
    assert(is_number_char(d[0]));
    assert(x[0] == d[0]);
    assert(x.last() == 'W');
    assert(seq![' '] + d + " mW"@ == seq![' '] + x);
    lemma_trim_space_before(x);
    assert forall|j: int| 0 <= j < d.len() implies is_number_char(x[j]) by {
        assert(x[j] == d[j]);
    }
    assert(x[d.len() as int] == ' ');
    lemma_number_prefix_len_is(x, d.len() as int);
    assert(x.subrange(0, d.len() as int) == d);
}

/// A line `"CPU Power: D mW"`, with `D` digits and dots, reads as `D`,
/// whatever lines follow.
pub proof fn lemma_cpu_power_line(d: Seq<char>, ls: Seq<Seq<char>>)
    requires
        d.len() > 0,
        forall|i: int| 0 <= i < d.len() ==> is_number_char(#[trigger] d[i]),
    ensures
        reading_in(seq!["CPU Power:"@ + seq![' '] + d + " mW"@] + ls) == Some(d),
{
    reveal_strlit("CPU Power:");
    reveal_strlit(" mW");
    let p = "CPU Power:"@;
    let l = p + seq![' '] + d + " mW"@;
    assert(l[0] == 'C');
    assert(l.last() == 'W');
    lemma_trim_unchanged(l);
    assert(l == p + (seq![' '] + d + " mW"@));
    lemma_strip_prefix_of(p, seq![' '] + d + " mW"@);
    lemma_figure_of(d);
    assert((seq![l] + ls)[0] == l);
}

/// A line `"Combined Power (CPU + GPU + ANE): D mW"`, with `D` digits and
/// dots, reads as `D`, whatever lines follow.
pub proof fn lemma_combined_power_line(d: Seq<char>, ls: Seq<Seq<char>>)
    requires
        d.len() > 0,
        forall|i: int| 0 <= i < d.len() ==> is_number_char(#[trigger] d[i]),
    ensures
        reading_in(seq!["Combined Power (CPU + GPU + ANE):"@ + seq![' '] + d + " mW"@] + ls) == Some(d),
{
    reveal_strlit("Combined Power (CPU + GPU + ANE):");
    reveal_strlit("Combined Power");
    reveal_strlit("CPU Power:");
    reveal_strlit(" mW");
    let c = "Combined Power (CPU + GPU + ANE):"@;
    let tail = seq![' '] + d + " mW"@;
    let l = c + tail;
    assert(l == c + seq![' '] + d + " mW"@);
    assert(l[0] == 'C');
    assert(l.last() == 'W');
    lemma_trim_unchanged(l);
    assert(l[1] == 'o');
    assert(l.subrange(0, 10) != "CPU Power:"@) by {
        assert(l.subrange(0, 10)[1] == 'o');
    }
    assert(l == "Combined Power"@ + (c.subrange(14, 33) + tail));
    lemma_strip_prefix_of("Combined Power"@, c.subrange(14, 33) + tail);
    assert forall|j: int| 0 <= j < 32 implies l[j] != ':' by {
        assert(l[j] == c[j]);
    }
    assert(l[32] == ':');
    lemma_index_of_is(l, ':', 32);
    assert(l.subrange(33, l.len() as int) == tail);
    lemma_figure_of(d);
    assert((seq![l] + ls)[0] == l);
}

/// Whitespace around a line does not change the reading.
pub proof fn lemma_reading_line_trimmed(l: Seq<char>, ls: Seq<Seq<char>>)
    ensures
        reading_in(seq![l] + ls) == reading_in(seq![trim(l)] + ls),
{
    lemma_trim_idempotent(l);
    assert((seq![l] + ls)[0] == l);
    assert((seq![trim(l)] + ls)[0] == trim(l));
    assert((seq![l] + ls).drop_first() == ls);
    assert((seq![trim(l)] + ls).drop_first() == ls);
}

/// The first line that, trimmed, starts with `"CPU Power:"` decides: the
/// lines after it do not matter, even when it holds no figure.
pub proof fn lemma_first_cpu_power_line_decides(l: Seq<char>, ls1: Seq<Seq<char>>, ls2: Seq<Seq<char>>)
    requires
        strip_prefix(trim(l), "CPU Power:"@) is Some,
    ensures
        reading_in(seq![l] + ls1) == reading_in(seq![l] + ls2),
{
    assert((seq![l] + ls1)[0] == l);
    assert((seq![l] + ls2)[0] == l);
}

} // verus!
