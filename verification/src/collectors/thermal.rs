//! Thermal pressure level from the `thermal` sampler of `powermetrics`.
//!
//! The level is a category, reported as a small integer:
//! 0 Nominal, 1 Fair, 2 Serious, 3 Critical.

use vstd::prelude::*;
use crate::text::{
    chars_of, equals_in, free_of, has_prefix_in, is_ws, lemma_lines_cons, lemma_strip_prefix_of, lemma_trim_idempotent,
    lemma_trim_space_before, lemma_trim_unchanged, lines, next_line, strip_prefix, trim, trim_in,
};

verus! {

/// The level number of a pressure level name.
pub open spec fn level_of(name: Seq<char>) -> Option<u8> {
    if name == "Nominal"@ {
        Some(0)
    } else if name == "Fair"@ {
        Some(1)
    } else if name == "Serious"@ {
        Some(2)
    } else if name == "Critical"@ {
        Some(3)
    } else {
        None
    }
}

/// The level reported by the first line of `ls` that, trimmed, starts with
/// `"Current pressure level:"`; `None` when that line names no known level
/// or no line has the prefix.
pub open spec fn pressure_in(ls: Seq<Seq<char>>) -> Option<u8>
    decreases ls.len(),
{
    if ls.len() == 0 {
        None
    } else {
        match strip_prefix(trim(ls[0]), "Current pressure level:"@) {
            Some(rest) => level_of(trim(rest)),
            None => pressure_in(ls.drop_first()),
        }
    }
}

/// The thermal pressure level reported in `powermetrics` output.
pub fn parse(out: &str) -> (r: Option<u8>)
    ensures
        r == pressure_in(lines(out@)),
        r matches Some(k) ==> k <= 3,
{
    let t = chars_of(out);
    let prefix = chars_of("Current pressure level:");
    let n = t.len();
    let mut pos: usize = 0;
    assert(t@.subrange(0, n as int) == t@);
    while pos < n
        invariant
            n == t.len(),
            t@ == out@,
            prefix@ == "Current pressure level:"@,
            pos <= n,
            pressure_in(lines(out@)) == pressure_in(lines(t@.subrange(pos as int, n as int))),
        decreases n - pos,
    {
        let (a, b, next) = next_line(&t, pos);
        let (ta, tb) = trim_in(&t, a, b);
        if has_prefix_in(&t, ta, tb, &prefix) {
            let (ra, rb) = trim_in(&t, ta + prefix.len(), tb);
            return level_in(&t, ra, rb);
        }
        let ghost ls = lines(t@.subrange(pos as int, n as int));
        assert(ls[0] == t@.subrange(a as int, b as int));
        assert(ls.drop_first() == lines(t@.subrange(next as int, n as int)));
        pos = next;
    }
    assert(lines(t@.subrange(n as int, n as int)) == Seq::<Seq<char>>::empty());
    None
}

/// The level number of the level name `t[lo..hi]`.
fn level_in(t: &Vec<char>, lo: usize, hi: usize) -> (r: Option<u8>)
    requires
        lo <= hi <= t.len(),
    ensures
        r == level_of(t@.subrange(lo as int, hi as int)),
        r matches Some(k) ==> k <= 3,
{
    if equals_in(t, lo, hi, &chars_of("Nominal")) {
        Some(0)
    } else if equals_in(t, lo, hi, &chars_of("Fair")) {
        Some(1)
    } else if equals_in(t, lo, hi, &chars_of("Serious")) {
        Some(2)
    } else if equals_in(t, lo, hi, &chars_of("Critical")) {
        Some(3)
    } else {
        None
    }
}

/// A line that, trimmed, does not start with `"Current pressure level:"`
/// does not change the level read: the lines after it decide.
pub proof fn lemma_pressure_skips_other_lines(l: Seq<char>, ls: Seq<Seq<char>>)
    requires
        strip_prefix(trim(l), "Current pressure level:"@) is None,
    ensures
        pressure_in(seq![l] + ls) == pressure_in(ls),
{
    assert((seq![l] + ls)[0] == l);
    assert((seq![l] + ls).drop_first() == ls);
}

/// In the output text: a line (without line breaks) that, trimmed, does not
/// start with `"Current pressure level:"`, then a line end, then more output,
/// reads as the rest alone.
pub proof fn lemma_parse_skips_other_line(l: Seq<char>, rest: Seq<char>)
    requires
        free_of(l, '\n'),
        free_of(l, '\r'),
        strip_prefix(trim(l), "Current pressure level:"@) is None,
    ensures
        pressure_in(lines(l + seq!['\n'] + rest)) == pressure_in(lines(rest)),
{
    lemma_lines_cons(l, rest);
    lemma_pressure_skips_other_lines(l, lines(rest));
}

/// The first line `"Current pressure level: "` followed by `name` reads as
/// the level `name` names.
proof fn lemma_level_line(name: Seq<char>, ls: Seq<Seq<char>>)
    requires
        name.len() > 0,
        !is_ws(name[0]),
        !is_ws(name.last()),
    ensures
        pressure_in(seq!["Current pressure level:"@ + seq![' '] + name] + ls) == level_of(name),
{
    reveal_strlit("Current pressure level:");
    let p = "Current pressure level:"@;
    let l = p + seq![' '] + name;
    assert(l[0] == 'C');
    assert(l.last() == name.last());
    lemma_trim_unchanged(l);
    assert(l == p + (seq![' '] + name));
    lemma_strip_prefix_of(p, seq![' '] + name);
    lemma_trim_space_before(name);
    assert((seq![l] + ls)[0] == l);
}

/// A pressure level line reads as its level: `Nominal` 0, `Fair` 1,
/// `Serious` 2, `Critical` 3, whatever lines follow.
pub proof fn lemma_pressure_levels(ls: Seq<Seq<char>>)
    ensures
        pressure_in(seq!["Current pressure level: Nominal"@] + ls) == Some(0u8),
        pressure_in(seq!["Current pressure level: Fair"@] + ls) == Some(1u8),
        pressure_in(seq!["Current pressure level: Serious"@] + ls) == Some(2u8),
        pressure_in(seq!["Current pressure level: Critical"@] + ls) == Some(3u8),
{
    reveal_strlit("Current pressure level:");
    reveal_strlit("Current pressure level: Nominal");
    reveal_strlit("Current pressure level: Fair");
    reveal_strlit("Current pressure level: Serious");
    reveal_strlit("Current pressure level: Critical");
    reveal_strlit("Nominal");
    reveal_strlit("Fair");
    reveal_strlit("Serious");
    reveal_strlit("Critical");
    let p = "Current pressure level:"@;
    assert("Current pressure level: Nominal"@ == p + seq![' '] + "Nominal"@);
    assert("Current pressure level: Fair"@ == p + seq![' '] + "Fair"@);
    assert("Current pressure level: Serious"@ == p + seq![' '] + "Serious"@);
    assert("Current pressure level: Critical"@ == p + seq![' '] + "Critical"@);
    lemma_level_line("Nominal"@, ls);
    lemma_level_line("Fair"@, ls);
    lemma_level_line("Serious"@, ls);
    lemma_level_line("Critical"@, ls);
}

/// Whitespace around a line does not change the level read.
pub proof fn lemma_pressure_line_trimmed(l: Seq<char>, ls: Seq<Seq<char>>)
    ensures
        pressure_in(seq![l] + ls) == pressure_in(seq![trim(l)] + ls),
{
    lemma_trim_idempotent(l);
    assert((seq![l] + ls)[0] == l);
    assert((seq![trim(l)] + ls)[0] == trim(l));
    assert((seq![l] + ls).drop_first() == ls);
    assert((seq![trim(l)] + ls).drop_first() == ls);
}

/// The first line that, trimmed, starts with `"Current pressure level:"`
/// decides: the lines after it do not matter, even when it names no known
/// level.
pub proof fn lemma_first_level_line_decides(l: Seq<char>, ls1: Seq<Seq<char>>, ls2: Seq<Seq<char>>)
    requires
        strip_prefix(trim(l), "Current pressure level:"@) is Some,
    ensures
        pressure_in(seq![l] + ls1) == pressure_in(seq![l] + ls2),
{
    assert((seq![l] + ls1)[0] == l);
    assert((seq![l] + ls2)[0] == l);
}

} // verus!
