//! Per-interface byte counters from `netstat -ibn`.
//!
//! Columns of `netstat -ibn`:
//! `Name Mtu Network Address Ipkts Ierrs Ibytes Opkts Oerrs Obytes Coll`
//! (0 to 10).  An interface appears once per address family; the first row
//! of each name is kept, and loopback (`lo0`) is skipped.

use vstd::prelude::*;
use crate::snapshot::IfaceCounters;
use crate::text::{
    chars_of, equals_in, free_of, lemma_lines_cons, lines, next_line, parse_u64, parse_u64_in,
    same_span, span_string, words, words_in,
};

verus! {

/// The rows that the lines `ls` yield when the names in `seen` have
/// already been met.  A line yields a row when it has at least 11 words,
/// its first word (the name) is neither `"lo0"` nor already met, and its
/// 7th and 10th words read as `u64` (received and sent bytes).  A line with
/// a new name marks the name as met even when its numbers do not read.
pub open spec fn iface_rows(ls: Seq<Seq<char>>, seen: Set<Seq<char>>) -> Seq<(Seq<char>, u64, u64)>
    decreases ls.len(),
{
    if ls.len() == 0 {
        seq![]
    } else {
        let f = words(ls[0]);
        if f.len() < 11 || f[0] == "lo0"@ || seen.contains(f[0]) {
            iface_rows(ls.drop_first(), seen)
        } else {
            let rest = iface_rows(ls.drop_first(), seen.insert(f[0]));
            match (parse_u64(f[6]), parse_u64(f[9])) {
                (Some(rx), Some(tx)) => seq![(f[0], rx, tx)] + rest,
                _ => rest,
            }
        }
    }
}

/// The interface rows of `netstat -ibn` output: those of every line after
/// the header.
pub open spec fn interfaces_in(out: Seq<char>) -> Seq<(Seq<char>, u64, u64)> {
    let ls = lines(out);
    if ls.len() == 0 {
        seq![]
    } else {
        iface_rows(ls.drop_first(), Set::empty())
    }
}

/// No row of `iface_rows(ls, seen)` is named `"lo0"` or after a name in
/// `seen`, and no two rows share a name.
pub proof fn lemma_iface_rows_names(ls: Seq<Seq<char>>, seen: Set<Seq<char>>)
    ensures
        forall|i: int|
            0 <= i < iface_rows(ls, seen).len() ==> !seen.contains(#[trigger] iface_rows(ls, seen)[i].0)
                && iface_rows(ls, seen)[i].0 != "lo0"@,
        forall|i: int, j: int|
            0 <= i < j < iface_rows(ls, seen).len() ==> #[trigger] iface_rows(ls, seen)[i].0
                != #[trigger] iface_rows(ls, seen)[j].0,
    decreases ls.len(),
{
    if ls.len() > 0 {
        let f = words(ls[0]);
        if f.len() < 11 || f[0] == "lo0"@ || seen.contains(f[0]) {
            lemma_iface_rows_names(ls.drop_first(), seen);
            assert(iface_rows(ls, seen) == iface_rows(ls.drop_first(), seen));
        } else {
            let seen2 = seen.insert(f[0]);
            let rest = iface_rows(ls.drop_first(), seen2);
            lemma_iface_rows_names(ls.drop_first(), seen2);
            let r = iface_rows(ls, seen);
            assert forall|i: int| 0 <= i < rest.len() implies !seen2.contains(#[trigger] rest[i].0) by {}
            if r.len() != rest.len() {
                assert(r == seq![(f[0], parse_u64(f[6])->0, parse_u64(f[9])->0)] + rest);
                assert forall|i: int| 0 < i < r.len() implies r[i] == rest[i - 1] by {}
                assert forall|i: int| 0 <= i < r.len() implies !seen.contains(#[trigger] r[i].0)
                    && r[i].0 != "lo0"@ by {
                    if i > 0 {
                        assert(!seen2.contains(rest[i - 1].0));
                    }
                }
                assert forall|i: int, j: int| 0 <= i < j < r.len() implies #[trigger] r[i].0
                    != #[trigger] r[j].0 by {
                    assert(!seen2.contains(rest[j - 1].0));
                    if i > 0 {
                        assert(rest[i - 1].0 != rest[j - 1].0);
                    }
                }
            } else {
                assert(r == rest);
                assert forall|i: int| 0 <= i < r.len() implies !seen.contains(#[trigger] r[i].0)
                    && r[i].0 != "lo0"@ by {
                    assert(!seen2.contains(rest[i].0));
                }
            }
        }
    }
}

/// The rows of `netstat -ibn` output, in order: one per interface other than
/// loopback, from the first row that names it.
pub fn parse(out: &str) -> (r: Vec<IfaceCounters>)
    ensures
        r@.map_values(|i: IfaceCounters| i@) == interfaces_in(out@),
        forall|i: int| 0 <= i < r@.len() ==> (#[trigger] r@[i]).name@ != "lo0"@,
        forall|i: int, j: int| 0 <= i < j < r@.len() ==> (#[trigger] r@[i]).name@ != (#[trigger] r@[j]).name@,
{
    let t = chars_of(out);
    let lo0 = chars_of("lo0");
    let n = t.len();
    let mut result: Vec<IfaceCounters> = Vec::new();
    assert(t@.subrange(0, n as int) == t@);
    if n == 0 {
        assert(lines(out@) == Seq::<Seq<char>>::empty());
        return result;
    }
    let (_, _, first) = next_line(&t, 0);
    assert(lines(out@).drop_first() == lines(t@.subrange(first as int, n as int)));
    assert(result@.map_values(|i: IfaceCounters| i@) == Seq::<(Seq<char>, u64, u64)>::empty());
    let mut pos = first;
    let mut seen: Vec<(usize, usize)> = Vec::new();
    let ghost mut seen_set: Set<Seq<char>> = Set::empty();
    while pos < n
        invariant
            n == t.len(),
            t@ == out@,
            lo0@ == "lo0"@,
            pos <= n,
            result@.map_values(|i: IfaceCounters| i@) + iface_rows(
                lines(t@.subrange(pos as int, n as int)),
                seen_set,
            ) == interfaces_in(out@),
            forall|k: int| 0 <= k < seen@.len() ==> (#[trigger] seen@[k]).0 <= seen@[k].1 <= n,
            forall|x: Seq<char>|
                seen_set.contains(x) <==> exists|k: int|
                    0 <= k < seen@.len() && t@.subrange(
                        (#[trigger] seen@[k]).0 as int,
                        seen@[k].1 as int,
                    ) == x,
        decreases n - pos,
    {
        let (a, b, next) = next_line(&t, pos);
        let ghost ls = lines(t@.subrange(pos as int, n as int));
        assert(ls[0] == t@.subrange(a as int, b as int));
        assert(ls.drop_first() == lines(t@.subrange(next as int, n as int)));
        let ghost before = result@.map_values(|i: IfaceCounters| i@);
        let f = words_in(&t, a, b);
        if f.len() >= 11 {
            let (na, nb) = f[0];
            let ghost name = t@.subrange(na as int, nb as int);
            if !equals_in(&t, na, nb, &lo0) && !seen_has(&t, &seen, na, nb) {
                assert(!seen_set.contains(name));
                let ghost old_seen = seen@;
                seen.push((na, nb));
                proof {
                    seen_set = seen_set.insert(name);
                    assert forall|x: Seq<char>|
                        seen_set.contains(x) implies exists|k: int|
                            0 <= k < seen@.len() && t@.subrange(
                                (#[trigger] seen@[k]).0 as int,
                                seen@[k].1 as int,
                            ) == x by {
                        if x == name {
                            assert(seen@[seen@.len() - 1] == (na, nb));
                        } else {
                            let k = choose|k: int|
                                0 <= k < old_seen.len() && t@.subrange(
                                    (#[trigger] old_seen[k]).0 as int,
                                    old_seen[k].1 as int,
                                ) == x;
                            assert(seen@[k] == old_seen[k]);
                        }
                    }
                }
                let rx = parse_u64_in(&t, f[6].0, f[6].1);
                let tx = parse_u64_in(&t, f[9].0, f[9].1);
                if let (Some(rx), Some(tx)) = (rx, tx) {
                    result.push(IfaceCounters { name: span_string(out, &t, na, nb), rx_bytes: rx, tx_bytes: tx });
                    assert(result@.map_values(|i: IfaceCounters| i@) == before + seq![(name, rx, tx)]);
                }
            }
        }
        pos = next;
    }
    assert(lines(t@.subrange(n as int, n as int)) == Seq::<Seq<char>>::empty());
    assert(result@.map_values(|i: IfaceCounters| i@) == interfaces_in(out@));
    proof {
        assert(interfaces_in(out@) == iface_rows(lines(out@).drop_first(), Set::empty()));
        lemma_iface_rows_names(lines(out@).drop_first(), Set::empty());
        let rows = iface_rows(lines(out@).drop_first(), Set::empty());
        assert forall|i: int| 0 <= i < result@.len() implies (#[trigger] result@[i]).name@ != "lo0"@ by {
            assert(result@.map_values(|i: IfaceCounters| i@)[i] == result@[i]@);
            assert(rows[i].0 != "lo0"@);
        }
        assert forall|i: int, j: int| 0 <= i < j < result@.len() implies (#[trigger] result@[i]).name@
            != (#[trigger] result@[j]).name@ by {
            assert(result@.map_values(|i: IfaceCounters| i@)[i] == result@[i]@);
            assert(result@.map_values(|i: IfaceCounters| i@)[j] == result@[j]@);
            assert(rows[i].0 != rows[j].0);
        }
    }
    result
}

/// Whether one of the spans in `seen` holds the same characters as `a..b`.
fn seen_has(t: &Vec<char>, seen: &Vec<(usize, usize)>, a: usize, b: usize) -> (r: bool)
    requires
        a <= b <= t.len(),
        forall|k: int| 0 <= k < seen@.len() ==> (#[trigger] seen@[k]).0 <= seen@[k].1 <= t.len(),
    ensures
        r == exists|k: int|
            0 <= k < seen@.len() && t@.subrange((#[trigger] seen@[k]).0 as int, seen@[k].1 as int)
                == t@.subrange(a as int, b as int),
{
    let mut k: usize = 0;
    while k < seen.len()
        invariant
            a <= b <= t.len(),
            forall|k: int| 0 <= k < seen@.len() ==> (#[trigger] seen@[k]).0 <= seen@[k].1 <= t.len(),
            0 <= k <= seen.len(),
            forall|j: int|
                0 <= j < k ==> t@.subrange((#[trigger] seen@[j]).0 as int, seen@[j].1 as int)
                    != t@.subrange(a as int, b as int),
        decreases seen.len() - k,
    {
        let (c, d) = seen[k];
        if same_span(t, c, d, a, b) {
            return true;
        }
        k += 1;
    }
    false
}

/// A line with fewer than 11 words yields no row and does not mark its
/// name as met: the lines after it give the same rows as without it.
pub proof fn lemma_short_line_skipped(l: Seq<char>, ls: Seq<Seq<char>>, seen: Set<Seq<char>>)
    requires
        words(l).len() < 11,
    ensures
        iface_rows(seq![l] + ls, seen) == iface_rows(ls, seen),
{
    assert((seq![l] + ls)[0] == l);
    assert((seq![l] + ls).drop_first() == ls);
}

/// A line whose name was already met (or is `"lo0"`) yields no row.
pub proof fn lemma_repeated_name_skipped(l: Seq<char>, ls: Seq<Seq<char>>, seen: Set<Seq<char>>)
    requires
        words(l).len() > 0,
        seen.contains(words(l)[0]) || words(l)[0] == "lo0"@,
    ensures
        iface_rows(seq![l] + ls, seen) == iface_rows(ls, seen),
{
    assert((seq![l] + ls)[0] == l);
    assert((seq![l] + ls).drop_first() == ls);
}

/// A line of at least 11 words with a new name other than `"lo0"`, whose
/// 7th and 10th words (`Ibytes`, `Obytes`) read as `rx` and `tx`, yields
/// the row `(name, rx, tx)` first, and the name counts as met for the
/// lines after it.
pub proof fn lemma_full_line_row(l: Seq<char>, ls: Seq<Seq<char>>, seen: Set<Seq<char>>, rx: u64, tx: u64)
    requires
        words(l).len() >= 11,
        words(l)[0] != "lo0"@,
        !seen.contains(words(l)[0]),
        parse_u64(words(l)[6]) == Some(rx),
        parse_u64(words(l)[9]) == Some(tx),
    ensures
        iface_rows(seq![l] + ls, seen) == seq![(words(l)[0], rx, tx)] + iface_rows(
            ls,
            seen.insert(words(l)[0]),
        ),
{
    assert((seq![l] + ls)[0] == l);
    assert((seq![l] + ls).drop_first() == ls);
}

/// In the output text: a header, then a line of fewer than 11 words, then
/// more rows read as the header and the rows alone.  (On macOS the
/// `<Link#>` row of a tunnel has an empty address column and 10 words; the
/// interface is then read from its next row.)
pub proof fn lemma_short_row_ignored(h: Seq<char>, l: Seq<char>, rest: Seq<char>)
    requires
        free_of(h, '\n'),
        free_of(h, '\r'),
        free_of(l, '\n'),
        free_of(l, '\r'),
        words(l).len() < 11,
    ensures
        interfaces_in(h + seq!['\n'] + l + seq!['\n'] + rest) == interfaces_in(h + seq!['\n'] + rest),
{
    let tail = l + seq!['\n'] + rest;
    assert(h + seq!['\n'] + l + seq!['\n'] + rest == h + seq!['\n'] + tail);
    lemma_lines_cons(h, tail);
    lemma_lines_cons(l, rest);
    lemma_lines_cons(h, rest);
    assert((seq![h] + lines(tail)).drop_first() == lines(tail));
    assert((seq![h] + lines(rest)).drop_first() == lines(rest));
    lemma_short_line_skipped(l, lines(rest), Set::empty());
}

/// A line of at least 11 words with a new name other than `"lo0"` whose
/// 7th or 10th word does not read as a `u64` yields no row, yet its name
/// counts as met: a later line of that name yields nothing either.
pub proof fn lemma_unreadable_line_marks_name(l: Seq<char>, ls: Seq<Seq<char>>, seen: Set<Seq<char>>)
    requires
        words(l).len() >= 11,
        words(l)[0] != "lo0"@,
        !seen.contains(words(l)[0]),
        parse_u64(words(l)[6]) is None || parse_u64(words(l)[9]) is None,
    ensures
        iface_rows(seq![l] + ls, seen) == iface_rows(ls, seen.insert(words(l)[0])),
{
    assert((seq![l] + ls)[0] == l);
    assert((seq![l] + ls).drop_first() == ls);
}

/// The first line of the output is a header and yields no row, whatever it
/// holds.
pub proof fn lemma_header_skipped(h: Seq<char>, rest: Seq<char>)
    requires
        free_of(h, '\n'),
        free_of(h, '\r'),
    ensures
        interfaces_in(h + seq!['\n'] + rest) == iface_rows(lines(rest), Set::empty()),
{
    lemma_lines_cons(h, rest);
    assert((seq![h] + lines(rest)).drop_first() == lines(rest));
}

} // verus!
