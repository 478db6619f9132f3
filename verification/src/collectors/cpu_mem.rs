//! CPU usage and memory in use, both read from one `top -l 1 -n 0`.
//!
//! `top`'s CPU line looks like `CPU usage: 5.55% user, 4.44% sys, 89.99% idle`
//! and its memory line like
//! `PhysMem: 15G used (4801M wired, 5292M compressor), 91M unused.`
//! Memory in use is `wired + compressor`: `top`'s headline `used` figure
//! also counts reclaimable file-backed cache.

use vstd::prelude::*;
use crate::text::{
    free_of, is_ws, lemma_split_cons, lemma_split_none, lemma_strip_prefix_of, lemma_strip_suffix_not,
    lemma_strip_suffix_of, lemma_trim_space_before, lemma_trim_unchanged,
    chars_of, find_in, has_prefix_in, has_suffix_in, index_of, lemma_index_of_bounds, lemma_index_of_is, lines,
    next_line, opt_view, span_string, split_in, split_on, strip_prefix, strip_suffix, trim, trim_in,
};

verus! {

/// The user and system figures met so far on the CPU line.
pub type UsageTexts = (Option<Seq<char>>, Option<Seq<char>>);

/// One comma-separated part of the CPU line: once trimmed, a part ending in
/// `"% user"` sets the user figure and one ending in `"% sys"` the system
/// figure, each to the trimmed text before the suffix.
pub open spec fn usage_step(acc: UsageTexts, part: Seq<char>) -> UsageTexts {
    let p = trim(part);
    match strip_suffix(p, "% user"@) {
        Some(n) => (Some(trim(n)), acc.1),
        None => match strip_suffix(p, "% sys"@) {
            Some(n) => (acc.0, Some(trim(n))),
            None => acc,
        },
    }
}

/// `usage_step` over the parts in order; a later part overrides an earlier.
pub open spec fn usage_fold(parts: Seq<Seq<char>>, acc: UsageTexts) -> UsageTexts
    decreases parts.len(),
{
    if parts.len() == 0 {
        acc
    } else {
        usage_fold(parts.drop_first(), usage_step(acc, parts[0]))
    }
}

/// The user and system figures of the first line of `ls` that starts with
/// `"CPU usage: "`, or `None` when no line does.
pub open spec fn usage_in(ls: Seq<Seq<char>>) -> Option<UsageTexts>
    decreases ls.len(),
{
    if ls.len() == 0 {
        None
    } else {
        match strip_prefix(ls[0], "CPU usage: "@) {
            Some(rest) => Some(usage_fold(split_on(rest, ','), (None, None))),
            None => usage_in(ls.drop_first()),
        }
    }
}

/// Why a `PhysMem:` line cannot be read.
#[derive(Debug, Clone, Copy, PartialEq, Eq)]
pub enum PhysMemError {
    /// The first `')'` comes before the first `'('`.
    ParenOrder,
    /// A wired or compressor size ends in a character of more than one byte,
    /// so its unit cannot be split off.
    UnsplittableSize,
}

/// A size split into the text of its number and the bytes per unit; the
/// caller reads the number.
#[derive(Debug, Clone, PartialEq)]
pub struct SizeText {
    pub number: String,
    pub unit_bytes: u64,
}

impl View for SizeText {
    type V = (Seq<char>, u64);

    open spec fn view(&self) -> (Seq<char>, u64) {
        (self.number@, self.unit_bytes)
    }
}

/// A split size, as text and bytes per unit.
pub type SizeParts = (Seq<char>, u64);

/// The wired and compressor sizes met so far.
pub type MemorySizes = (Option<SizeParts>, Option<SizeParts>);

/// One comma-separated part of the parenthesised list: once trimmed, a
/// part ending in `" wired"` sets the wired size and one ending in
/// `" compressor"` the compressor size, each to `size_split` of the text
/// before the suffix.
pub open spec fn memory_step(acc: MemorySizes, part: Seq<char>) -> MemorySizes {
    let p = trim(part);
    match strip_suffix(p, " wired"@) {
        Some(n) => (size_split(n), acc.1),
        None => match strip_suffix(p, " compressor"@) {
            Some(n) => (acc.0, size_split(n)),
            None => acc,
        },
    }
}

/// `memory_step` over the parts in order; a later part overrides an earlier.
pub open spec fn memory_fold(parts: Seq<Seq<char>>, acc: MemorySizes) -> MemorySizes
    decreases parts.len(),
{
    if parts.len() == 0 {
        acc
    } else {
        memory_fold(parts.drop_first(), memory_step(acc, parts[0]))
    }
}

/// The size in a wired or compressor part can have its unit split off.
pub open spec fn part_splittable(part: Seq<char>) -> bool {
    let p = trim(part);
    match strip_suffix(p, " wired"@) {
        Some(n) => size_splittable(n),
        None => match strip_suffix(p, " compressor"@) {
            Some(n) => size_splittable(n),
            None => true,
        },
    }
}

/// What the comma-separated list between the parentheses of a `PhysMem:`
/// line gives: its parts are read with `memory_step`, and the result is
/// the wired and compressor sizes when both were found.
pub open spec fn list_outcome(list: Seq<char>) -> Result<Option<(SizeParts, SizeParts)>, PhysMemError> {
    let parts = split_on(list, ',');
    if exists|i: int| 0 <= i < parts.len() && !part_splittable(#[trigger] parts[i]) {
        Err(PhysMemError::UnsplittableSize)
    } else {
        match memory_fold(parts, (None, None)) {
            (Some(w), Some(c)) => Ok(Some((w, c))),
            _ => Ok(None),
        }
    }
}

/// What the text after `"PhysMem:"` gives.  Without a `'('` or a `')'`
/// there is no figure.  Otherwise the list between the first `'('` and the
/// first `')'` is read with `list_outcome`; memory in use is the sum of the
/// two sizes it gives.
pub open spec fn physmem_outcome(rest: Seq<char>) -> Result<Option<(SizeParts, SizeParts)>, PhysMemError> {
    let open = index_of(rest, '(');
    let close = index_of(rest, ')');
    if open >= rest.len() || close >= rest.len() {
        Ok(None)
    } else if close < open {
        Err(PhysMemError::ParenOrder)
    } else {
        list_outcome(rest.subrange(open + 1, close))
    }
}

/// Memory in use depends on nothing in the `PhysMem:` line but the list
/// between its parentheses: whatever stands before the `'('` (without
/// parentheses) and after the `')'`, such as `top`'s headline `used` and
/// `unused` figures, the outcome is that of the list.
pub proof fn lemma_memory_reads_only_the_list(before: Seq<char>, list: Seq<char>, after: Seq<char>)
    requires
        forall|i: int| 0 <= i < before.len() ==> before[i] != '(' && before[i] != ')',
        forall|i: int| 0 <= i < list.len() ==> list[i] != ')',
    ensures
        physmem_outcome(before + seq!['('] + list + seq![')'] + after) == list_outcome(list),
{
    let rest = before + seq!['('] + list + seq![')'] + after;
    let open = before.len() as int;
    let close: int = open + 1 + list.len();
    assert(rest[open] == '(');
    assert(rest[close] == ')');
    assert forall|j: int| 0 <= j < open implies rest[j] != '(' by {
        assert(rest[j] == before[j]);
    }
    assert forall|j: int| 0 <= j < close implies rest[j] != ')' by {
        if j < open {
            assert(rest[j] == before[j]);
        } else if j > open {
            assert(rest[j] == list[j - open - 1]);
        }
    }
    lemma_index_of_is(rest, '(', open);
    lemma_index_of_is(rest, ')', close);
    assert(rest.subrange(open + 1, close) == list);
}

/// What the first line of `ls` that starts with `"PhysMem:"` gives, or
/// `Ok(None)` when no line does.
pub open spec fn memory_outcome(ls: Seq<Seq<char>>) -> Result<Option<(SizeParts, SizeParts)>, PhysMemError>
    decreases ls.len(),
{
    if ls.len() == 0 {
        Ok(None)
    } else {
        match strip_prefix(ls[0], "PhysMem:"@) {
            Some(rest) => physmem_outcome(rest),
            None => memory_outcome(ls.drop_first()),
        }
    }
}

/// The optional user and system figures as text.
pub open spec fn usage_view(r: Option<(Option<String>, Option<String>)>) -> Option<UsageTexts> {
    match r {
        Some((u, s)) => Some((opt_view(u), opt_view(s))),
        None => None,
    }
}

/// The user and system percentages of `top`'s CPU line, as the text of each
/// figure; the caller reads them as numbers.
pub fn cpu_usage_fields(out: &str) -> (r: Option<(Option<String>, Option<String>)>)
    ensures
        usage_view(r) == usage_in(lines(out@)),
{
    let t = chars_of(out);
    let prefix = chars_of("CPU usage: ");
    let n = t.len();
    let mut pos: usize = 0;
    assert(t@.subrange(0, n as int) == t@);
    while pos < n
        invariant
            n == t.len(),
            t@ == out@,
            prefix@ == "CPU usage: "@,
            pos <= n,
            usage_in(lines(out@)) == usage_in(lines(t@.subrange(pos as int, n as int))),
        decreases n - pos,
    {
        let (a, b, next) = next_line(&t, pos);
        let ghost ls = lines(t@.subrange(pos as int, n as int));
        assert(ls[0] == t@.subrange(a as int, b as int));
        if has_prefix_in(&t, a, b, &prefix) {
            let (u, s) = usage_fields_in(&t, a + prefix.len(), b);
            let us = match u {
                Some((x, y)) => Some(span_string(out, &t, x, y)),
                None => None,
            };
            let ss = match s {
                Some((x, y)) => Some(span_string(out, &t, x, y)),
                None => None,
            };
            return Some((us, ss));
        }
        assert(ls.drop_first() == lines(t@.subrange(next as int, n as int)));
        pos = next;
    }
    assert(lines(t@.subrange(n as int, n as int)) == Seq::<Seq<char>>::empty());
    None
}

/// The text of an optional span of `t`.
pub open spec fn span_view(t: Seq<char>, o: Option<(usize, usize)>) -> Option<Seq<char>> {
    match o {
        Some((a, b)) => Some(t.subrange(a as int, b as int)),
        None => None,
    }
}

/// The spans of the user and system figures in the CPU line text `t[lo..hi]`.
fn usage_fields_in(t: &Vec<char>, lo: usize, hi: usize) -> (r: (Option<(usize, usize)>, Option<(usize, usize)>))
    requires
        lo <= hi <= t.len(),
    ensures
        (span_view(t@, r.0), span_view(t@, r.1)) == usage_fold(
            split_on(t@.subrange(lo as int, hi as int), ','),
            (None, None),
        ),
        r.0 matches Some(p) ==> p.0 <= p.1 <= t.len(),
        r.1 matches Some(p) ==> p.0 <= p.1 <= t.len(),
{
    let user = chars_of("% user");
    let sys = chars_of("% sys");
    let parts = split_in(t, lo, hi, ',');
    let ghost all = split_on(t@.subrange(lo as int, hi as int), ',');
    let mut u: Option<(usize, usize)> = None;
    let mut s: Option<(usize, usize)> = None;
    let mut k: usize = 0;
    assert(all.subrange(0, all.len() as int) == all);
    while k < parts.len()
        invariant
            lo <= hi <= t.len(),
            user@ == "% user"@,
            sys@ == "% sys"@,
            parts@.len() == all.len(),
            forall|i: int|
                0 <= i < parts@.len() ==> lo <= (#[trigger] parts@[i]).0 <= parts@[i].1 <= hi
                    && t@.subrange(parts@[i].0 as int, parts@[i].1 as int) == all[i],
            0 <= k <= parts.len(),
            u matches Some(p) ==> p.0 <= p.1 <= t.len(),
            s matches Some(p) ==> p.0 <= p.1 <= t.len(),
            usage_fold(all, (None, None)) == usage_fold(
                all.subrange(k as int, all.len() as int),
                (span_view(t@, u), span_view(t@, s)),
            ),
        decreases parts.len() - k,
    {
        let (pa, pb) = parts[k];
        let ghost rest = all.subrange(k as int, all.len() as int);
        assert(rest[0] == all[k as int]);
        assert(rest.drop_first() == all.subrange(k + 1, all.len() as int));
        let (qa, qb) = trim_in(t, pa, pb);
        if has_suffix_in(t, qa, qb, &user) {
            u = Some(trim_in(t, qa, qb - user.len()));
        } else if has_suffix_in(t, qa, qb, &sys) {
            s = Some(trim_in(t, qa, qb - sys.len()));
        }
        k += 1;
    }
    (u, s)
}

/// The view of a pair of split sizes.
pub open spec fn sizes_view(r: Option<(SizeText, SizeText)>) -> Option<(SizeParts, SizeParts)> {
    match r {
        Some((w, c)) => Some((w@, c@)),
        None => None,
    }
}

/// The view of a read `PhysMem:` line.
pub open spec fn memory_view(r: Result<Option<(SizeText, SizeText)>, PhysMemError>) -> Result<
    Option<(SizeParts, SizeParts)>,
    PhysMemError,
> {
    match r {
        Ok(v) => Ok(sizes_view(v)),
        Err(e) => Err(e),
    }
}

/// The wired and compressor sizes that `top` output reports (memory in use
/// is their sum), or the reason its `PhysMem:` line cannot be read (see
/// `memory_outcome`).
pub fn try_parse_memory_used(out: &str) -> (r: Result<Option<(SizeText, SizeText)>, PhysMemError>)
    ensures
        memory_view(r) == memory_outcome(lines(out@)),
{
    let t = chars_of(out);
    let prefix = chars_of("PhysMem:");
    let n = t.len();
    let mut pos: usize = 0;
    assert(t@.subrange(0, n as int) == t@);
    while pos < n
        invariant
            n == t.len(),
            t@ == out@,
            prefix@ == "PhysMem:"@,
            pos <= n,
            memory_outcome(lines(out@)) == memory_outcome(lines(t@.subrange(pos as int, n as int))),
        decreases n - pos,
    {
        let (a, b, next) = next_line(&t, pos);
        let ghost ls = lines(t@.subrange(pos as int, n as int));
        assert(ls[0] == t@.subrange(a as int, b as int));
        if has_prefix_in(&t, a, b, &prefix) {
            return match physmem_in(&t, a + prefix.len(), b) {
                Ok(Some(((wa, wb, wm), (ca, cb, cm)))) => Ok(
                    Some(
                        (
                            SizeText { number: span_string(out, &t, wa, wb), unit_bytes: wm },
                            SizeText { number: span_string(out, &t, ca, cb), unit_bytes: cm },
                        ),
                    ),
                ),
                Ok(None) => Ok(None),
                Err(e) => Err(e),
            };
        }
        assert(ls.drop_first() == lines(t@.subrange(next as int, n as int)));
        pos = next;
    }
    assert(lines(t@.subrange(n as int, n as int)) == Seq::<Seq<char>>::empty());
    Ok(None)
}

/// The wired and compressor sizes of `top` output; memory in use is their
/// sum.
pub fn parse_memory_used(out: &str) -> (r: Option<(SizeText, SizeText)>)
    requires
        memory_outcome(lines(out@)) is Ok,
    ensures
        memory_outcome(lines(out@)) == Ok::<Option<(SizeParts, SizeParts)>, PhysMemError>(sizes_view(r)),
{
    match try_parse_memory_used(out) {
        Ok(v) => v,
        Err(_) => None,
    }
}

/// The view of an optional split size given as a span of `t`.
pub open spec fn split_view(t: Seq<char>, o: Option<(usize, usize, u64)>) -> Option<SizeParts> {
    match o {
        Some((a, b, m)) => Some((t.subrange(a as int, b as int), m)),
        None => None,
    }
}

/// `physmem_outcome` of `t[lo..hi]`, the sizes given as spans of `t`.
fn physmem_in(t: &Vec<char>, lo: usize, hi: usize) -> (r: Result<
    Option<((usize, usize, u64), (usize, usize, u64))>,
    PhysMemError,
>)
    requires
        lo <= hi <= t.len(),
    ensures
        r matches Ok(Some((w, c))) ==> w.0 <= w.1 <= t.len() && c.0 <= c.1 <= t.len(),
        physmem_outcome(t@.subrange(lo as int, hi as int)) == match r {
            Ok(Some((w, c))) => Ok(Some(((t@.subrange(w.0 as int, w.1 as int), w.2), (t@.subrange(c.0 as int, c.1 as int), c.2)))),
            Ok(None) => Ok(None),
            Err(e) => Err(e),
        },
{
    let ghost rest = t@.subrange(lo as int, hi as int);
    let open = find_in(t, lo, hi, '(');
    let close = find_in(t, lo, hi, ')');
    if open == hi || close == hi {
        return Ok(None);
    }
    if close < open {
        return Err(PhysMemError::ParenOrder);
    }
    proof {
        lemma_index_of_bounds(rest, '(');
        lemma_index_of_bounds(rest, ')');
        assert(rest[open - lo] == '(');
        assert(rest[close - lo] == ')');
    }
    assert(rest.subrange(open - lo + 1, close - lo) == t@.subrange(open + 1, close as int));
    let wired = chars_of(" wired");
    let compressor = chars_of(" compressor");
    let parts = split_in(t, open + 1, close, ',');
    let ghost all = split_on(t@.subrange(open + 1, close as int), ',');
    let mut w: Option<(usize, usize, u64)> = None;
    let mut c: Option<(usize, usize, u64)> = None;
    let mut k: usize = 0;
    assert(all.subrange(0, all.len() as int) == all);
    while k < parts.len()
        invariant
            lo <= open < close < hi <= t.len(),
            rest == t@.subrange(lo as int, hi as int),
            index_of(rest, '(') == open - lo,
            index_of(rest, ')') == close - lo,
            rest.subrange(open - lo + 1, close - lo) == t@.subrange(open + 1, close as int),
            all == split_on(t@.subrange(open + 1, close as int), ','),
            wired@ == " wired"@,
            compressor@ == " compressor"@,
            parts@.len() == all.len(),
            forall|i: int|
                0 <= i < parts@.len() ==> open + 1 <= (#[trigger] parts@[i]).0 <= parts@[i].1 <= close
                    && t@.subrange(parts@[i].0 as int, parts@[i].1 as int) == all[i],
            0 <= k <= parts.len(),
            forall|i: int| 0 <= i < k ==> part_splittable(#[trigger] all[i]),
            w matches Some(x) ==> x.0 <= x.1 <= t.len(),
            c matches Some(x) ==> x.0 <= x.1 <= t.len(),
            memory_fold(all, (None, None)) == memory_fold(
                all.subrange(k as int, all.len() as int),
                (split_view(t@, w), split_view(t@, c)),
            ),
        decreases parts.len() - k,
    {
        let (pa, pb) = parts[k];
        let ghost rest_parts = all.subrange(k as int, all.len() as int);
        assert(rest_parts[0] == all[k as int]);
        assert(rest_parts.drop_first() == all.subrange(k + 1, all.len() as int));
        let (qa, qb) = trim_in(t, pa, pb);
        if has_suffix_in(t, qa, qb, &wired) {
            if !splittable_in(t, qa, qb - wired.len()) {
                assert(!part_splittable(all[k as int]));
                return Err(PhysMemError::UnsplittableSize);
            }
            w = size_in(t, qa, qb - wired.len());
        } else if has_suffix_in(t, qa, qb, &compressor) {
            if !splittable_in(t, qa, qb - compressor.len()) {
                assert(!part_splittable(all[k as int]));
                return Err(PhysMemError::UnsplittableSize);
            }
            c = size_in(t, qa, qb - compressor.len());
        }
        k += 1;
    }
    assert(all.subrange(k as int, all.len() as int).len() == 0);
    assert(list_outcome(rest.subrange(open - lo + 1, close - lo)) is Ok);
    match (w, c) {
        (Some(wv), Some(cv)) => Ok(Some((wv, cv))),
        _ => Ok(None),
    }
}

/// `size_splittable` of `t[lo..hi]`.
fn splittable_in(t: &Vec<char>, lo: usize, hi: usize) -> (b: bool)
    requires
        lo <= hi <= t.len(),
    ensures
        b == size_splittable(t@.subrange(lo as int, hi as int)),
{
    let (a, b) = trim_in(t, lo, hi);
    a == b || (t[b - 1] as u32) < 0x80
}

/// Bytes per unit of a size suffix: `K`, `M`, `G` and `T` are powers of 1024.
pub open spec fn unit_multiplier(c: char) -> Option<u64> {
    if c == 'K' {
        Some(1024)
    } else if c == 'M' {
        Some(1048576)
    } else if c == 'G' {
        Some(1073741824)
    } else if c == 'T' {
        Some(1099511627776)
    } else {
        None
    }
}

/// A size such as `4801M`, `5.2G` or `123K`: once trimmed, the text of its
/// number and the bytes per unit of its one-character suffix; `None` when
/// it is empty or the suffix is not a known unit.  The number itself is
/// read by the caller (as `str::parse::<f64>`, then times the unit).
pub open spec fn size_split(s: Seq<char>) -> Option<SizeParts> {
    let t = trim(s);
    if t.len() == 0 {
        None
    } else {
        match unit_multiplier(t.last()) {
            Some(m) => Some((t.drop_last(), m)),
            None => None,
        }
    }
}

/// A size text whose unit can be split off: empty once trimmed, or ending in
/// a character of one byte (ASCII).
pub open spec fn size_splittable(s: Seq<char>) -> bool {
    let t = trim(s);
    t.len() == 0 || (t.last() as u32) < 0x80
}

/// The view of an optional split size.
pub open spec fn size_view(r: Option<SizeText>) -> Option<SizeParts> {
    match r {
        Some(x) => Some(x@),
        None => None,
    }
}

/// Splits the size text `s` into its number and its bytes per unit (see
/// `size_split`).
pub fn parse_size(s: &str) -> (r: Option<SizeText>)
    requires
        size_splittable(s@),
    ensures
        size_view(r) == size_split(s@),
{
    let t = chars_of(s);
    assert(t@.subrange(0, t.len() as int) == t@);
    match size_in(&t, 0, t.len()) {
        Some((a, b, m)) => Some(SizeText { number: span_string(s, &t, a, b), unit_bytes: m }),
        None => None,
    }
}

/// `size_split` of `t[lo..hi]`, the number given as a span of `t`.
fn size_in(t: &Vec<char>, lo: usize, hi: usize) -> (r: Option<(usize, usize, u64)>)
    requires
        lo <= hi <= t.len(),
        size_splittable(t@.subrange(lo as int, hi as int)),
    ensures
        split_view(t@, r) == size_split(t@.subrange(lo as int, hi as int)),
        r matches Some(x) ==> lo <= x.0 <= x.1 <= hi,
{
    let (a, b) = trim_in(t, lo, hi);
    let ghost tt = t@.subrange(a as int, b as int);
    if a == b {
        return None;
    }
    let unit = t[b - 1];
    assert(tt.last() == unit);
    assert(tt.drop_last() == t@.subrange(a as int, b - 1));
    let m: u64 = if unit == 'K' {
        1024
    } else if unit == 'M' {
        1048576
    } else if unit == 'G' {
        1073741824
    } else if unit == 'T' {
        1099511627776
    } else {
        return None;
    };
    Some((a, b - 1, m))
}

/// Text with no whitespace and no comma, such as a figure `12.34` or a
/// size `4801M`.
pub open spec fn plain_text(x: Seq<char>) -> bool {
    forall|k: int| 0 <= k < x.len() ==> !is_ws(#[trigger] x[k]) && x[k] != ','
}

/// A CPU line `"CPU usage: U% user, S% sys, I% idle"`, with `U`, `S` and
/// `I` free of whitespace and commas, reads as the user figure `U` and the
/// system figure `S`, whatever lines follow.
pub proof fn lemma_cpu_usage_line(u: Seq<char>, s: Seq<char>, i: Seq<char>, ls: Seq<Seq<char>>)
    requires
        plain_text(u),
        plain_text(s),
        plain_text(i),
    ensures
        usage_in(
            seq!["CPU usage: "@ + u + "% user, "@ + s + "% sys, "@ + i + "% idle"@] + ls,
        ) == Some((Some(u), Some(s))),
{
    reveal_strlit("CPU usage: ");
    reveal_strlit("% user, ");
    reveal_strlit("% sys, ");
    reveal_strlit("% idle");
    reveal_strlit("% user");
    reveal_strlit("% sys");
    let line = "CPU usage: "@ + u + "% user, "@ + s + "% sys, "@ + i + "% idle"@;
    let a1 = u + "% user"@;
    let a2 = seq![' '] + s + "% sys"@;
    let a3 = seq![' '] + i + "% idle"@;
    let rest = a1 + seq![','] + (a2 + seq![','] + a3);
    assert(line == "CPU usage: "@ + rest);
    lemma_strip_prefix_of("CPU usage: "@, rest);
    assert(free_of(a1, ',')) by {
        assert forall|k: int| 0 <= k < a1.len() implies a1[k] != ',' by {
            if k < u.len() {
                assert(a1[k] == u[k]);
            }
        }
    }
    assert(free_of(a2, ',')) by {
        assert forall|k: int| 0 <= k < a2.len() implies a2[k] != ',' by {
            if 1 <= k < s.len() + 1 {
                assert(a2[k] == s[k - 1]);
            }
        }
    }
    assert(free_of(a3, ',')) by {
        assert forall|k: int| 0 <= k < a3.len() implies a3[k] != ',' by {
            if 1 <= k < i.len() + 1 {
                assert(a3[k] == i[k - 1]);
            }
        }
    }
    lemma_split_cons(a1, ',', a2 + seq![','] + a3);
    lemma_split_cons(a2, ',', a3);
    lemma_split_none(a3, ',');
    let parts = split_on(rest, ',');
    assert(parts == seq![a1, a2, a3]);
    // The user part.
    if u.len() > 0 {
        assert(a1[0] == u[0]);
    }
    assert(a1.last() == 'r');
    lemma_trim_unchanged(a1);
    lemma_strip_suffix_of(u, "% user"@);
    if u.len() > 0 {
        assert(u.last() == u[u.len() - 1]);
    }
    lemma_trim_unchanged(u);
    let acc1 = usage_step((None, None), a1);
    assert(acc1 == (Some(u), None::<Seq<char>>));
    // The system part.
    let x2 = s + "% sys"@;
    assert(a2 == seq![' '] + x2);
    if s.len() > 0 {
        assert(x2[0] == s[0]);
    }
    assert(x2.last() == 's');
    lemma_trim_space_before(x2);
    lemma_strip_suffix_not(x2, "% user"@);
    lemma_strip_suffix_of(s, "% sys"@);
    if s.len() > 0 {
        assert(s.last() == s[s.len() - 1]);
    }
    lemma_trim_unchanged(s);
    let acc2 = usage_step(acc1, a2);
    assert(acc2 == (Some(u), Some(s)));
    // The idle part.
    let x3 = i + "% idle"@;
    assert(a3 == seq![' '] + x3);
    if i.len() > 0 {
        assert(x3[0] == i[0]);
    }
    assert(x3.last() == 'e');
    lemma_trim_space_before(x3);
    lemma_strip_suffix_not(x3, "% user"@);
    lemma_strip_suffix_not(x3, "% sys"@);
    assert(usage_step(acc2, a3) == acc2);
    assert(parts.drop_first() == seq![a2, a3]);
    assert(seq![a2, a3].drop_first() == seq![a3]);
    assert(seq![a3].drop_first() =~= Seq::<Seq<char>>::empty());
    assert(usage_fold(Seq::<Seq<char>>::empty(), acc2) == acc2);
    assert(usage_fold(seq![a3], acc2) == acc2);
    assert(usage_fold(seq![a2, a3], acc1) == acc2);
    assert((seq![line] + ls)[0] == line);
}

/// A known unit after a number text that does not start with whitespace
/// splits off as its bytes: `K` 2^10, `M` 2^20, `G` 2^30, `T` 2^40.
pub proof fn lemma_size_units(n: Seq<char>)
    requires
        n.len() > 0 ==> !is_ws(n[0]),
    ensures
        size_split(n.push('K')) == Some((n, 1024u64)),
        size_split(n.push('M')) == Some((n, 1048576u64)),
        size_split(n.push('G')) == Some((n, 1073741824u64)),
        size_split(n.push('T')) == Some((n, 1099511627776u64)),
{
    let units = seq!['K', 'M', 'G', 'T'];
    assert forall|k: int| 0 <= k < 4 implies size_split(n.push(#[trigger] units[k])) == Some(
        (n, unit_multiplier(units[k])->0),
    ) by {
        let x = n.push(units[k]);
        if n.len() > 0 {
            assert(x[0] == n[0]);
        }
        assert(x.last() == units[k]);
        lemma_trim_unchanged(x);
        assert(x.drop_last() == n);
    }
    assert(units[0] == 'K' && units[1] == 'M' && units[2] == 'G' && units[3] == 'T');
}

/// A `PhysMem:` list `"W wired, C compressor"` of two sizes with known
/// units, free of whitespace and commas, reads as those two sizes, each
/// split as any size is.
pub proof fn lemma_memory_list(w: Seq<char>, c: Seq<char>)
    requires
        plain_text(w),
        plain_text(c),
        size_split(w) is Some,
        size_split(c) is Some,
    ensures
        list_outcome(w + " wired, "@ + c + " compressor"@) == Ok::<
            Option<(SizeParts, SizeParts)>,
            PhysMemError,
        >(Some((size_split(w)->0, size_split(c)->0))),
{
    reveal_strlit(" wired, ");
    reveal_strlit(" wired");
    reveal_strlit(" compressor");
    let list = w + " wired, "@ + c + " compressor"@;
    let a1 = w + " wired"@;
    let x2 = c + " compressor"@;
    let a2 = seq![' '] + x2;
    assert(list == a1 + seq![','] + a2);
    assert(free_of(a1, ',')) by {
        assert forall|k: int| 0 <= k < a1.len() implies a1[k] != ',' by {
            if k < w.len() {
                assert(a1[k] == w[k]);
            }
        }
    }
    assert(free_of(a2, ',')) by {
        assert forall|k: int| 0 <= k < a2.len() implies a2[k] != ',' by {
            if 1 <= k < c.len() + 1 {
                assert(a2[k] == c[k - 1]);
            }
        }
    }
    lemma_split_cons(a1, ',', a2);
    lemma_split_none(a2, ',');
    let parts = split_on(list, ',');
    assert(parts == seq![a1, a2]);
    // Both sizes end in a unit and have no whitespace.
    assert(w.len() > 0 && c.len() > 0);
    assert(w.last() == w[w.len() - 1] && c.last() == c[c.len() - 1]);
    lemma_trim_unchanged(w);
    lemma_trim_unchanged(c);
    assert(size_splittable(w) && size_splittable(c));
    // The wired part.
    assert(a1[0] == w[0]);
    assert(a1.last() == 'd');
    lemma_trim_unchanged(a1);
    lemma_strip_suffix_of(w, " wired"@);
    assert(part_splittable(a1));
    // The compressor part.
    assert(x2[0] == c[0]);
    assert(x2.last() == 'r');
    lemma_trim_space_before(x2);
    lemma_strip_suffix_not(x2, " wired"@);
    lemma_strip_suffix_of(c, " compressor"@);
    assert(part_splittable(a2));
    assert forall|k: int| 0 <= k < parts.len() implies part_splittable(#[trigger] parts[k]) by {
        if k == 0 {
            assert(parts[k] == a1);
        } else {
            assert(parts[k] == a2);
        }
    }
    let acc1 = memory_step((None, None), a1);
    assert(acc1 == (size_split(w), None::<SizeParts>));
    let acc2 = memory_step(acc1, a2);
    assert(acc2 == (size_split(w), size_split(c)));
    assert(parts.drop_first() == seq![a2]);
    assert(seq![a2].drop_first() =~= Seq::<Seq<char>>::empty());
    assert(memory_fold(Seq::<Seq<char>>::empty(), acc2) == acc2);
    assert(memory_fold(seq![a2], acc1) == acc2);
}

/// A `PhysMem:` list with a wired size and no compressor size gives no
/// figure.
pub proof fn lemma_memory_list_needs_compressor(w: Seq<char>)
    requires
        plain_text(w),
        size_split(w) is Some,
    ensures
        list_outcome(w + " wired"@) == Ok::<Option<(SizeParts, SizeParts)>, PhysMemError>(None),
{
    reveal_strlit(" wired");
    reveal_strlit(" compressor");
    let a1 = w + " wired"@;
    assert(free_of(a1, ',')) by {
        assert forall|k: int| 0 <= k < a1.len() implies a1[k] != ',' by {
            if k < w.len() {
                assert(a1[k] == w[k]);
            }
        }
    }
    lemma_split_none(a1, ',');
    let parts = split_on(a1, ',');
    assert(w.len() > 0);
    assert(w.last() == w[w.len() - 1]);
    lemma_trim_unchanged(w);
    assert(a1[0] == w[0]);
    assert(a1.last() == 'd');
    lemma_trim_unchanged(a1);
    lemma_strip_suffix_of(w, " wired"@);
    assert(part_splittable(a1));
    assert forall|k: int| 0 <= k < parts.len() implies part_splittable(#[trigger] parts[k]) by {
        assert(parts[k] == a1);
    }
    let acc1 = memory_step((None, None), a1);
    assert(acc1 == (size_split(w), None::<SizeParts>));
    assert(parts.drop_first() =~= Seq::<Seq<char>>::empty());
    assert(memory_fold(Seq::<Seq<char>>::empty(), acc1) == acc1);
    assert(memory_fold(parts, (None, None)) == acc1);
}

/// A line that does not start with `"CPU usage: "` is skipped, and the
/// first one that does decides: the lines after it do not matter.
pub proof fn lemma_first_cpu_line_decides(l: Seq<char>, ls1: Seq<Seq<char>>, ls2: Seq<Seq<char>>)
    ensures
        strip_prefix(l, "CPU usage: "@) is None ==> usage_in(seq![l] + ls1) == usage_in(ls1),
        strip_prefix(l, "CPU usage: "@) is Some ==> usage_in(seq![l] + ls1) == usage_in(seq![l] + ls2),
{
    assert((seq![l] + ls1)[0] == l);
    assert((seq![l] + ls2)[0] == l);
    assert((seq![l] + ls1).drop_first() == ls1);
}

/// A line that does not start with `"PhysMem:"` is skipped, and the first
/// one that does decides: the lines after it do not matter.
pub proof fn lemma_first_physmem_line_decides(l: Seq<char>, ls1: Seq<Seq<char>>, ls2: Seq<Seq<char>>)
    ensures
        strip_prefix(l, "PhysMem:"@) is None ==> memory_outcome(seq![l] + ls1) == memory_outcome(ls1),
        strip_prefix(l, "PhysMem:"@) is Some ==> memory_outcome(seq![l] + ls1) == memory_outcome(
            seq![l] + ls2,
        ),
{
    assert((seq![l] + ls1)[0] == l);
    assert((seq![l] + ls2)[0] == l);
    assert((seq![l] + ls1).drop_first() == ls1);
}

} // verus!
