//! Installed physical memory from `sysctl -n hw.memsize`.

use vstd::prelude::*;
use crate::text::{chars_of, parse_u64, parse_u64_in, trim, trim_in};

verus! {

/// The byte count that `sysctl -n hw.memsize` prints: the trimmed output
/// read as a `u64`.
pub fn parse_memsize(out: &str) -> (r: Option<u64>)
    ensures
        r == parse_u64(trim(out@)),
{
    let t = chars_of(out);
    let (a, b) = trim_in(&t, 0, t.len());
    assert(t@.subrange(0, t.len() as int) == t@);
    parse_u64_in(&t, a, b)
}

} // verus!
