//! Parsers for the output of the macOS tools that the exporter samples
//! (`top`, `sysctl`, `netstat`, `powermetrics`), and the rule for a
//! collector that failed.

use vstd::prelude::*;

pub mod cpu_mem;
pub mod network;
pub mod power;
pub mod sysctl;
pub mod thermal;

verus! {

/// The value of a collector that succeeded, or `None` for one that failed.
/// `what` names the collector; a failure is reported under that name by
/// the caller, and the snapshot goes on without the value.
pub fn log_warn<T, E>(res: Result<T, E>, what: &str) -> (r: Option<T>)
    ensures
        r == match res {
            Ok(v) => Some(v),
            Err(_) => None::<T>,
        },
{
    let _ = what;
    match res {
        Ok(v) => Some(v),
        Err(_) => None,
    }
}

} // verus!
