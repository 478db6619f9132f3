//! Plain data collected in one snapshot.

use vstd::prelude::*;

verus! {

/// Byte counters of one network interface.
#[derive(Debug, Clone)]
pub struct IfaceCounters {
    pub name: String,
    pub rx_bytes: u64,
    pub tx_bytes: u64,
}

impl View for IfaceCounters {
    type V = (Seq<char>, u64, u64);

    open spec fn view(&self) -> (Seq<char>, u64, u64) {
        (self.name@, self.rx_bytes, self.tx_bytes)
    }
}

} // verus!
