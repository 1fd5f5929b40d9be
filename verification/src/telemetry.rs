use std::sync::atomic::AtomicU64;
use std::sync::atomic::Ordering;
use std::sync::Arc;
use vstd::prelude::*;

verus! {

/// Lock-free holder of the most recent spike bitmask, shared by every clone
/// of the hub (a clone shares the same cell).
#[derive(Clone)]
pub struct TelemetryHub {
    last_spikes: Arc<AtomicU64>,
}

impl TelemetryHub {
    /// Creates a hub whose cell starts at the empty bitmask. The contract
    /// does not state the cell's value: the cell is shared with every clone
    /// and written from other threads, and the specification of std's
    /// atomics carries no value.
    pub fn new() -> (hub: TelemetryHub) {
        TelemetryHub { last_spikes: Arc::new(AtomicU64::new(0)) }
    }

    /// Publishes `mask` as the latest spike bitmask (relaxed store).
    pub fn record_spikes(&self, mask: u64) {
        self.last_spikes.store(mask, Ordering::Relaxed);
    }

    /// Reads the latest published spike bitmask (relaxed load). Which value
    /// that is depends on the stores of every clone, on any thread, so the
    /// contract states nothing of it.
    pub fn get_last_spikes(&self) -> (mask: u64) {
        self.last_spikes.load(Ordering::Relaxed)
    }
}

} // verus!
