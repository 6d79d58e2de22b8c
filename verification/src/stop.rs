//! Cooperative cancellation shared by the engines of one race.
use vstd::prelude::*;
use std::sync::atomic::AtomicBool;
use std::sync::atomic::Ordering;

verus! {

/// Whether another participant asked the engines to stop.  The answer may
/// change at any moment; nothing is assumed about it.
pub fn stop_requested(flag: &AtomicBool) -> bool {
    flag.load(Ordering::Relaxed)
}

} // verus!
