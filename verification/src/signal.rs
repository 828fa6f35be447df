//! The flag by which a training run is told to go on or to stop.

use vstd::prelude::*;
use std::sync::atomic::AtomicBool;
use std::sync::atomic::Ordering;

verus! {

/// Reads the flag, in sequentially consistent order: `true` while training
/// may go on, `false` once a stop was requested. Whoever holds the flag may
/// change it at any time, so nothing is known of what is read.
pub(crate) fn may_go_on(flag: &AtomicBool) -> bool {
    flag.load(Ordering::SeqCst)
}

} // verus!
