//! Holding a run up and letting it go on.

use vstd::prelude::*;

verus! {

/// How long to wait before looking again, in milliseconds.
pub const PARK_INTERVAL_MS: u64 = 20;

/// Whether a worker goes on waiting, given what the operator's signal says now,
/// if there is one. A request to quit ends the wait in any case, so that a run
/// that is held up can always be ended.
pub fn wait_while_paused(pause: Option<bool>, quit_requested: bool) -> (wait: bool)
    ensures
        wait == (pause == Some(true) && !quit_requested),
{
    match pause {
        Some(paused) => paused && !quit_requested,
        None => false,
    }
}

} // verus!
