//! Waiting while a run is paused.

use ferrite::pause::{wait_while_paused, PARK_INTERVAL_MS};

#[test]
fn none_returns_immediately() {
    // A missing signal must not block.
    assert!(!wait_while_paused(None, false));
}

#[test]
fn unset_flag_returns_immediately() {
    assert!(!wait_while_paused(Some(false), false));
}

#[test]
fn quit_breaks_out_of_paused_wait() {
    // Even while paused, a pending quit must let the wait return.
    assert!(wait_while_paused(Some(true), false));
    assert!(!wait_while_paused(Some(true), true));
}

#[test]
fn resumes_when_flag_cleared_by_another_thread() {
    // The flag is set for two intervals, and then another thread clears it.
    let seen = [true, true, false];
    let mut waited_ms: u64 = 0;
    for paused in seen {
        if !wait_while_paused(Some(paused), false) {
            break;
        }
        waited_ms += PARK_INTERVAL_MS;
    }
    assert_eq!(waited_ms, 2 * PARK_INTERVAL_MS);
}
