//! Getting memory: errors, the chunked walk, mapping checks and the compaction
//! setting.

use std::cell::RefCell;
use std::rc::Rc;

use ferrite::allocation::{
    activate_budgeted, conclude, devmem_offset, walk_chunks, AllocError, ChunkHost,
    CompactionGuard, StopReason, UnlimitedHost, CHUNK_BYTES,
};

#[test]
fn mlock_has_help() {
    let e = AllocError::Mlock {
        source: "EPERM: Operation not permitted".to_owned(),
    };
    assert!(e.help().is_some());
    let msg = e.help().unwrap();
    assert!(msg.contains("cap_ipc_lock"));
    assert!(msg.contains("setcap"));
}

#[test]
fn mmap_no_help() {
    let e = AllocError::Mmap {
        source: "ENOMEM: Out of memory".to_owned(),
    };
    assert!(e.help().is_none());
}

#[test]
fn zero_size_no_help() {
    let e = AllocError::ZeroSize;
    assert!(e.help().is_none());
}

#[test]
fn alloc_error_messages() {
    assert_eq!(AllocError::ZeroSize.to_string(), "requested size must be non-zero");
    let source = || "why".to_owned();
    assert_eq!(AllocError::Mmap { source: source() }.to_string(), "mmap failed: why");
    assert_eq!(
        AllocError::Mlock { source: source() }.to_string(),
        "mlock failed (are you root or do you have CAP_IPC_LOCK?): why"
    );
    assert_eq!(
        AllocError::Mprotect { source: source() }.to_string(),
        "mprotect failed while activating chunk: why"
    );
    assert_eq!(
        AllocError::Exhausted { available: 17 }.to_string(),
        "could not lock any memory below the headroom floor (17 bytes available)"
    );
    assert_eq!(
        AllocError::DevMemAlignment { phys_start: 0x1001, len: 0x20 }.to_string(),
        "/dev/mem physical range must be page-aligned (start 0x1001, len 0x20)"
    );
    assert_eq!(
        AllocError::DevMemOpen { source: source() }.to_string(),
        "could not open /dev/mem: why"
    );
    assert_eq!(
        AllocError::DevMemMap { source: source() }.to_string(),
        "could not map physical range through /dev/mem: why"
    );
}

#[test]
fn devmem_errors_have_help() {
    let source = || "why".to_owned();
    assert!(AllocError::DevMemMap { source: source() }.help().unwrap().contains("CONFIG_STRICT_DEVMEM"));
    assert_eq!(AllocError::DevMemOpen { source: source() }.help(), Some("run as root to open /dev/mem"));
    assert!(AllocError::Mprotect { source: source() }.help().is_none());
    assert!(AllocError::DevMemAlignment { phys_start: 1, len: 1 }.help().is_none());
}

/// Records every activation call; fails the one at `fail_at`. Readings run out
/// into "no reading".
struct Recording {
    calls: Rc<RefCell<Vec<(usize, usize)>>>,
    fail_at: Option<usize>,
    readings: Vec<u64>,
    always: Option<u64>,
}

impl Recording {
    fn new(fail_at: Option<usize>) -> (Self, Rc<RefCell<Vec<(usize, usize)>>>) {
        let calls = Rc::new(RefCell::new(Vec::new()));
        let host = Recording {
            calls: Rc::clone(&calls),
            fail_at,
            readings: vec![],
            always: None,
        };
        (host, calls)
    }
}

impl ChunkHost for Recording {
    fn available(&mut self) -> Option<u64> {
        if self.always.is_some() {
            return self.always;
        }
        if self.readings.is_empty() {
            None
        } else {
            Some(self.readings.remove(0))
        }
    }

    fn activate(&mut self, offset: usize, len: usize) -> Result<(), AllocError> {
        if self.fail_at == Some(offset) {
            return Err(AllocError::Mlock {
                source: "ENOMEM: Out of memory".to_owned(),
            });
        }
        self.calls.borrow_mut().push((offset, len));
        Ok(())
    }
}

#[test]
fn full_request_completes_with_short_tail() {
    let (mut host, calls) = Recording::new(None);
    let (achieved, stop) = walk_chunks(10, 4, 0, &mut host);
    assert_eq!(achieved, 10);
    assert!(matches!(stop, StopReason::Completed));
    assert_eq!(*calls.borrow(), vec![(0, 4), (4, 4), (8, 2)]);
}

#[test]
fn headroom_floor_stops_walk() {
    let (mut host, calls) = Recording::new(None);
    // First check: plenty. Second check: 90 < headroom(100) + chunk(4).
    host.readings = vec![200, 90];
    let (achieved, stop) = walk_chunks(8, 4, 100, &mut host);
    assert_eq!(achieved, 4);
    assert!(matches!(stop, StopReason::HeadroomFloor { available: 90 }));
    assert_eq!(*calls.borrow(), vec![(0, 4)]);
}

#[test]
fn chunk_failure_keeps_prior_chunks() {
    let (mut host, calls) = Recording::new(Some(4));
    let (achieved, stop) = walk_chunks(12, 4, 0, &mut host);
    assert_eq!(achieved, 4);
    assert!(matches!(stop, StopReason::ChunkFailed(AllocError::Mlock { .. })));
    assert_eq!(*calls.borrow(), vec![(0, 4)]);
}

#[test]
fn unreadable_meminfo_means_no_cap() {
    let (mut host, _calls) = Recording::new(None);
    let (achieved, stop) = walk_chunks(8, 4, u64::MAX, &mut host);
    assert_eq!(achieved, 8);
    assert!(matches!(stop, StopReason::Completed));
}

#[test]
fn floor_can_stop_before_first_chunk() {
    let (mut host, calls) = Recording::new(None);
    host.always = Some(500);
    let (achieved, stop) = walk_chunks(8, 4, 1000, &mut host);
    assert_eq!(achieved, 0);
    assert!(matches!(stop, StopReason::HeadroomFloor { available: 500 }));
    assert!(calls.borrow().is_empty());
}

#[test]
fn request_smaller_than_chunk_is_single_call() {
    let (mut host, calls) = Recording::new(None);
    let (achieved, stop) = walk_chunks(3, 4, 0, &mut host);
    assert_eq!(achieved, 3);
    assert!(matches!(stop, StopReason::Completed));
    assert_eq!(*calls.borrow(), vec![(0, 3)]);
}

#[test]
fn headroom_sum_saturates() {
    let (mut host, calls) = Recording::new(None);
    host.always = Some(u64::MAX);
    let (achieved, stop) = walk_chunks(8, 4, u64::MAX, &mut host);
    assert_eq!(achieved, 8);
    assert!(matches!(stop, StopReason::Completed));
    assert_eq!(calls.borrow().len(), 2);
}

#[test]
fn small_budgeted_allocation_completes() {
    let mut host = UnlimitedHost::new();
    let outcome = activate_budgeted(4 * 1024 * 1024, 0, &mut host).unwrap();
    assert_eq!(outcome.achieved, 4 * 1024 * 1024);
    assert_eq!(outcome.achieved, outcome.requested);
    assert!(matches!(outcome.stop, StopReason::Completed));
}

#[test]
fn zero_size_is_rejected() {
    let mut host = UnlimitedHost::new();
    let e = match activate_budgeted(0, 0, &mut host) {
        Err(e) => e,
        Ok(_) => panic!("expected ZeroSize error"),
    };
    assert!(matches!(e, AllocError::ZeroSize));
}

#[test]
fn impossible_headroom_is_exhausted() {
    // A headroom of all there is can never be left, so no chunk activates and
    // the walk reports exhaustion with help text.
    let (mut host, _calls) = Recording::new(None);
    host.always = Some(8 * 1024 * 1024 * 1024);
    let e = match activate_budgeted(4 * 1024 * 1024, u64::MAX, &mut host) {
        Err(e) => e,
        Ok(_) => panic!("expected Exhausted error"),
    };
    assert!(e.help().is_some());
    assert!(matches!(e, AllocError::Exhausted { .. }));
}

#[test]
fn trimmed_request_keeps_its_chunks() {
    let (mut host, calls) = Recording::new(Some(CHUNK_BYTES));
    let outcome = activate_budgeted(3 * CHUNK_BYTES, 0, &mut host).unwrap();
    assert_eq!(outcome.requested, 3 * CHUNK_BYTES);
    assert_eq!(outcome.achieved, CHUNK_BYTES);
    assert!(matches!(outcome.stop, StopReason::ChunkFailed(_)));
    assert_eq!(*calls.borrow(), vec![(0, CHUNK_BYTES)]);
}

#[test]
fn first_failure_is_the_error() {
    let failed = StopReason::ChunkFailed(AllocError::Mprotect { source: "why".to_owned() });
    let e = conclude(8, 0, failed).unwrap_err();
    assert!(matches!(e, AllocError::Mprotect { .. }));
    let e = conclude(8, 0, StopReason::HeadroomFloor { available: 3 }).unwrap_err();
    assert!(matches!(e, AllocError::Exhausted { available: 3 }));
}

#[test]
fn devmem_offset_checks_alignment() {
    assert_eq!(devmem_offset(0x3940_0000, 0x20_0000).unwrap(), 0x3940_0000);
    assert!(matches!(devmem_offset(0x1000, 0), Err(AllocError::ZeroSize)));
    assert!(matches!(
        devmem_offset(0x1001, 0x1000),
        Err(AllocError::DevMemAlignment { phys_start: 0x1001, len: 0x1000 })
    ));
    assert!(matches!(
        devmem_offset(0x1000, 0x1001),
        Err(AllocError::DevMemAlignment { phys_start: 0x1000, len: 0x1001 })
    ));
    assert!(matches!(
        devmem_offset(1 << 63, 0x1000),
        Err(AllocError::DevMemAlignment { .. })
    ));
}

#[test]
fn already_zero_does_not_write() {
    let guard = CompactionGuard::from_setting("0\n");
    assert!(!guard.changed);
    assert_eq!(guard.original, "0");
    assert_eq!(guard.disabling_text(), None);
    assert_eq!(guard.restoring_text(), None);
}

#[test]
fn nonzero_writes_zero_and_restores() {
    let guard = CompactionGuard::from_setting("1\n");
    assert!(guard.changed);
    assert_eq!(guard.original, "1");
    assert_eq!(guard.disabling_text(), Some("0\n".to_owned()));
    assert_eq!(guard.restoring_text(), Some("1\n".to_owned()));
}
