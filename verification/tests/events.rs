//! The events of a run.

use ferrite::edac::EccDelta;
use ferrite::events::{opening_events, LogLevel, RegionEvent, RunEvent};
use ferrite::log_bridge::LogRecord;
use ferrite::pattern::Pattern;
use ferrite::physmem::phys::MapStats;

const MILLISECOND: u64 = 1_000_000;
const SECOND: u64 = 1_000_000_000;

#[test]
fn event_bus_send_recv() {
    let (tx, rx) = crossbeam_channel::unbounded();
    tx.send(RunEvent::RunStart {
        size: 1024,
        passes: 1,
        patterns: vec![Pattern::SolidBits],
        regions: 1,
        parallel: true,
    })
    .unwrap();

    let event = rx.recv().unwrap();
    let RunEvent::RunStart { size: 1024, .. } = event else {
            panic!("unexpected value");
        };
}

#[test]
fn event_bus_multiple_events() {
    let (tx, rx) = crossbeam_channel::unbounded();

    tx.send(RunEvent::Region(
        0,
        RegionEvent::PassStart {
            pass: 1,
            total_passes: 2,
        },
    ))
    .unwrap();
    tx.send(RunEvent::Region(
        0,
        RegionEvent::TestStart {
            pattern: Pattern::SolidBits,
            pass: 1,
        },
    ))
    .unwrap();
    tx.send(RunEvent::Region(
        0,
        RegionEvent::TestComplete {
            pattern: Pattern::SolidBits,
            pass: 1,
            elapsed: 100 * MILLISECOND,
            bytes: 8192,
            failures: vec![],
        },
    ))
    .unwrap();
    tx.send(RunEvent::RunComplete).unwrap();

    let mut count: usize = 0;
    while let Ok(_event) = rx.try_recv() {
        count += 1;
    }
    assert_eq!(count, 4);
}

#[test]
fn events_map_info_event() {
    let (tx, rx) = crossbeam_channel::unbounded();
    tx.send(RunEvent::MapInfo {
        stats: MapStats {
            total_pages: 100,
            resolved_pages: 100,
            huge_pages: 5,
            thp_pages: 10,
            hwpoison_pages: 0,
            unevictable_pages: 90,
        },
    })
    .unwrap();

    let event = rx.recv().unwrap();
    let RunEvent::MapInfo { .. } = event else {
            panic!("unexpected value");
        };
}

#[test]
fn region_event_progress() {
    let (tx, rx) = crossbeam_channel::unbounded();
    tx.send(RunEvent::Region(
        2,
        RegionEvent::Progress {
            pattern: Pattern::WalkingOnes,
            pass: 1,
            sub_pass: 32,
            total: 64,
        },
    ))
    .unwrap();

    let event = rx.recv().unwrap();
    let RunEvent::Region(2, RegionEvent::Progress { .. }) = event else {
            panic!("unexpected value");
        };
}

#[test]
fn region_event_ecc_deltas() {
    let (tx, rx) = crossbeam_channel::unbounded();
    tx.send(RunEvent::Region(
        0,
        RegionEvent::EccDeltas {
            pass: 1,
            deltas: vec![EccDelta {
                mc: 0,
                dimm_index: 1,
                label: Some("DIMM_A1".to_owned()),
                ce_delta: 2,
                ue_delta: 0,
            }],
        },
    ))
    .unwrap();

    let event = rx.recv().unwrap();
    let RunEvent::Region(0, RegionEvent::EccDeltas { .. }) = event else {
            panic!("unexpected value");
        };
}

#[test]
fn region_event_pass_complete() {
    let (tx, rx) = crossbeam_channel::unbounded();
    tx.send(RunEvent::Region(
        1,
        RegionEvent::PassComplete {
            pass: 1,
            failures: 3,
            elapsed: 5 * SECOND,
        },
    ))
    .unwrap();

    let event = rx.recv().unwrap();
    let RunEvent::Region(1, RegionEvent::PassComplete { .. }) = event else {
            panic!("unexpected value");
        };
}

#[test]
fn events_log_event() {
    let (tx, rx) = crossbeam_channel::unbounded();
    tx.send(RunEvent::Log {
        level: LogLevel::Info,
        target: "ferrite::runner".to_owned(),
        message: "test message".to_owned(),
        fields: vec![],
    })
    .unwrap();

    let event = rx.recv().unwrap();
    let RunEvent::Log { .. } = event else {
            panic!("unexpected value");
        };
}

#[test]
fn a_run_opens_with_what_is_known() {
    let stats = MapStats {
        total_pages: 1,
        resolved_pages: 1,
        huge_pages: 0,
        thp_pages: 0,
        hwpoison_pages: 0,
        unevictable_pages: 1,
    };
    let events = opening_events(4096, 2, vec![Pattern::SolidBits], 1, true, Some(stats), None);
    assert_eq!(events.len(), 2);
    assert!(matches!(&events[0], RunEvent::RunStart { size: 4096, passes: 2, .. }));
    assert!(matches!(&events[1], RunEvent::MapInfo { .. }));
    assert!(!events[0].ends_run());
    assert!(RunEvent::RunComplete.ends_run());
    assert_eq!(opening_events(4096, 2, vec![], 1, true, None, None).len(), 1);
}

#[test]
fn levels_are_named() {
    let levels = [
        LogLevel::Error,
        LogLevel::Warn,
        LogLevel::Info,
        LogLevel::Debug,
        LogLevel::Trace,
    ];
    let names: Vec<&str> = levels.iter().map(|l| l.label()).collect();
    assert_eq!(names, ["ERROR", "WARN", "INFO", "DEBUG", "TRACE"]);
}

fn record(fields: &[(&str, &str)]) -> LogRecord {
    let mut record = LogRecord::new();
    for (name, value) in fields {
        record.record(name.to_string(), value.to_string());
    }
    record
}

#[test]
fn forwards_message_level_and_fields_when_active() {
    let event = record(&[("message", "disk getting full"), ("count", "3")])
        .into_event(LogLevel::Warn, "ferrite".to_owned());
    let RunEvent::Log { message, level, fields, .. } = event else {
        panic!("expected a Log event");
    };
    assert_eq!(message, "disk getting full");
    assert_eq!(level, LogLevel::Warn);
    assert_eq!(fields, [("count".to_owned(), "3".to_owned())]);
}

#[test]
fn target_is_captured() {
    let event = record(&[("message", "hello")]).into_event(LogLevel::Info, "ferrite::demo".to_owned());
    let RunEvent::Log { message, level, target, .. } = event else {
        panic!("expected a Log event");
    };
    assert_eq!(message, "hello");
    assert_eq!(target, "ferrite::demo");
    assert_eq!(level, LogLevel::Info);
}

#[test]
fn str_valued_field_is_captured() {
    let event = record(&[("host", "roman"), ("message", "connected")])
        .into_event(LogLevel::Info, "ferrite".to_owned());
    let RunEvent::Log { fields, .. } = event else {
        panic!("expected a Log event");
    };
    assert_eq!(fields, [("host".to_owned(), "roman".to_owned())]);
}

#[test]
fn a_field_that_is_recorded_again_is_replaced() {
    let r = record(&[("a", "1"), ("b", "2"), ("a", "3")]);
    assert_eq!(
        r.fields,
        [("a".to_owned(), "3".to_owned()), ("b".to_owned(), "2".to_owned())]
    );
    assert_eq!(r.message, "");
}
