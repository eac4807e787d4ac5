//! The event stream.

use ferrite::dimm::{DimmEntry, DimmTopology};
use ferrite::edac::EccDelta;
use ferrite::events::{LogLevel, RegionEvent, RunEvent};
use ferrite::ndjson::{
    project, Event, FailureRecord, NdjsonEventWriter, WriteOutcome, WriteStep, SCHEMA_VERSION,
};
use ferrite::pattern::Pattern;
use ferrite::physmem::phys::{MapStats, PhysAddr};
use ferrite::results::json::{as_flag, as_list, as_text, as_unsigned, get, Json};
use ferrite::results::serial::read_json;
use ferrite::units::PlainUnits;
use ferrite::Failure;

const MILLISECOND: u64 = 1_000_000;
const SECOND: u64 = 1_000_000_000;

/// A stream whose lines are kept.
struct Stream {
    writer: NdjsonEventWriter,
    lines: Vec<Json>,
}

impl Stream {
    fn new() -> Self {
        let (writer, header) = NdjsonEventWriter::new();
        let mut stream = Stream { writer, lines: vec![] };
        stream.keep(Some(header));
        stream
    }

    fn keep(&mut self, line: Option<Event>) {
        if let Some(line) = line {
            let written = line.to_line(&jiff::Timestamp::now(), &PlainUnits);
            self.lines.push(read_json(&written).unwrap());
        }
    }

    fn handle_event(&mut self, event: &RunEvent) {
        let line = self.writer.handle_event(event);
        self.keep(line);
    }

    fn write_run_complete(&mut self, passes: usize, total_failures: usize, elapsed: u64) {
        let line = self.writer.write_run_complete(passes, total_failures, elapsed);
        self.keep(line);
    }
}

fn text<'a>(node: &'a Json, key: &str) -> &'a str {
    as_text(get(Some(node), key)).unwrap()
}

fn number(node: &Json, key: &str) -> u64 {
    as_unsigned(get(Some(node), key)).unwrap()
}

fn items<'a>(node: &'a Json, key: &str) -> &'a [Json] {
    as_list(get(Some(node), key)).unwrap()
}

fn duration_ms(node: &Json) -> f64 {
    match get(Some(node), "duration_ms") {
        Some(Json::Number(digits)) => digits.parse().unwrap(),
        other => panic!("{other:?}"),
    }
}

fn assert_has_timestamp(event: &Json) {
    let ts = as_text(get(Some(event), "timestamp")).expect("missing timestamp field");
    assert!(ts.ends_with('Z'), "timestamp should be UTC: {ts}");
    assert!(ts.contains('T'), "timestamp should be ISO 8601: {ts}");
}

#[test]
fn header_emitted_on_construction() {
    let w = Stream::new();
    let events = w.lines;
    assert_eq!(events.len(), 1);
    assert_eq!(text(&events[0], "event"), "header");
    assert_eq!(number(&events[0], "schema_version"), 1);
    assert_has_timestamp(&events[0]);
}

#[test]
fn run_start_event() {
    let mut w = Stream::new();
    w.handle_event(&RunEvent::RunStart {
        size: 1_073_741_824,
        passes: 2,
        patterns: vec![Pattern::SolidBits, Pattern::WalkingOnes],
        regions: 4,
        parallel: true,
    });
    let events = w.lines;
    // header + run_start
    assert_eq!(events.len(), 2);
    let e = &events[1];
    assert_eq!(text(e, "event"), "run_start");
    assert_eq!(number(e, "size"), 1_073_741_824);
    assert_eq!(number(e, "passes"), 2);
    assert_eq!(number(e, "regions"), 4);
    assert!(as_flag(get(Some(e), "parallel")));
    assert_eq!(items(e, "patterns").len(), 2);
    assert_has_timestamp(e);
}

#[test]
fn run_complete_event() {
    let mut w = Stream::new();
    w.write_run_complete(3, 5, 10 * SECOND);
    let events = w.lines;
    // header + run_complete
    assert_eq!(events.len(), 2);
    let e = &events[1];
    assert_eq!(text(e, "event"), "run_complete");
    assert_eq!(number(e, "passes"), 3);
    assert_eq!(number(e, "total_failures"), 5);
    assert!(duration_ms(e) > 0.0);
    assert_has_timestamp(e);
}

#[test]
fn run_complete_internal_event_ignored() {
    let mut w = Stream::new();
    w.handle_event(&RunEvent::RunComplete);
    let events = w.lines;
    // Only header — RunComplete from event bus is a no-op;
    // the summary is written explicitly via write_run_complete.
    assert_eq!(events.len(), 1);
}

#[test]
fn dimm_info_event() {
    let mut w = Stream::new();
    let topology = DimmTopology {
        dimms: vec![
            DimmEntry {
                edac: None,
                smbios: None,
            },
            DimmEntry {
                edac: None,
                smbios: None,
            },
        ],
    };
    w.handle_event(&RunEvent::DimmInfo { topology });
    let events = w.lines;
    assert_eq!(events.len(), 2);
    let e = &events[1];
    assert_eq!(text(e, "event"), "dimm_info");
    assert_eq!(number(e, "dimm_count"), 2);
    assert_has_timestamp(e);
}

#[test]
fn ndjson_log_event() {
    let mut w = Stream::new();
    w.handle_event(&RunEvent::Log {
        level: LogLevel::Warn,
        target: "ferrite::runner".to_owned(),
        message: "something happened".to_owned(),
        fields: vec![("key".to_owned(), "value".to_owned())],
    });
    let events = w.lines;
    assert_eq!(events.len(), 2);
    let e = &events[1];
    assert_eq!(text(e, "event"), "log");
    assert_eq!(text(e, "level"), "WARN");
    assert_eq!(text(e, "target"), "ferrite::runner");
    assert_eq!(text(e, "message"), "something happened");
    assert_eq!(text(get(Some(e), "fields").unwrap(), "key"), "value");
    assert_has_timestamp(e);
}

#[test]
fn log_event_empty_fields_omitted() {
    let mut w = Stream::new();
    w.handle_event(&RunEvent::Log {
        level: LogLevel::Info,
        target: "ferrite".to_owned(),
        message: "no fields".to_owned(),
        fields: vec![],
    });
    let events = w.lines;
    let e = &events[1];
    assert_eq!(text(e, "event"), "log");
    assert!(get(Some(e), "fields").is_none());
}

#[test]
fn pass_start_includes_region() {
    let mut w = Stream::new();
    w.handle_event(&RunEvent::Region(
        3,
        RegionEvent::PassStart {
            pass: 1,
            total_passes: 3,
        },
    ));
    let events = w.lines;
    assert_eq!(events.len(), 2);
    let e = &events[1];
    assert_eq!(text(e, "event"), "pass_start");
    assert_eq!(number(e, "region"), 3);
    assert_eq!(number(e, "pass"), 1);
    assert_eq!(number(e, "total_passes"), 3);
    assert_has_timestamp(e);
}

#[test]
fn test_start_includes_region() {
    let mut w = Stream::new();
    w.handle_event(&RunEvent::Region(
        2,
        RegionEvent::TestStart {
            pattern: Pattern::SolidBits,
            pass: 1,
        },
    ));
    let events = w.lines;
    let e = &events[1];
    assert_eq!(text(e, "event"), "test_start");
    assert_eq!(number(e, "region"), 2);
    assert_eq!(text(e, "pattern"), "Solid Bits");
}

#[test]
fn test_pass_includes_region() {
    let mut w = Stream::new();
    w.handle_event(&RunEvent::Region(
        1,
        RegionEvent::TestComplete {
            pattern: Pattern::Checkerboard,
            pass: 1,
            elapsed: 100 * MILLISECOND,
            bytes: 1024,
            failures: vec![],
        },
    ));
    let events = w.lines;
    let e = &events[1];
    assert_eq!(text(e, "event"), "test_pass");
    assert_eq!(number(e, "region"), 1);
    assert_eq!(text(e, "pattern"), "Checkerboard");
    assert!(duration_ms(e) > 0.0);
    assert_has_timestamp(e);
}

#[test]
fn test_fail_includes_region_and_failures() {
    let mut w = Stream::new();
    let failures = vec![Failure {
        addr: 0x1000,
        expected: 0xFF,
        actual: 0xFE,
        word_index: 0,
        phys_addr: Some(PhysAddr(0xABCD)),
    }];
    w.handle_event(&RunEvent::Region(
        0,
        RegionEvent::TestComplete {
            pattern: Pattern::WalkingOnes,
            pass: 2,
            elapsed: 50 * MILLISECOND,
            bytes: 512,
            failures,
        },
    ));
    let events = w.lines;
    let e = &events[1];
    assert_eq!(text(e, "event"), "test_fail");
    assert_eq!(number(e, "region"), 0);
    let f = &items(e, "failures")[0];
    assert_eq!(number(f, "flipped_bits"), 1);
    assert_eq!(as_text(get(Some(f), "phys_addr")), Some("0xabcd"));
    assert_eq!(number(f, "word_index"), 0);
}

#[test]
fn pass_complete_includes_region() {
    let mut w = Stream::new();
    w.handle_event(&RunEvent::Region(
        0,
        RegionEvent::PassComplete {
            pass: 1,
            failures: 5,
            elapsed: 2 * SECOND,
        },
    ));
    let events = w.lines;
    let e = &events[1];
    assert_eq!(text(e, "event"), "pass_complete");
    assert_eq!(number(e, "region"), 0);
    assert_eq!(number(e, "failures"), 5);
}

#[test]
fn progress_includes_region() {
    let mut w = Stream::new();
    w.handle_event(&RunEvent::Region(
        0,
        RegionEvent::Progress {
            pattern: Pattern::StuckAddress,
            pass: 1,
            sub_pass: 3,
            total: 5,
        },
    ));
    let events = w.lines;
    let e = &events[1];
    assert_eq!(text(e, "event"), "progress");
    assert_eq!(number(e, "region"), 0);
    assert_eq!(number(e, "sub_pass"), 3);
    assert_eq!(number(e, "total_sub_passes"), 5);
}

#[test]
fn ecc_deltas_includes_region() {
    let mut w = Stream::new();
    w.handle_event(&RunEvent::Region(
        0,
        RegionEvent::EccDeltas {
            pass: 1,
            deltas: vec![EccDelta {
                mc: 0,
                dimm_index: 1,
                label: Some("DIMM_A1".to_owned()),
                ce_delta: 2,
                ue_delta: 0,
            }],
        },
    ));
    let events = w.lines;
    let e = &events[1];
    assert_eq!(text(e, "event"), "ecc_deltas");
    assert_eq!(number(e, "region"), 0);
    assert_eq!(number(&items(e, "deltas")[0], "ce_delta"), 2);
}

#[test]
fn ndjson_map_info_event() {
    let mut w = Stream::new();
    w.handle_event(&RunEvent::MapInfo {
        stats: MapStats {
            total_pages: 100,
            resolved_pages: 100,
            huge_pages: 5,
            thp_pages: 10,
            hwpoison_pages: 0,
            unevictable_pages: 90,
        },
    });
    let events = w.lines;
    assert_eq!(events.len(), 2);
    let e = &events[1];
    assert_eq!(text(e, "event"), "map_info");
    assert_eq!(number(e, "total_pages"), 100);
    assert_eq!(number(e, "huge_pages"), 5);
    assert_has_timestamp(e);
}

#[test]
fn failure_record_from_without_phys() {
    let f = Failure {
        addr: 0x2000,
        expected: 0xAAAA,
        actual: 0xBBBB,
        word_index: 5,
        phys_addr: None,
    };
    let r = FailureRecord::from(&f);
    assert!(r.phys_addr.is_none());
    assert_eq!(r.word_index, 5);
    assert_eq!(r.flipped_bits, f.flipped_bits());
}

#[test]
fn full_event_sequence() {
    let mut w = Stream::new();
    w.handle_event(&RunEvent::RunStart {
        size: 1024,
        passes: 1,
        patterns: vec![Pattern::SolidBits],
        regions: 1,
        parallel: false,
    });
    w.handle_event(&RunEvent::Region(
        0,
        RegionEvent::PassStart {
            pass: 1,
            total_passes: 1,
        },
    ));
    w.handle_event(&RunEvent::Region(
        0,
        RegionEvent::TestStart {
            pattern: Pattern::SolidBits,
            pass: 1,
        },
    ));
    w.handle_event(&RunEvent::Region(
        0,
        RegionEvent::TestComplete {
            pattern: Pattern::SolidBits,
            pass: 1,
            elapsed: 50 * MILLISECOND,
            bytes: 1024,
            failures: vec![],
        },
    ));
    w.handle_event(&RunEvent::Region(
        0,
        RegionEvent::PassComplete {
            pass: 1,
            failures: 0,
            elapsed: 100 * MILLISECOND,
        },
    ));
    w.write_run_complete(1, 0, 100 * MILLISECOND);
    let events = w.lines;
    assert_eq!(events.len(), 7);
    assert_eq!(text(&events[0], "event"), "header");
    assert_eq!(text(&events[1], "event"), "run_start");
    assert_eq!(text(&events[2], "event"), "pass_start");
    assert_eq!(text(&events[3], "event"), "test_start");
    assert_eq!(text(&events[4], "event"), "test_pass");
    assert_eq!(text(&events[5], "event"), "pass_complete");
    assert_eq!(text(&events[6], "event"), "run_complete");

    // Every event has a timestamp
    for e in &events {
        assert_has_timestamp(e);
    }
}

#[test]
fn broken_pipe_suppresses_further_writes() {
    let (mut w, _) = NdjsonEventWriter::new();
    let first = RunEvent::Region(0, RegionEvent::PassStart { pass: 1, total_passes: 1 });
    assert!(w.handle_event(&first).is_some());
    let notice = w.note(WriteStep::Event, WriteOutcome::PipeClosed);
    assert_eq!(
        notice.as_deref(),
        Some("warning: JSON output pipe closed; no further events will be written")
    );
    assert!(w.broken_pipe);

    // Nothing is written any more, not even the end of the run.
    let second = RunEvent::Region(0, RegionEvent::PassStart { pass: 2, total_passes: 2 });
    assert!(w.handle_event(&second).is_none());
    assert!(w.write_run_complete(2, 0, SECOND).is_none());
}

#[test]
fn stdout_writer() {
    assert!(NdjsonEventWriter::is_stdout("-"));
    let (w, _) = NdjsonEventWriter::new();
    assert!(!w.broken_pipe);
}

#[test]
fn empty_path_is_stdout() {
    assert!(NdjsonEventWriter::is_stdout(""));
    assert!(!NdjsonEventWriter::is_stdout("events.ndjson"));
}

#[test]
fn other_failures_do_not_end_the_stream() {
    let (mut w, _) = NdjsonEventWriter::new();
    assert_eq!(w.note(WriteStep::Event, WriteOutcome::Written), None);
    assert_eq!(
        w.note(WriteStep::Event, WriteOutcome::Failed("full".to_owned())).as_deref(),
        Some("warning: failed to write JSON event: full")
    );
    assert_eq!(
        w.note(WriteStep::Newline, WriteOutcome::Failed("full".to_owned())).as_deref(),
        Some("warning: failed to write JSON newline: full")
    );
    assert_eq!(
        w.note(WriteStep::Flush, WriteOutcome::Failed("full".to_owned())).as_deref(),
        Some("warning: failed to flush JSON output: full")
    );
    assert!(!w.broken_pipe);
}

#[test]
fn a_record_writes_words_in_hexadecimal() {
    let f = Failure {
        addr: 0x2000,
        expected: 0xAAAA,
        actual: 0xBBBB,
        word_index: 5,
        phys_addr: Some(PhysAddr(0x1f)),
    };
    let r = FailureRecord::from(&f);
    assert_eq!(r.addr, "0x0000000000002000");
    assert_eq!(r.expected, "0x000000000000aaaa");
    assert_eq!(r.actual, "0x000000000000bbbb");
    assert_eq!(r.xor, "0x0000000000001111");
    assert_eq!(r.flipped_bits, 4);
    assert_eq!(r.phys_addr.as_deref(), Some("0x1f"));
}

#[test]
fn the_end_of_a_run_is_not_projected() {
    assert!(project(&RunEvent::RunComplete).is_none());
    assert_eq!(SCHEMA_VERSION, 1);
}

#[test]
fn a_label_that_is_missing_is_left_out() {
    let mut w = Stream::new();
    w.handle_event(&RunEvent::Region(
        0,
        RegionEvent::EccDeltas {
            pass: 1,
            deltas: vec![EccDelta { mc: 0, dimm_index: 1, label: None, ce_delta: 0, ue_delta: 4 }],
        },
    ));
    let delta = &items(&w.lines[1], "deltas")[0];
    assert!(get(Some(delta), "label").is_none());
    assert_eq!(number(delta, "ue_delta"), 4);
}
