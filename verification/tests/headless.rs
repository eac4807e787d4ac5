//! The printer of a run without a terminal.

use ferrite::dimm::{DimmEntry, DimmTopology};
use ferrite::edac::{DimmEdac, EccDelta};
use ferrite::events::{LogLevel, RegionEvent, RunEvent};
use ferrite::headless::{truncated, HeadlessPrinter, SHOWN_FAILURES};
use ferrite::pattern::Pattern;
use ferrite::physmem::phys::MapStats;
use ferrite::units::PlainUnits;
use ferrite::Failure;

const MILLISECOND: u64 = 1_000_000;
const SECOND: u64 = 1_000_000_000;

/// Builds a failure: what is not given is zero, the word index follows from the
/// address.
#[derive(Default)]
struct FailureBuilder {
    addr: usize,
    expected: u64,
    actual: u64,
}

impl FailureBuilder {
    fn addr(mut self, addr: usize) -> Self {
        self.addr = addr;
        self
    }

    fn expected(mut self, expected: u64) -> Self {
        self.expected = expected;
        self
    }

    fn actual(mut self, actual: u64) -> Self {
        self.actual = actual;
        self
    }

    fn build(self) -> Failure {
        Failure {
            addr: self.addr,
            expected: self.expected,
            actual: self.actual,
            word_index: self.addr / 8,
            phys_addr: None,
        }
    }
}

fn printer() -> HeadlessPrinter<PlainUnits> {
    HeadlessPrinter::new(PlainUnits)
}

#[test]
fn banner_parallel() {
    let mut p = printer();
    p.handle_event(&RunEvent::RunStart {
        size: 1024 * 1024 * 1024,
        passes: 2,
        patterns: vec![Pattern::SolidBits, Pattern::Checkerboard],
        regions: 1,
        parallel: true,
    });
    let out = &p.out;
    assert!(out.contains("ferrite"));
    assert!(out.contains("2 pass(es)"));
    assert!(out.contains("2 pattern(s)"));
    assert!(!out.contains("sequential"));
}

#[test]
fn banner_sequential() {
    let mut p = printer();
    p.handle_event(&RunEvent::RunStart {
        size: 1024 * 1024,
        passes: 1,
        patterns: vec![Pattern::SolidBits],
        regions: 1,
        parallel: false,
    });
    let out = &p.out;
    assert!(out.contains("(sequential)"));
}

#[test]
fn map_info_all_page_types() {
    let mut p = printer();
    p.handle_event(&RunEvent::MapInfo {
        stats: MapStats {
            total_pages: 100,
            resolved_pages: 100,
            huge_pages: 5,
            thp_pages: 10,
            hwpoison_pages: 1,
            unevictable_pages: 90,
        },
    });
    let out = &p.out;
    assert!(out.contains("100 pages mapped"));
    assert!(out.contains("10 THP"));
    assert!(out.contains("5 huge"));
    assert!(out.contains("hw-poisoned"));
}

#[test]
fn map_info_minimal() {
    let mut p = printer();
    p.handle_event(&RunEvent::MapInfo {
        stats: MapStats {
            total_pages: 50,
            resolved_pages: 50,
            huge_pages: 0,
            thp_pages: 0,
            hwpoison_pages: 0,
            unevictable_pages: 50,
        },
    });
    let out = &p.out;
    assert!(out.contains("50 pages mapped"));
    assert!(!out.contains("THP"));
    assert!(!out.contains("huge"));
}

#[test]
fn test_result_pass() {
    let mut p = printer();
    p.handle_event(&RunEvent::Region(
        0,
        RegionEvent::TestComplete {
            pattern: Pattern::SolidBits,
            pass: 1,
            elapsed: 100 * MILLISECOND,
            bytes: 1024 * 1024,
            failures: vec![],
        },
    ));
    let out = &p.out;
    assert!(out.contains("PASS"));
    assert!(out.contains("Solid Bits"));
}

#[test]
fn test_result_fail() {
    let mut p = printer();
    let failures = vec![
        FailureBuilder::default()
            .addr(0x1000)
            .expected(0xFF)
            .actual(0xFE)
            .build(),
    ];
    p.handle_event(&RunEvent::Region(
        0,
        RegionEvent::TestComplete {
            pattern: Pattern::WalkingOnes,
            pass: 1,
            elapsed: 50 * MILLISECOND,
            bytes: 512 * 1024,
            failures,
        },
    ));
    let out = &p.out;
    assert!(out.contains("FAIL"));
    assert!(out.contains("1 failures"));
}

#[test]
fn ecc_deltas() {
    let mut p = printer();
    p.handle_event(&RunEvent::Region(
        0,
        RegionEvent::EccDeltas {
            pass: 1,
            deltas: vec![
                EccDelta {
                    mc: 0,
                    dimm_index: 0,
                    label: Some("DIMM_A1".to_owned()),
                    ce_delta: 3,
                    ue_delta: 0,
                },
                EccDelta {
                    mc: 0,
                    dimm_index: 1,
                    label: None,
                    ce_delta: 0,
                    ue_delta: 1,
                },
            ],
        },
    ));
    let out = &p.out;
    assert!(out.contains("ECC"));
    assert!(out.contains("3 correctable"));
    assert!(out.contains("DIMM_A1"));
    assert!(out.contains("uncorrectable"));
    assert!(out.contains("mc0/dimm1"));
}

#[test]
fn pass_summary_clean() {
    let mut p = printer();
    p.total_passes = 2;
    p.handle_event(&RunEvent::Region(
        0,
        RegionEvent::PassComplete {
            pass: 1,
            failures: 0,
            elapsed: 5 * SECOND,
        },
    ));
    let out = &p.out;
    assert!(out.contains("Pass 1/2"));
    assert!(out.contains("all patterns passed"));
}

#[test]
fn pass_summary_failures() {
    let mut p = printer();
    p.total_passes = 3;
    p.handle_event(&RunEvent::Region(
        0,
        RegionEvent::PassComplete {
            pass: 2,
            failures: 5,
            elapsed: 10 * SECOND,
        },
    ));
    let out = &p.out;
    assert!(out.contains("Pass 2/3"));
    assert!(out.contains("5 total failure(s)"));
}

#[test]
fn final_result_pass() {
    let mut p = printer();
    p.print_final_result(0);
    let out = &p.out;
    assert!(out.contains("All tests passed"));
}

#[test]
fn final_result_fail() {
    let mut p = printer();
    p.print_final_result(7);
    let out = &p.out;
    assert!(out.contains("7 failure(s) detected"));
}

#[test]
fn consume_full_sequence() {
    let mut events: Vec<RunEvent> = vec![];
    events.push(RunEvent::RunStart {
        size: 1024,
        passes: 1,
        patterns: vec![Pattern::SolidBits],
        regions: 1,
        parallel: true,
    });
    events.push(RunEvent::Region(
        0,
        RegionEvent::PassStart {
            pass: 1,
            total_passes: 1,
        },
    ));
    events.push(RunEvent::Region(
        0,
        RegionEvent::TestComplete {
            pattern: Pattern::SolidBits,
            pass: 1,
            elapsed: 10 * MILLISECOND,
            bytes: 2048,
            failures: vec![],
        },
    ));
    events.push(RunEvent::Region(
        0,
        RegionEvent::PassComplete {
            pass: 1,
            failures: 0,
            elapsed: 10 * MILLISECOND,
        },
    ));
    events.push(RunEvent::RunComplete);

    let mut p = printer();
    let taken = p.consume(&events);
    assert_eq!(taken, events.len());
    let out = &p.out;
    assert!(out.contains("ferrite"));
    assert!(out.contains("PASS"));
    assert!(out.contains("all patterns passed"));
}

#[test]
fn ignored_events_produce_no_output() {
    let mut p = printer();
    p.handle_event(&RunEvent::Region(
        0,
        RegionEvent::PassStart {
            pass: 1,
            total_passes: 1,
        },
    ));
    p.handle_event(&RunEvent::Region(
        0,
        RegionEvent::TestStart {
            pattern: Pattern::SolidBits,
            pass: 1,
        },
    ));
    p.handle_event(&RunEvent::Region(
        0,
        RegionEvent::Progress {
            pattern: Pattern::SolidBits,
            pass: 1,
            sub_pass: 1,
            total: 2,
        },
    ));
    p.handle_event(&RunEvent::Log {
        level: LogLevel::Info,
        target: "test".to_owned(),
        message: "msg".to_owned(),
        fields: vec![],
    });
    assert!(p.out.is_empty());
}

#[test]
fn truncated_display_within_limit() {
    let failures: Vec<Failure> = (0..3)
        .map(|i| {
            FailureBuilder::default()
                .addr(i * 8)
                .expected(0xFF)
                .actual(0xFE)
                .build()
        })
        .collect();
    let s = truncated(&failures, 5);
    assert!(!s.contains("more"));
    assert_eq!(s.lines().count(), 3);
}

#[test]
fn truncated_display_exceeds_limit() {
    let failures: Vec<Failure> = (0..10)
        .map(|i| {
            FailureBuilder::default()
                .addr(i * 8)
                .expected(0xFF)
                .actual(0xFE)
                .build()
        })
        .collect();
    let s = truncated(&failures, 3);
    assert!(s.contains("...+7 more"));
}

#[test]
fn truncated_display_empty() {
    let failures: Vec<Failure> = vec![];
    let s = truncated(&failures, 5);
    assert!(s.is_empty());
}

#[test]
fn dimm_info_printed() {
    let mut p = printer();
    let topology = DimmTopology {
        dimms: vec![DimmEntry {
            edac: Some(DimmEdac {
                mc: 0,
                dimm_index: 0,
                label: Some("DIMM_A1".to_owned()),
                location: None,
                ce_count: 0,
                ue_count: 0,
            }),
            smbios: None,
        }],
    };
    p.handle_event(&RunEvent::DimmInfo { topology });
    let out = &p.out;
    assert!(out.contains("Installed DIMMs"));
    assert!(out.contains("DIMM_A1"));
}

#[test]
fn consume_stops_on_disconnect() {
    let mut events: Vec<RunEvent> = vec![];
    events.push(RunEvent::RunStart {
        size: 1024,
        passes: 1,
        patterns: vec![],
        regions: 1,
        parallel: true,
    });

    let mut p = printer();
    let taken = p.consume(&events);
    assert_eq!(taken, events.len());
    let out = &p.out;
    assert!(out.contains("ferrite"));
}

#[test]
fn nothing_after_the_end_of_a_run_is_shown() {
    let events = vec![
        RunEvent::RunComplete,
        RunEvent::RunStart {
            size: 1024,
            passes: 1,
            patterns: vec![],
            regions: 1,
            parallel: true,
        },
    ];
    let mut p = printer();
    assert_eq!(p.consume(&events), 1);
    assert!(p.out.is_empty());
}

#[test]
fn no_more_failures_are_shown_than_fit() {
    let failures: Vec<Failure> = (0..SHOWN_FAILURES + 2)
        .map(|i| FailureBuilder::default().addr(i * 8).expected(1).build())
        .collect();
    let s = truncated(&failures, SHOWN_FAILURES);
    assert_eq!(s.lines().count(), SHOWN_FAILURES + 1);
    assert!(s.contains("...+2 more"));
}

#[test]
fn verdicts_are_colored() {
    let mut p = printer();
    p.print_final_result(0);
    assert!(p.out.contains("\u{1b}[32m"), "{:?}", p.out);
    let mut p = printer();
    p.print_final_result(1);
    assert!(p.out.contains("\u{1b}[31m"), "{:?}", p.out);
}

#[test]
fn emphasis_is_exact() {
    let mut p = printer();
    p.handle_event(&RunEvent::Region(
        0,
        RegionEvent::EccDeltas {
            pass: 2,
            deltas: vec![EccDelta {
                mc: 0,
                dimm_index: 3,
                label: None,
                ce_delta: 4,
                ue_delta: 1,
            }],
        },
    ));
    assert_eq!(
        p.out,
        "  \u{1b}[1m\u{1b}[33mECC\u{1b}[39m\u{1b}[0m ECC pass 2: 4 correctable, 1 \
         \u{1b}[1m\u{1b}[31muncorrectable\u{1b}[39m\u{1b}[0m on mc0/dimm3\n"
    );
}
