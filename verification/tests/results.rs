//! Results as documents and tables.

use ferrite::error_analysis::{self, ErrorClassification};
use ferrite::pattern::Pattern;
use ferrite::physmem::gap::GapReport;
use ferrite::physmem::phys::{IoFailure, IoKind, PhysAddr};
use ferrite::physmem::sysmem::{Coverage, Cumulative, RamSource};
use ferrite::results::json::Json;
use ferrite::results::render::{
    document_is_countable, render_ceiling_report, write_pattern_result_line, JsonRenderer,
    ResultsRenderer, TableRenderer,
};
use ferrite::results::ResultsDoc;
use ferrite::runner::{PassResult, PatternResult, RunConfig, RunResults};
use ferrite::units::{PlainUnits, Units};
use ferrite::Failure;

const MILLISECOND: u64 = 1_000_000;
const SECOND: u64 = 1_000_000_000;
const GIB: u64 = 1024 * 1024 * 1024;

/// Builds a failure: what is not given is zero, the word index follows from the
/// address.
#[derive(Default)]
struct FailureBuilder {
    addr: usize,
    expected: u64,
    actual: u64,
    phys: Option<u64>,
}

impl FailureBuilder {
    fn addr(mut self, addr: usize) -> Self {
        self.addr = addr;
        self
    }

    fn expected(mut self, expected: u64) -> Self {
        self.expected = expected;
        self
    }

    fn actual(mut self, actual: u64) -> Self {
        self.actual = actual;
        self
    }

    fn phys(mut self, phys: u64) -> Self {
        self.phys = Some(phys);
        self
    }

    fn build(self) -> Failure {
        Failure {
            addr: self.addr,
            expected: self.expected,
            actual: self.actual,
            word_index: self.addr / 8,
            phys_addr: self.phys.map(PhysAddr),
        }
    }
}

/// Quantities with binary prefixes and three significant digits.
#[derive(Clone, Copy)]
struct BinaryUnits;

fn significant(value: f64) -> String {
    if value >= 100.0 {
        format!("{value:.0}")
    } else if value >= 10.0 {
        format!("{value:.1}")
    } else {
        format!("{value:.2}")
    }
}

fn elapsed_ms(node: Option<&Json>) -> f64 {
    match node {
        Some(Json::Unsigned(n)) => *n as f64,
        Some(Json::Number(digits)) => digits.parse().unwrap(),
        _ => 0.0,
    }
}

impl Units for BinaryUnits {
    fn size(&self, bytes: u64) -> String {
        let mut value = bytes as f64;
        for unit in ["B", "KiB", "MiB"] {
            if value < 1024.0 {
                return format!("{} {unit}", significant(value));
            }
            value /= 1024.0;
        }
        format!("{} GiB", significant(value))
    }

    fn rounded_size(&self, bytes: u64) -> String {
        self.size(bytes)
    }

    fn count(&self, n: u64) -> String {
        if n < 1000 {
            n.to_string()
        } else {
            format!("{},{:03}", self.count(n / 1000), n % 1000)
        }
    }

    fn percent(&self, part: u64, whole: u64) -> String {
        let pct = if whole == 0 {
            0.0
        } else {
            part as f64 / whole as f64 * 100.0
        };
        if pct >= 1.0 {
            format!("{pct:.1}%")
        } else if pct >= 0.01 {
            format!("{pct:.2}%")
        } else {
            format!("{pct:.3}%")
        }
    }

    fn rounded_percent(&self, part: u64, whole: u64) -> String {
        format!("{:.1}%", part as f64 / whole as f64 * 100.0)
    }

    fn elapsed(&self, elapsed: Option<&Json>) -> String {
        let ms = elapsed_ms(elapsed);
        if ms < 1000.0 {
            format!("{ms:.1} ms")
        } else {
            format!("{:.2} s", ms / 1000.0)
        }
    }

    fn rate(&self, bytes: u64, elapsed: Option<&Json>) -> String {
        format!("{} B/s", bytes as f64 / elapsed_ms(elapsed) * 1000.0)
    }

    fn millis(&self, nanos: u64) -> String {
        format!("{:.1}", nanos as f64 / 1e6)
    }

    fn throughput(&self, bytes: u64, nanos: u64) -> String {
        format!("{} B/s", bytes as f64 / nanos as f64 * 1e9)
    }

    fn millis_number(&self, nanos: u64) -> String {
        format!("{:?}", nanos as f64 / 1e6)
    }
}

fn doc_of(results: &RunResults) -> ResultsDoc {
    ResultsDoc::from_results(results, &BinaryUnits)
}

fn parsed(text: &str) -> ResultsDoc {
    ResultsDoc::from_file(Ok(text.to_owned())).unwrap()
}

fn render_to_string(results: &RunResults) -> String {
    let doc = doc_of(results);
    assert!(document_is_countable(&doc));
    TableRenderer::new(BinaryUnits).render(&doc)
}

fn render_full_to_string(results: &RunResults) -> String {
    let doc = doc_of(results);
    assert!(document_is_countable(&doc));
    TableRenderer::full(BinaryUnits).render(&doc)
}

fn line(failure_count: u64, interrupted: bool, capped: bool) -> String {
    write_pattern_result_line(
        "Solid Bits",
        "12.3 ms",
        "954 MiB/s",
        failure_count,
        &BinaryUnits.count(failure_count),
        interrupted,
        capped,
    )
}

fn render(cumulative: u64, installed: u64, runs: u64, gap: Option<GapReport>) -> String {
    render_ceiling_report(&BinaryUnits, cumulative, installed, runs, gap)
}

fn make_config() -> RunConfig {
    RunConfig {
        size: 8192,
        passes: 1,
        patterns: vec![Pattern::SolidBits],
        workers: 1,
    }
}

fn clean_results() -> RunResults {
    RunResults::from_passes(
        vec![PassResult {
            pass_number: 1,
            pattern_results: vec![PatternResult {
                pattern: Pattern::SolidBits,
                failures: vec![],
                elapsed: 100 * MILLISECOND,
                bytes_processed: 8192,
                interrupted: false,
                capped: false,
            }],
            ecc_deltas: vec![],
        }],
        make_config(),
        100 * MILLISECOND,
    )
}

fn failing_results() -> RunResults {
    let failures = vec![
        FailureBuilder::default()
            .addr(0x1000)
            .expected(0x0)
            .actual(1 << 20)
            .phys(0x5000)
            .build(),
        FailureBuilder::default()
            .addr(0x2000)
            .expected(0x0)
            .actual(1 << 20)
            .phys(0x9000)
            .build(),
    ];
    let mut results = RunResults::from_passes(
        vec![PassResult {
            pass_number: 1,
            pattern_results: vec![PatternResult {
                pattern: Pattern::SolidBits,
                failures,
                elapsed: 50 * MILLISECOND,
                bytes_processed: 8192,
                interrupted: false,
                capped: false,
            }],
            ecc_deltas: vec![],
        }],
        make_config(),
        50 * MILLISECOND,
    );
    error_analysis::analyze(&mut results);
    results
}

/// One pass, two patterns -- distinct timings and sizes so per-pattern
/// rendering is observable.
fn multi_pattern_results() -> RunResults {
    RunResults::from_passes(
        vec![PassResult {
            pass_number: 1,
            pattern_results: vec![
                PatternResult {
                    pattern: Pattern::SolidBits,
                    failures: vec![],
                    elapsed: 100 * MILLISECOND,
                    bytes_processed: 8192,
                    interrupted: false,
                    capped: false,
                },
                PatternResult {
                    pattern: Pattern::Checkerboard,
                    failures: vec![],
                    elapsed: 50 * MILLISECOND,
                    bytes_processed: 4096,
                    interrupted: false,
                    capped: false,
                },
            ],
            ecc_deltas: vec![],
        }],
        RunConfig {
            size: 16384,
            passes: 1,
            patterns: vec![Pattern::SolidBits, Pattern::Checkerboard],
            workers: 4,
        },
        150 * MILLISECOND,
    )
}

/// Clean results with measured coverage: 64 MiB tested of 32 GiB installed.
fn covered_results() -> RunResults {
    let mut r = clean_results();
    r.coverage = Coverage::Measured {
        tested_bytes: 64 * 1024 * 1024,
        total_bytes: 32 * 1024 * 1024 * 1024,
        source: RamSource::ProcIomem,
        cumulative: None,
        gap: None,
    };
    r
}

#[test]
fn results_from_clean_results() {
    let doc = doc_of(&clean_results());
    assert_eq!(doc.total_failures(), 0);
    assert!(doc.error_analysis().is_none());
    assert!(elapsed_ms(doc.elapsed()) > 0.0);
}

#[test]
fn results_from_failing_results() {
    let doc = doc_of(&failing_results());
    assert_eq!(doc.total_failures(), 2);
    let ea = doc.error_analysis().unwrap();
    assert!(ea.classification_str().contains("stuck bit"));
    assert_eq!(ea.union_xor_mask(), 1 << 20);
    assert_eq!(ea.lowest_phys(), Some(0x5000));
    assert_eq!(ea.highest_phys(), Some(0x9000));
}

#[test]
fn results_passes_iteration() {
    let doc = doc_of(&clean_results());
    let passes = doc.passes();
    assert_eq!(passes.len(), 1);
    assert_eq!(passes[0].pass_number(), 1);
    assert_eq!(passes[0].total_failures(), 0);
}

#[test]
fn results_pattern_results_iteration() {
    let doc = doc_of(&clean_results());
    let passes = doc.passes();
    let pass = &passes[0];
    let patterns = pass.pattern_results();
    assert_eq!(patterns.len(), 1);
    assert_eq!(patterns[0].pattern_name(), "SolidBits");
    assert!(elapsed_ms(patterns[0].elapsed()) > 0.0);
    assert_eq!(patterns[0].bytes_processed(), 8192);
    assert_eq!(patterns[0].failure_count(), 0);
}

#[test]
fn results_config_accessors() {
    let doc = doc_of(&clean_results());
    let cfg = doc.config();
    assert_eq!(cfg.size(), 8192);
    assert_eq!(cfg.passes(), 1);
    assert_eq!(cfg.workers(), 1);
}

#[test]
fn results_coverage_accessor_measured() {
    let doc = doc_of(&covered_results());
    let cov = doc.coverage().unwrap();
    assert!(cov.is_measured());
    assert_eq!(cov.tested_bytes(), 64 * 1024 * 1024);
    assert_eq!(cov.total_bytes(), 32u64 * 1024 * 1024 * 1024);
    assert_eq!(cov.source_label(), "/proc/iomem");
    let percent = cov.tested_bytes() as f64 / cov.total_bytes() as f64 * 100.0;
    assert!((percent - 0.195_312_5).abs() < 1e-6);
}

#[test]
fn results_coverage_accessor_unavailable() {
    let doc = doc_of(&clean_results());
    let cov = doc.coverage().unwrap();
    assert!(!cov.is_measured());
}

#[test]
fn results_coverage_absent_when_no_key() {
    let doc = parsed("{}");
    assert!(doc.coverage().is_none());
}

#[test]
fn results_from_json_roundtrip() {
    let results = clean_results();
    let written = JsonRenderer.render(&doc_of(&results));
    let doc = parsed(&written);
    assert_eq!(doc.total_failures(), 0);
    assert_eq!(doc.config().size(), 8192);
}

#[test]
fn results_error_analysis_per_pattern() {
    let doc = doc_of(&failing_results());
    let ea = doc.error_analysis().unwrap();
    let pp = ea.per_pattern_failures();
    assert_eq!(pp.len(), 1);
    assert_eq!(pp[0].0, "SolidBits");
    assert_eq!(pp[0].1, 2);
}

#[test]
fn results_error_analysis_bit_positions() {
    let doc = doc_of(&failing_results());
    let ea = doc.error_analysis().unwrap();
    let bp = ea.bit_positions();
    assert_eq!(bp.len(), 1);
    assert_eq!(bp[0], (20, 2));
}

#[test]
fn results_missing_fields_return_defaults() {
    let doc = parsed("{}");
    assert_eq!(doc.total_failures(), 0);
    assert!(elapsed_ms(doc.elapsed()).abs() < f64::EPSILON);
    assert!(doc.error_analysis().is_none());
    assert!(doc.passes().is_empty());
    assert_eq!(doc.config().size(), 0);
}

#[test]
fn results_coupling() {
    let doc = parsed(
        r#"{
        "error_analysis": {
            "classification": "Coupling",
            "union_xor_mask": 0,
            "bit_positions": [],
            "per_pattern_failures": []
        }
    }"#,
    );
    let ea = doc.error_analysis().unwrap();
    assert_eq!(ea.classification_str(), "coupling/disturbance errors");
}

#[test]
fn results_mixed() {
    let doc = parsed(
        r#"{
        "error_analysis": {
            "classification": "Mixed",
            "union_xor_mask": 0,
            "bit_positions": [],
            "per_pattern_failures": []
        }
    }"#,
    );
    let ea = doc.error_analysis().unwrap();
    assert_eq!(ea.classification_str(), "mixed (stuck + coupling)");
}

#[test]
fn results_stuck_bit() {
    let doc = parsed(
        r#"{
        "error_analysis": {
            "classification": {"StuckBit": {"positions": [5, 20]}},
            "union_xor_mask": 0,
            "bit_positions": [],
            "per_pattern_failures": []
        }
    }"#,
    );
    let ea = doc.error_analysis().unwrap();
    let s = ea.classification_str();
    assert!(s.contains("stuck bit"));
    assert!(s.contains("bit 5"));
    assert!(s.contains("bit 20"));
}

#[test]
fn results_full_renders_one_pass_block_per_pass() {
    let out = render_full_to_string(&multi_pattern_results());
    assert_eq!(out.matches("Pass 1/1").count(), 1);
    assert_eq!(out.matches("SolidBits").count(), 1);
    assert_eq!(out.matches("Checkerboard").count(), 1);
}

#[test]
fn results_full_renderer_flags_interrupted() {
    let results = RunResults::from_passes(
        vec![PassResult {
            pass_number: 1,
            pattern_results: vec![PatternResult {
                pattern: Pattern::SolidBits,
                failures: vec![],
                elapsed: 10 * MILLISECOND,
                bytes_processed: 1024,
                interrupted: true,
                capped: false,
            }],
            ecc_deltas: vec![],
        }],
        make_config(),
        10 * MILLISECOND,
    );
    let out = render_full_to_string(&results);
    assert!(out.contains("INTR"));
    assert!(out.contains("(interrupted)"));
    assert!(!out.contains("PASS"));
}

#[test]
fn results_clean_run_shows_passed() {
    let out = render_to_string(&clean_results());
    assert!(out.contains("All tests passed"));
}

#[test]
fn results_renders_measured_coverage_block() {
    let out = render_to_string(&covered_results());
    assert!(out.contains("Physical coverage"));
    assert!(out.contains("Tested:"));
    assert!(out.contains("64.0 MiB"));
    assert!(out.contains("Installed:"));
    assert!(out.contains("32.0 GiB"));
    assert!(out.contains("/proc/iomem"));
    assert!(out.contains("Coverage:"));
    assert!(out.contains("0.20%"));
}

#[test]
fn results_renders_unavailable_coverage_block() {
    // clean_results() defaults coverage to Unavailable.
    let out = render_to_string(&clean_results());
    assert!(out.contains("Physical coverage"));
    assert!(out.contains("unavailable"));
}

#[test]
fn results_renders_cumulative_lines_when_store_active() {
    let mut r = covered_results();
    r.coverage.attach_cumulative(Cumulative {
        new_bytes: 32 * 1024 * 1024,
        cumulative_bytes: 16 * 1024 * 1024 * 1024,
        runs: 3,
    });
    let out = render_to_string(&r);
    assert!(out.contains("New:       32.0 MiB this run"));
    assert!(out.contains("Cumulative: 16.0 GiB (50.0%) across 3 run(s)"));
}

#[test]
fn results_no_cumulative_lines_without_store() {
    let out = render_to_string(&covered_results());
    assert!(!out.contains("Cumulative:"));
    assert!(!out.contains("New:"));
}

#[test]
fn results_renders_gap_breakdown_when_classified() {
    let mut r = covered_results();
    r.coverage.attach_gap(GapReport {
        free_bytes: 2 * 1024 * 1024 * 1024,
        reclaimable_bytes: 1024 * 1024 * 1024,
        in_use_bytes: 512 * 1024 * 1024,
        unreachable_bytes: 256 * 1024 * 1024,
        unknown_bytes: 0,
    });
    let out = render_to_string(&r);
    assert!(out.contains("Untested:"));
    assert!(out.contains("3.75 GiB ="));
    assert!(out.contains("2.00 GiB free"));
    assert!(out.contains("1.00 GiB reclaimable"));
    assert!(out.contains("512 MiB in-use"));
    assert!(out.contains("256 MiB unreachable"));
    assert!(!out.contains("unknown"));
}

#[test]
fn results_gap_breakdown_includes_unknown_when_nonzero() {
    let mut r = covered_results();
    r.coverage.attach_gap(GapReport {
        unknown_bytes: 4096,
        ..GapReport::default()
    });
    let out = render_to_string(&r);
    assert!(out.contains("4.00 KiB unknown"));
}

#[test]
fn results_no_gap_breakdown_without_classification() {
    let out = render_to_string(&covered_results());
    assert!(!out.contains("Untested:"));
}

#[test]
fn results_failing_run_shows_error_analysis() {
    let out = render_to_string(&failing_results());
    assert!(out.contains("failure(s) detected"));
    assert!(out.contains("Error analysis"));
    assert!(out.contains("stuck bit"));
    assert!(out.contains("Affected bits"));
    assert!(out.contains("Physical address range"));
    assert!(out.contains("0x5000"));
    assert!(out.contains("0x9000"));
}

#[test]
fn results_shows_per_pattern_failures() {
    let out = render_to_string(&failing_results());
    assert!(out.contains("Per-pattern failures"));
    assert!(out.contains("SolidBits"));
}

#[test]
fn results_shows_bit_flip_counts() {
    let out = render_to_string(&failing_results());
    assert!(out.contains("Bit flip counts"));
    assert!(out.contains("bit 20"));
}

#[test]
fn results_shows_elapsed_time() {
    let out = render_to_string(&clean_results());
    // 100ms < 1s so should show as "100ms"
    assert!(out.contains("ms"));
}

#[test]
fn results_produces_valid_json() {
    let doc = doc_of(&clean_results());
    let written = JsonRenderer.render(&doc);
    let parsed: serde_json::Value = serde_json::from_str(&written).unwrap();
    assert_eq!(parsed["total_failures"], 0);
    assert!(parsed["config"].is_object());
}

#[test]
fn results_includes_error_analysis_when_present() {
    let doc = doc_of(&failing_results());
    let written = JsonRenderer.render(&doc);
    let parsed: serde_json::Value = serde_json::from_str(&written).unwrap();
    assert!(parsed["error_analysis"].is_object());
    assert_eq!(parsed["total_failures"], 2);
}

#[test]
fn results_includes_coverage_status() {
    let doc = doc_of(&clean_results());
    let written = JsonRenderer.render(&doc);
    let parsed: serde_json::Value = serde_json::from_str(&written).unwrap();
    assert_eq!(parsed["coverage"]["status"], "unavailable");
}

#[test]
fn mod_from_clean_results() {
    let doc = doc_of(&clean_results());
    assert_eq!(doc.total_failures(), 0);
    assert!(doc.error_analysis().is_none());
    assert!(elapsed_ms(doc.elapsed()) > 0.0);
}

#[test]
fn mod_from_failing_results() {
    let doc = doc_of(&failing_results());
    assert_eq!(doc.total_failures(), 2);
    let ea = doc.error_analysis().unwrap();
    assert!(ea.classification_str().contains("stuck bit"));
    assert_eq!(ea.union_xor_mask(), 1 << 20);
    assert_eq!(ea.lowest_phys(), Some(0x5000));
    assert_eq!(ea.highest_phys(), Some(0x9000));
}

#[test]
fn mod_passes_iteration() {
    let doc = doc_of(&clean_results());
    let passes = doc.passes();
    assert_eq!(passes.len(), 1);
    assert_eq!(passes[0].pass_number(), 1);
    assert_eq!(passes[0].total_failures(), 0);
}

#[test]
fn mod_pattern_results_iteration() {
    let doc = doc_of(&clean_results());
    let passes = doc.passes();
    let pass = &passes[0];
    let patterns = pass.pattern_results();
    assert_eq!(patterns.len(), 1);
    assert_eq!(patterns[0].pattern_name(), "SolidBits");
    assert!(elapsed_ms(patterns[0].elapsed()) > 0.0);
    assert_eq!(patterns[0].bytes_processed(), 8192);
    assert_eq!(patterns[0].failure_count(), 0);
}

#[test]
fn mod_config_accessors() {
    let doc = doc_of(&clean_results());
    let cfg = doc.config();
    assert_eq!(cfg.passes(), 1);
}

#[test]
fn mod_coverage_accessor_measured() {
    let doc = doc_of(&covered_results());
    let cov = doc.coverage().unwrap();
    assert!(cov.is_measured());
    assert_eq!(cov.tested_bytes(), 64 * 1024 * 1024);
    assert_eq!(cov.total_bytes(), 32u64 * 1024 * 1024 * 1024);
    assert_eq!(cov.source_label(), "/proc/iomem");
    let percent = cov.tested_bytes() as f64 / cov.total_bytes() as f64 * 100.0;
    assert!((percent - 0.195_312_5).abs() < 1e-6);
}

#[test]
fn mod_coverage_accessor_unavailable() {
    let doc = doc_of(&clean_results());
    let cov = doc.coverage().unwrap();
    assert!(!cov.is_measured());
}

#[test]
fn mod_coverage_absent_when_no_key() {
    let doc = parsed("{}");
    assert!(doc.coverage().is_none());
}

#[test]
fn mod_from_json_roundtrip() {
    let results = clean_results();
    let written = JsonRenderer.render(&doc_of(&results));
    let doc = parsed(&written);
    assert_eq!(doc.total_failures(), 0);
}

#[test]
fn mod_error_analysis_per_pattern() {
    let doc = doc_of(&failing_results());
    let ea = doc.error_analysis().unwrap();
    let pp = ea.per_pattern_failures();
    assert_eq!(pp.len(), 1);
    assert_eq!(pp[0].0, "SolidBits");
    assert_eq!(pp[0].1, 2);
}

#[test]
fn mod_error_analysis_bit_positions() {
    let doc = doc_of(&failing_results());
    let ea = doc.error_analysis().unwrap();
    let bp = ea.bit_positions();
    assert_eq!(bp.len(), 1);
    assert_eq!(bp[0], (20, 2));
}

#[test]
fn mod_missing_fields_return_defaults() {
    let doc = parsed("{}");
    assert_eq!(doc.total_failures(), 0);
    assert!(elapsed_ms(doc.elapsed()).abs() < f64::EPSILON);
    assert!(doc.error_analysis().is_none());
    assert!(doc.passes().is_empty());
}

#[test]
fn mod_coupling() {
    let doc = parsed(
        r#"{
        "error_analysis": {
            "classification": "Coupling",
            "union_xor_mask": 0,
            "bit_positions": [],
            "per_pattern_failures": []
        }
    }"#,
    );
    let ea = doc.error_analysis().unwrap();
    assert_eq!(ea.classification_str(), "coupling/disturbance errors");
}

#[test]
fn mod_mixed() {
    let doc = parsed(
        r#"{
        "error_analysis": {
            "classification": "Mixed",
            "union_xor_mask": 0,
            "bit_positions": [],
            "per_pattern_failures": []
        }
    }"#,
    );
    let ea = doc.error_analysis().unwrap();
    assert_eq!(ea.classification_str(), "mixed (stuck + coupling)");
}

#[test]
fn mod_stuck_bit() {
    let doc = parsed(
        r#"{
        "error_analysis": {
            "classification": {"StuckBit": {"positions": [5, 20]}},
            "union_xor_mask": 0,
            "bit_positions": [],
            "per_pattern_failures": []
        }
    }"#,
    );
    let ea = doc.error_analysis().unwrap();
    let s = ea.classification_str();
    assert!(s.contains("stuck bit"));
    assert!(s.contains("bit 5"));
    assert!(s.contains("bit 20"));
}

#[test]
fn capped_line_flags_truncation() {
    let s = line(1000, false, true);
    assert!(s.contains("FAIL"));
    assert!(s.contains("1,000+ failures"));
    assert!(s.contains("capped"));
}

#[test]
fn uncapped_line_shows_plain_count() {
    let s = line(3, false, false);
    assert!(s.contains("3 failures"));
    assert!(!s.contains("capped"));
}

#[test]
fn clean_line_has_no_cap_annotation() {
    // capped is meaningless with zero failures; the PASS line ignores it.
    let s = line(0, false, true);
    assert!(s.contains("PASS"));
    assert!(!s.contains("capped"));
}

#[test]
fn render_full_renders_one_pass_block_per_pass() {
    let out = render_full_to_string(&multi_pattern_results());
    assert_eq!(out.matches("Pass 1/1").count(), 1);
    assert_eq!(out.matches("SolidBits").count(), 1);
    assert_eq!(out.matches("Checkerboard").count(), 1);
}

#[test]
fn render_full_renderer_flags_interrupted() {
    let results = RunResults::from_passes(
        vec![PassResult {
            pass_number: 1,
            pattern_results: vec![PatternResult {
                pattern: Pattern::SolidBits,
                failures: vec![],
                elapsed: 10 * MILLISECOND,
                bytes_processed: 1024,
                interrupted: true,
                capped: false,
            }],
            ecc_deltas: vec![],
        }],
        make_config(),
        10 * MILLISECOND,
    );
    let out = render_full_to_string(&results);
    assert!(out.contains("INTR"));
    assert!(out.contains("(interrupted)"));
    assert!(!out.contains("PASS"));
}

#[test]
fn render_clean_run_shows_passed() {
    let out = render_to_string(&clean_results());
    assert!(out.contains("All tests passed"));
}

#[test]
fn render_renders_measured_coverage_block() {
    let out = render_to_string(&covered_results());
    assert!(out.contains("Physical coverage"));
    assert!(out.contains("Tested:"));
    assert!(out.contains("64.0 MiB"));
    assert!(out.contains("Installed:"));
    assert!(out.contains("32.0 GiB"));
    assert!(out.contains("/proc/iomem"));
    assert!(out.contains("Coverage:"));
    assert!(out.contains("0.20%"));
}

#[test]
fn render_renders_unavailable_coverage_block() {
    // clean_results() defaults coverage to Unavailable.
    let out = render_to_string(&clean_results());
    assert!(out.contains("Physical coverage"));
    assert!(out.contains("unavailable"));
}

#[test]
fn render_renders_cumulative_lines_when_store_active() {
    let mut r = covered_results();
    r.coverage
        .attach_cumulative(Cumulative {
            new_bytes: 32 * 1024 * 1024,
            cumulative_bytes: 16 * 1024 * 1024 * 1024,
            runs: 3,
        });
    let out = render_to_string(&r);
    assert!(out.contains("New:       32.0 MiB this run"));
    assert!(out.contains("Cumulative: 16.0 GiB (50.0%) across 3 run(s)"));
}

#[test]
fn render_no_cumulative_lines_without_store() {
    let out = render_to_string(&covered_results());
    assert!(!out.contains("Cumulative:"));
    assert!(!out.contains("New:"));
}

#[test]
fn render_renders_gap_breakdown_when_classified() {
    let mut r = covered_results();
    r.coverage.attach_gap(GapReport {
        free_bytes: 2 * 1024 * 1024 * 1024,
        reclaimable_bytes: 1024 * 1024 * 1024,
        in_use_bytes: 512 * 1024 * 1024,
        unreachable_bytes: 256 * 1024 * 1024,
        unknown_bytes: 0,
    });
    let out = render_to_string(&r);
    assert!(out.contains("Untested:"));
    assert!(out.contains("3.75 GiB ="));
    assert!(out.contains("2.00 GiB free"));
    assert!(out.contains("1.00 GiB reclaimable"));
    assert!(out.contains("512 MiB in-use"));
    assert!(out.contains("256 MiB unreachable"));
    assert!(!out.contains("unknown"));
}

#[test]
fn render_gap_breakdown_includes_unknown_when_nonzero() {
    let mut r = covered_results();
    r.coverage.attach_gap(GapReport {
        unknown_bytes: 4096,
        ..GapReport::default()
    });
    let out = render_to_string(&r);
    assert!(out.contains("4.00 KiB unknown"));
}

#[test]
fn render_no_gap_breakdown_without_classification() {
    let out = render_to_string(&covered_results());
    assert!(!out.contains("Untested:"));
}

#[test]
fn render_failing_run_shows_error_analysis() {
    let out = render_to_string(&failing_results());
    assert!(out.contains("failure(s) detected"));
    assert!(out.contains("Error analysis"));
    assert!(out.contains("stuck bit"));
    assert!(out.contains("Affected bits"));
    assert!(out.contains("Physical address range"));
    assert!(out.contains("0x5000"));
    assert!(out.contains("0x9000"));
}

#[test]
fn render_shows_per_pattern_failures() {
    let out = render_to_string(&failing_results());
    assert!(out.contains("Per-pattern failures"));
    assert!(out.contains("SolidBits"));
}

#[test]
fn render_shows_bit_flip_counts() {
    let out = render_to_string(&failing_results());
    assert!(out.contains("Bit flip counts"));
    assert!(out.contains("bit 20"));
}

#[test]
fn render_shows_elapsed_time() {
    let out = render_to_string(&clean_results());
    // 100ms < 1s so should render in milliseconds.
    assert!(out.contains("100.0 ms"));
}

#[test]
fn render_long_elapsed_shows_seconds() {
    let results = RunResults::from_passes(
        vec![PassResult {
            pass_number: 1,
            pattern_results: vec![],
            ecc_deltas: vec![],
        }],
        make_config(),
        5 * SECOND,
    );
    let doc = doc_of(&results);
    let out = TableRenderer::new(BinaryUnits).render(&doc);
    assert!(out.contains("5.00 s"));
}

#[test]
fn reports_cumulative_and_reboot_hint() {
    let out = render(16 * GIB, 32 * GIB, 8, None);
    assert!(out.contains("Nothing new to test"));
    assert!(out.contains("Cumulative: 16.0 GiB (50.0%) across 8 run(s)"));
    assert!(out.contains("reboot"));
}

#[test]
fn includes_gap_breakdown_when_classified() {
    let gap = GapReport {
        free_bytes: GIB,
        reclaimable_bytes: GIB / 2,
        in_use_bytes: GIB / 4,
        unreachable_bytes: GIB / 4,
        unknown_bytes: 0,
    };
    let out = render(30 * GIB, 32 * GIB, 8, Some(gap));
    assert!(out.contains("Untested:  2.00 GiB ="));
    assert!(out.contains("1.00 GiB free"));
    assert!(out.contains("512 MiB reclaimable"));
    assert!(out.contains("256 MiB in-use"));
    assert!(out.contains("256 MiB unreachable"));
    assert!(!out.contains("unknown"));
}

#[test]
fn omits_gap_line_without_classification() {
    let out = render(16 * GIB, 32 * GIB, 1, None);
    assert!(!out.contains("Untested:"));
}

#[test]
fn zero_installed_reports_zero_percent() {
    let out = render(16 * GIB, 0, 1, None);
    assert!(out.contains("(0.000%)"));
}

#[test]
fn render_produces_valid_json() {
    let doc = doc_of(&clean_results());
    let written = JsonRenderer.render(&doc);
    let parsed: serde_json::Value = serde_json::from_str(&written).unwrap();
    assert_eq!(parsed["total_failures"], 0);
    assert!(parsed["config"].is_object());
}

#[test]
fn render_includes_error_analysis_when_present() {
    let doc = doc_of(&failing_results());
    let written = JsonRenderer.render(&doc);
    let parsed: serde_json::Value = serde_json::from_str(&written).unwrap();
    assert!(parsed["error_analysis"].is_object());
    assert_eq!(parsed["total_failures"], 2);
}

#[test]
fn render_includes_coverage_status() {
    let doc = doc_of(&clean_results());
    let written = JsonRenderer.render(&doc);
    let parsed: serde_json::Value = serde_json::from_str(&written).unwrap();
    assert_eq!(parsed["coverage"]["status"], "unavailable");
}

#[test]
fn a_clean_run_has_no_analysis() {
    let mut results = clean_results();
    error_analysis::analyze(&mut results);
    assert!(results.error_analysis.is_none());
}

#[test]
fn failures_of_a_pattern_are_counted_over_passes() {
    let pass = |number: usize, flips: &[u64]| PassResult {
        pass_number: number,
        pattern_results: flips
            .iter()
            .enumerate()
            .map(|(i, flip)| PatternResult {
                pattern: [Pattern::MarchCMinus, Pattern::SolidBits][i],
                failures: if *flip == 0 {
                    vec![]
                } else {
                    vec![FailureBuilder::default().actual(*flip).build()]
                },
                elapsed: MILLISECOND,
                bytes_processed: 8,
                interrupted: false,
                capped: false,
            })
            .collect(),
        ecc_deltas: vec![],
    };
    let mut results = RunResults::from_passes(
        vec![pass(1, &[0, 1]), pass(2, &[4, 1])],
        make_config(),
        SECOND,
    );
    error_analysis::analyze(&mut results);
    let analysis = results.error_analysis.as_ref().unwrap();
    assert_eq!(
        analysis.per_pattern_failures,
        [(Pattern::SolidBits, 2), (Pattern::MarchCMinus, 1)]
    );
    assert_eq!(analysis.bit_positions, [(0, 2), (2, 1)]);
    assert_eq!(analysis.union_xor_mask, 5);
    assert_eq!(analysis.classification, ErrorClassification::Coupling);
    let doc = doc_of(&results);
    let ea = doc.error_analysis().unwrap();
    assert_eq!(ea.classification_str(), "coupling/disturbance errors");
    assert_eq!(
        ea.per_pattern_failures(),
        [("SolidBits".to_owned(), 2), ("MarchCMinus".to_owned(), 1)]
    );
    assert_eq!(ea.bit_positions(), [(0, 2), (2, 1)]);
    assert_eq!(doc.passes()[1].total_failures(), 2);
}

#[test]
fn a_document_reads_back_its_coverage() {
    let mut results = covered_results();
    results.coverage.attach_cumulative(Cumulative {
        new_bytes: 1,
        cumulative_bytes: 2,
        runs: 3,
    });
    results.coverage.attach_gap(GapReport {
        free_bytes: 4,
        reclaimable_bytes: 5,
        in_use_bytes: 6,
        unreachable_bytes: 7,
        unknown_bytes: 8,
    });
    let doc = doc_of(&results);
    let cov = doc.coverage().unwrap();
    let cumulative = cov.cumulative().unwrap();
    assert_eq!(cumulative.new_bytes(), 1);
    assert_eq!(cumulative.cumulative_bytes(), 2);
    assert_eq!(cumulative.runs(), 3);
    let gap = cov.gap().unwrap();
    assert_eq!(gap.free_bytes(), 4);
    assert_eq!(gap.reclaimable_bytes(), 5);
    assert_eq!(gap.in_use_bytes(), 6);
    assert_eq!(gap.unreachable_bytes(), 7);
    assert_eq!(gap.unknown_bytes(), 8);
    assert_eq!(gap.total_bytes(), 30);
}

#[test]
fn plain_units_write_whole_numbers() {
    let units = PlainUnits;
    assert_eq!(units.size(1024), "1024 B");
    assert_eq!(units.rounded_size(1024), "1024 B");
    assert_eq!(units.count(1000), "1000");
    assert_eq!(units.percent(1, 4), "1 of 4");
    assert_eq!(units.elapsed(Some(&Json::Unsigned(5))), "5 ms");
    assert_eq!(units.elapsed(None), "0 ms");
    assert_eq!(units.rate(10, Some(&Json::Number("2.5".to_owned()))), "10 B in 2.5 ms");
    assert_eq!(units.millis(2_500_000), "2");
    assert_eq!(units.throughput(10, 7), "10 B in 7 ns");
    assert_eq!(units.millis_number(1_000_050), "1.000050");
}

fn missing() -> IoFailure {
    IoFailure {
        kind: IoKind::NotFound,
        message: "No such file or directory (os error 2)".to_owned(),
    }
}

#[test]
fn results_from_file_roundtrip() {
    let written = JsonRenderer.render(&doc_of(&failing_results()));
    let doc = ResultsDoc::from_file(Ok(written)).unwrap();
    assert_eq!(doc.total_failures(), 2);
    assert!(doc.error_analysis().is_some());
}

#[test]
fn results_from_file_invalid_json() {
    let error = ResultsDoc::from_file(Ok("not json".to_owned())).unwrap_err();
    assert_eq!(error.kind, IoKind::InvalidData);
    assert_eq!(error.message, "expected ident at line 1 column 2");
}

#[test]
fn results_from_file_missing() {
    assert_eq!(ResultsDoc::from_file(Err(missing())).unwrap_err(), missing());
}

#[test]
fn mod_from_file_roundtrip() {
    let written = JsonRenderer.render(&doc_of(&failing_results()));
    let doc = ResultsDoc::from_file(Ok(written)).unwrap();
    assert_eq!(doc.total_failures(), 2);
    assert!(doc.error_analysis().is_some());
}

#[test]
fn mod_from_file_invalid_json() {
    let error = ResultsDoc::from_file(Ok("not json".to_owned())).unwrap_err();
    assert_eq!(error.kind, IoKind::InvalidData);
    assert_eq!(error.message, "expected ident at line 1 column 2");
}

#[test]
fn mod_from_file_missing() {
    assert_eq!(ResultsDoc::from_file(Err(missing())).unwrap_err(), missing());
}

#[test]
fn results_trailing_newline() {
    let doc = doc_of(&clean_results());
    assert!(JsonRenderer.render(&doc).ends_with('\n'));
}

#[test]
fn render_trailing_newline() {
    let doc = doc_of(&clean_results());
    assert!(JsonRenderer.render(&doc).ends_with('\n'));
}

#[test]
fn a_document_is_written_over_several_lines() {
    let doc = ResultsDoc::from_json(Json::Object(vec![
        ("b".to_owned(), Json::List(vec![Json::Unsigned(7), Json::Number("1.50".to_owned())])),
        ("a".to_owned(), Json::Text("x\n\u{e9}".to_owned())),
        ("c".to_owned(), Json::Object(vec![])),
        ("a".to_owned(), Json::Number("not a number".to_owned())),
        ("d".to_owned(), Json::Bool(false)),
    ]));
    // The later of two pairs with the same key counts, and keys are sorted.
    assert_eq!(
        JsonRenderer.render(&doc),
        "{\n  \"a\": null,\n  \"b\": [\n    7,\n    1.5\n  ],\n  \"c\": {},\n  \"d\": false\n}\n"
    );
}
