//! The coverage of a run: what is culled, recorded and classified.

use ferrite::events::LogLevel;
use ferrite::pattern::Pattern;
use ferrite::physmem::coverage::{fingerprint_from, CoverageStore};
use ferrite::physmem::gap::GapReport;
use ferrite::physmem::lifecycle::{
    attach_gap_classification, copy_ranges, cull_ranges, finalize_coverage, is_recordable,
    recorded_so_far, report_cull_ceiling, report_opening, CoverageCtx, OpenError,
};
use ferrite::physmem::pfn::{Pfn, PfnRange};
use ferrite::physmem::sysmem::{meminfo_bytes, system_ram_ranges, Coverage, RamSource};
use ferrite::physmem::PAGE_BYTES;
use ferrite::runner::{PassResult, PatternResult, RunConfig, RunResults};
use ferrite::units::PlainUnits;

fn range(start: u64, count: u64) -> PfnRange {
    PfnRange {
        start: Pfn(start),
        count,
    }
}

fn results_with(interrupted: bool) -> RunResults {
    let pattern_result = PatternResult {
        pattern: Pattern::SolidBits,
        failures: vec![],
        elapsed: 0,
        bytes_processed: 0,
        interrupted,
        capped: false,
    };
    let pass = PassResult {
        pass_number: 1,
        pattern_results: vec![pattern_result],
        ecc_deltas: vec![],
    };
    let config = RunConfig {
        size: 4096,
        passes: 1,
        patterns: vec![Pattern::SolidBits],
        workers: 1,
    };
    RunResults::from_passes(vec![pass], config, 0)
}

fn measured() -> Coverage {
    Coverage::Measured {
        tested_bytes: 4096,
        total_bytes: 8192,
        source: RamSource::ProcIomem,
        cumulative: None,
        gap: None,
    }
}

fn store_ctx() -> CoverageCtx {
    let fp = fingerprint_from(8192, &[(0x1000, 0xffff)]);
    CoverageCtx {
        store: CoverageStore::new(fp),
        path: "coverage.json".to_owned(),
    }
}

fn now() -> jiff::Timestamp {
    jiff::Timestamp::UNIX_EPOCH
}

#[test]
fn disabled_yields_none() {
    assert!(cull_ranges(false, None).is_none());
}

#[test]
fn enabled_without_store_yields_empty() {
    let ranges = cull_ranges(true, None);
    assert_eq!(ranges, Some(vec![]));
}

#[test]
fn enabled_with_store_returns_covered_set() {
    let mut ctx = store_ctx();
    ctx.store.ranges = vec![range(5, 3)];
    let ranges = cull_ranges(true, Some(&ctx));
    assert_eq!(ranges, Some(vec![range(5, 3)]));
}

#[test]
fn no_run_ranges_returns_none() {
    let mut results = results_with(false);
    let done = finalize_coverage(None, None, &mut results, now());
    let covered = done.covered;
    assert!(covered.is_none());
}

#[test]
fn interrupted_run_does_not_count() {
    let mut results = results_with(true);
    let done = finalize_coverage(None, Some(vec![range(1, 2)]), &mut results, now());
    let covered = done.covered;
    assert!(covered.is_none());
}

#[test]
fn interrupted_run_with_store_does_not_record() {
    let ctx = store_ctx();
    let mut results = results_with(true);
    let done = finalize_coverage(Some(ctx), Some(vec![range(1, 2)]), &mut results, now());
    let covered = done.covered;
    assert!(covered.is_none());
    // Nothing to record for an interrupted run.
    assert!(done.to_save.is_none());
    assert_eq!(done.warning, Some("coverage store not updated: run was interrupted"));
}

#[test]
fn clean_run_without_store_returns_run_ranges() {
    let mut results = results_with(false);
    let done = finalize_coverage(None, Some(vec![range(4, 6)]), &mut results, now());
    let covered = done.covered;
    assert_eq!(covered, Some(vec![range(4, 6)]));
}

#[test]
fn clean_run_with_store_records_and_attaches_cumulative() {
    let ctx = store_ctx();
    let mut results = results_with(false);
    results.coverage = measured();

    let done = finalize_coverage(Some(ctx), Some(vec![range(10, 5)]), &mut results, now());
    let covered = done.covered;

    // Returns the store's cumulative ranges (the merged set).
    assert_eq!(covered, Some(vec![range(10, 5)]));
    // To be saved with this run in it.
    let saved = done.to_save.unwrap();
    assert_eq!(saved.path, "coverage.json");
    assert_eq!(saved.store.runs.len(), 1);
    assert_eq!(saved.store.runs[0].patterns, ["Solid Bits"]);
    // Cumulative stats attached to the measured coverage.
    let Coverage::Measured { cumulative, .. } = results.coverage else {
        panic!("expected measured coverage");
    };
    let cumulative = cumulative.expect("cumulative stats attached");
    assert_eq!(cumulative.runs, 1);
    assert_eq!(cumulative.new_bytes, 5 * PAGE_BYTES);
}

#[test]
fn save_failure_still_returns_ranges() {
    // Whether the store can be saved afterwards or not, the run counts and the
    // covered set is there.
    let mut ctx = store_ctx();
    ctx.path = "/nonexistent-ferrite-dir/coverage.json".to_owned();
    let mut results = results_with(false);
    let done = finalize_coverage(Some(ctx), Some(vec![range(2, 2)]), &mut results, now());
    assert_eq!(done.covered, Some(vec![range(2, 2)]));
}

#[test]
fn none_covered_leaves_coverage_untouched() {
    let mut results = results_with(false);
    results.coverage = measured();
    attach_gap_classification(None, &mut results);
    let Coverage::Measured { gap, .. } = results.coverage else {
        panic!("expected measured coverage");
    };
    assert!(gap.is_none());
}

#[test]
fn a_classified_gap_is_attached() {
    let mut results = results_with(false);
    results.coverage = measured();
    let report = GapReport {
        free_bytes: 1,
        reclaimable_bytes: 2,
        in_use_bytes: 3,
        unreachable_bytes: 4,
        unknown_bytes: 5,
    };
    attach_gap_classification(Some(report), &mut results);
    let Coverage::Measured { gap, .. } = results.coverage else {
        panic!("expected measured coverage");
    };
    assert_eq!(gap, Some(report));
}

#[test]
fn a_store_needs_addresses_and_a_fingerprint() {
    let fp = fingerprint_from(8192, &[(0x1000, 0xffff)]);
    assert_eq!(CoverageCtx::required_fingerprint(None, true, None), Ok(None));
    assert_eq!(
        CoverageCtx::required_fingerprint(Some("f"), true, Some(fp)),
        Err(OpenError::NoPhys)
    );
    assert_eq!(
        CoverageCtx::required_fingerprint(Some("f"), false, None),
        Err(OpenError::NoFingerprint)
    );
    assert_eq!(CoverageCtx::required_fingerprint(Some("f"), false, Some(fp)), Ok(Some(fp)));
    assert_eq!(
        OpenError::NoPhys.label(),
        "--coverage-file requires physical address resolution (remove --no-phys)"
    );
    assert_eq!(
        OpenError::NoFingerprint.label(),
        "cannot fingerprint machine memory for coverage tracking"
    );
    let fresh = CoverageCtx::open("f".to_owned(), fp, None);
    assert!(fresh.store.ranges.is_empty());
    assert_eq!(recorded_so_far(Some(&fresh)), (0, 0));
    assert_eq!(recorded_so_far(None), (0, 0));
}

#[test]
fn a_recorded_run_is_counted() {
    let mut results = results_with(false);
    let ranges = [range(10, 5)];
    let ctx = store_ctx();
    assert!(is_recordable(&ctx.store, &ranges));
    let done = finalize_coverage(Some(ctx), Some(copy_ranges(&ranges)), &mut results, now());
    let saved = done.to_save.unwrap();
    assert_eq!(recorded_so_far(Some(&saved)), (5 * PAGE_BYTES, 1));
}

#[test]
fn ranges_that_overflow_are_not_recordable() {
    let ctx = store_ctx();
    assert!(!is_recordable(&ctx.store, &[range(u64::MAX, 2)]));
    assert!(!is_recordable(&ctx.store, &[range(5, 0)]));
}

#[test]
fn no_addresses_leave_the_store_as_it_is() {
    let mut results = results_with(false);
    let done = finalize_coverage(Some(store_ctx()), None, &mut results, now());
    assert!(done.covered.is_none());
    assert!(done.to_save.is_none());
    assert_eq!(
        done.warning,
        Some("coverage store not updated: physical address resolution unavailable")
    );
}

#[test]
fn system_ram_is_read_from_the_map() {
    let iomem = "00000000-00000fff : Reserved\n00001000-0009ffff : System RAM\n  \
                 00002000-00002fff : Kernel code\n00100000-bfffffff : System RAM\n";
    assert_eq!(
        system_ram_ranges(iomem),
        [(0x1000, 0x9ffff), (0x100000, 0xbfffffff)]
    );
    assert!(system_ram_ranges("nothing").is_empty());
}

#[test]
fn totals_are_read_in_kibibytes() {
    let meminfo = "MemTotal:       32 kB\nMemAvailable:    8 kB\n";
    assert_eq!(meminfo_bytes(meminfo, "MemTotal"), Some(32 * 1024));
    assert_eq!(meminfo_bytes(meminfo, "MemAvailable"), Some(8 * 1024));
    assert_eq!(meminfo_bytes(meminfo, "SwapTotal"), None);
}

#[test]
fn an_opened_store_is_announced() {
    let fingerprint = fingerprint_from(1, &[]);
    let mut ctx = CoverageCtx::open("c.json".to_owned(), fingerprint, None);
    let notice = report_opening(&PlainUnits, &ctx, false, 0);
    assert_eq!(notice.level, LogLevel::Info);
    assert_eq!(notice.text, "starting new coverage file: c.json");
    ctx.store
        .record_run(&[range(5, 2)], jiff::Timestamp::UNIX_EPOCH, vec![], 1, 0);
    assert_eq!(
        report_opening(&PlainUnits, &ctx, true, 65536).text,
        "cumulative coverage: 8192 B / 65536 B (8192 of 65536) across 1 previous run(s)"
    );
}

#[test]
fn the_ceiling_is_announced() {
    let (notice, report) = report_cull_ceiling(&PlainUnits, None, 4096, None, false);
    assert_eq!(
        notice.text,
        "--cull: nothing new to test; every acquirable frame is already covered on this boot"
    );
    assert!(report.is_none());
    let mut ctx = CoverageCtx::open("c.json".to_owned(), fingerprint_from(1, &[]), None);
    ctx.store
        .record_run(&[range(5, 2)], jiff::Timestamp::UNIX_EPOCH, vec![], 1, 0);
    let (_, report) = report_cull_ceiling(&PlainUnits, Some(&ctx), 65536, None, true);
    assert!(report
        .unwrap()
        .contains("Cumulative: 8192 B (8192 of 65536) across 1 run(s)"));
    let (_, report) = report_cull_ceiling(&PlainUnits, None, 65536, None, true);
    assert!(report.unwrap().contains("Cumulative: 0 B (0 of 65536) across 0 run(s)"));
}
