//! Getting ready for a run and going through it.

use ferrite::allocation::{AllocError, AllocOutcome, StopReason};
use ferrite::cli::SizeSpec;
use ferrite::error_analysis::ErrorClassification;
use ferrite::events::{LogLevel, RegionEvent, RunEvent};
use ferrite::ndjson::{Event, WriteOutcome, WriteStep};
use ferrite::output::OutputPlan;
use ferrite::pattern::Pattern;
use ferrite::physmem::coverage::{fingerprint_from, CoverageStore};
use ferrite::physmem::hold::{Awaited, FrameSieve, SieveError};
use ferrite::physmem::lifecycle::CoverageCtx;
use ferrite::physmem::pfn::{Pfn, PfnRange};
use ferrite::physmem::phys::{IoFailure, IoKind, MapStats, PhysError};
use ferrite::physmem::sieve::{SieveOutcome, BLOCK_BYTES, BLOCK_FRAMES};
use ferrite::physmem::sysmem::Coverage;
use ferrite::physmem::PAGE_BYTES;
use ferrite::runner::{passes_interrupted, PassResult, PatternResult, RunConfig};
use ferrite::session::{execute_run, run_steps, HeadlessOutput, RunStep};
use ferrite::setup::{
    after_allocation, report_map, report_stability, sieve_failed, sieve_skipped, SetupDecision,
};
use ferrite::units::PlainUnits;
use ferrite::Failure;

fn plan(json_to_stdout: bool, events_to_file: bool, suppress_human: bool) -> OutputPlan {
    OutputPlan {
        json_to_stdout,
        events_to_file,
        suppress_human,
    }
}

fn io_failure(message: &str) -> IoFailure {
    IoFailure {
        kind: IoKind::Other,
        message: message.to_owned(),
    }
}

fn range(start: u64, count: u64) -> PfnRange {
    PfnRange {
        start: Pfn(start),
        count,
    }
}

fn start() -> RunEvent {
    RunEvent::RunStart {
        size: 1024,
        passes: 2,
        patterns: vec![Pattern::SolidBits],
        regions: 1,
        parallel: true,
    }
}

#[test]
fn events_reach_people_and_the_file() {
    let (mut out, stdout_header, file_header) =
        HeadlessOutput::new(&plan(false, true, false), PlainUnits);
    assert!(stdout_header.is_none());
    assert!(matches!(file_header, Some(Event::Header { schema_version: 1 })));
    let routed = out.route(&start());
    assert!(out.printer.out.contains("ferrite"));
    assert!(routed.stdout.is_none());
    assert!(matches!(routed.file, Some(Event::RunStart { passes: 2, .. })));
    assert!(!routed.last);
    let routed = out.route(&RunEvent::RunComplete);
    assert!(routed.file.is_none());
    assert!(routed.last);
}

#[test]
fn json_on_stdout_shows_nothing_else() {
    let (mut out, stdout_header, file_header) =
        HeadlessOutput::new(&plan(true, false, true), PlainUnits);
    assert!(stdout_header.is_some());
    assert!(file_header.is_none());
    let routed = out.route(&start());
    assert!(out.printer.out.is_empty());
    assert!(routed.stdout.is_some());
    assert!(routed.file.is_none());
}

#[test]
fn a_stream_that_no_one_reads_is_not_ended() {
    let (results, _) = execute_run(vec![], config(), 5, Coverage::Unavailable, None, None, now());
    let (mut out, _, _) = HeadlessOutput::new(&plan(true, true, true), PlainUnits);
    let (stdout, file) = out.finish(2, &results);
    assert!(matches!(
        stdout,
        Some(Event::RunComplete { passes: 2, total_failures: 0, duration: 5 })
    ));
    assert!(file.is_some());
    out.stdout.as_mut().unwrap().note(WriteStep::Flush, WriteOutcome::PipeClosed);
    let (stdout, file) = out.finish(2, &results);
    assert!(stdout.is_none());
    assert!(file.is_some());
    let event = RunEvent::Region(0, RegionEvent::PassStart { pass: 1, total_passes: 2 });
    assert!(out.route(&event).stdout.is_none());
}

#[test]
fn a_plain_run_opens_no_stream() {
    assert_eq!(
        run_steps(&plan(false, false, false), false),
        [
            RunStep::Announce,
            RunStep::StartConsumer,
            RunStep::RunPatterns,
            RunStep::AnnounceEnd,
            RunStep::JoinConsumer,
            RunStep::Conclude,
            RunStep::Render,
        ]
    );
}

#[test]
fn a_streamed_run_forwards_its_logs() {
    assert_eq!(
        run_steps(&plan(false, true, false), true),
        [
            RunStep::OpenEventsFile,
            RunStep::ForwardLogs,
            RunStep::Announce,
            RunStep::StartConsumer,
            RunStep::RunPatterns,
            RunStep::AnnounceEnd,
            RunStep::JoinConsumer,
            RunStep::StopForwarding,
            RunStep::Conclude,
            RunStep::EndEventsFile,
            RunStep::Render,
        ]
    );
    let steps = run_steps(&plan(true, false, true), false);
    assert_eq!(steps[0], RunStep::Announce);
    assert_eq!(steps[1], RunStep::OpenStdoutStream);
    assert!(steps.contains(&RunStep::EndStdoutStream));
}

fn config() -> RunConfig {
    RunConfig {
        size: 4096,
        passes: 1,
        patterns: vec![Pattern::SolidBits],
        workers: 1,
    }
}

fn now() -> jiff::Timestamp {
    jiff::Timestamp::UNIX_EPOCH
}

fn pass(failures: Vec<Failure>, interrupted: bool) -> PassResult {
    PassResult {
        pass_number: 1,
        pattern_results: vec![PatternResult {
            pattern: Pattern::SolidBits,
            failures,
            elapsed: 7,
            bytes_processed: 4096,
            interrupted,
            capped: false,
        }],
        ecc_deltas: vec![],
    }
}

fn ctx() -> CoverageCtx {
    CoverageCtx {
        store: CoverageStore::new(fingerprint_from(1, &[])),
        path: "coverage.json".to_owned(),
    }
}

#[test]
fn a_run_is_counted_analysed_and_recorded() {
    let failure = Failure {
        addr: 8,
        expected: 0,
        actual: 4,
        word_index: 1,
        phys_addr: None,
    };
    let (results, done) = execute_run(
        vec![pass(vec![failure], false)],
        config(),
        9,
        Coverage::Unavailable,
        Some(ctx()),
        Some(vec![range(3, 2)]),
        now(),
    );
    assert_eq!(results.total_failures, 1);
    assert_eq!(results.elapsed, 9);
    assert_eq!(
        results.error_analysis.unwrap().classification,
        ErrorClassification::StuckBit { positions: vec![2] }
    );
    let saved = done.to_save.unwrap();
    assert_eq!(saved.store.runs[0].failures, 1);
    assert_eq!(saved.store.runs[0].new_bytes, 2 * PAGE_BYTES);
    assert_eq!(done.covered, Some(vec![range(3, 2)]));
}

#[test]
fn a_run_that_was_broken_off_is_not_recorded() {
    let (results, done) = execute_run(
        vec![pass(vec![], true)],
        config(),
        9,
        Coverage::Unavailable,
        Some(ctx()),
        Some(vec![range(3, 2)]),
        now(),
    );
    assert!(results.error_analysis.is_none());
    assert!(done.to_save.is_none());
    assert!(done.covered.is_none());
    assert_eq!(done.warning, Some("coverage store not updated: run was interrupted"));
}

#[test]
fn a_run_that_was_broken_off_may_have_frames_that_cannot_be_recorded() {
    let mut ctx = ctx();
    ctx.store.ranges = vec![range(9, 2), range(3, 2)];
    let (_, done) = execute_run(
        vec![pass(vec![], false), pass(vec![], true)],
        config(),
        9,
        Coverage::Unavailable,
        Some(ctx),
        Some(vec![range(u64::MAX, 2)]),
        now(),
    );
    assert!(done.to_save.is_none());
    assert_eq!(done.warning, Some("coverage store not updated: run was interrupted"));
}

#[test]
fn the_operator_is_told_of_a_store_that_is_left_as_it_was() {
    let run = |ctx, ranges| {
        let passes = vec![pass(vec![], false)];
        execute_run(passes, config(), 9, Coverage::Unavailable, ctx, ranges, now()).1
    };
    let unresolved = run(Some(ctx()), None);
    assert_eq!(
        unresolved.warning,
        Some("coverage store not updated: physical address resolution unavailable")
    );
    assert_eq!(run(None, None).warning, None);
    assert_eq!(run(None, Some(vec![range(3, 2)])).warning, None);
    assert_eq!(run(Some(ctx()), Some(vec![range(3, 2)])).warning, None);
}

#[test]
fn one_pattern_broken_off_interrupts_the_passes() {
    assert!(!passes_interrupted(&[]));
    assert!(!passes_interrupted(&[pass(vec![], false)]));
    assert!(passes_interrupted(&[pass(vec![], false), pass(vec![], true)]));
}

fn outcome(stop: StopReason) -> AllocOutcome {
    AllocOutcome {
        requested: 100,
        achieved: 60,
        stop,
    }
}

#[test]
fn an_allocation_that_fell_short_goes_on() {
    let decision = after_allocation(
        &PlainUnits,
        false,
        Ok(outcome(StopReason::HeadroomFloor { available: 5 })),
        SizeSpec::Bytes(100),
    );
    let SetupDecision::Proceed { notice: Some(notice) } = decision else {
        panic!("{decision:?}");
    };
    assert_eq!(notice.level, LogLevel::Warn);
    assert_eq!(
        notice.text,
        "locked 60 B of 100 B requested (stopped at headroom floor, 5 B available)"
    );
    let decision =
        after_allocation(&PlainUnits, false, Ok(outcome(StopReason::Completed)), SizeSpec::Max);
    assert!(matches!(decision, SetupDecision::Proceed { notice: None }));
}

#[test]
fn nothing_left_is_the_ceiling_only_while_frames_are_held() {
    let exhausted = || Err(AllocError::Exhausted { available: 1 });
    let decision = after_allocation(&PlainUnits, true, exhausted(), SizeSpec::Max);
    assert!(matches!(decision, SetupDecision::CullCeiling));
    let decision = after_allocation(&PlainUnits, false, exhausted(), SizeSpec::Max);
    assert!(matches!(decision, SetupDecision::Fail { hint: Some(_), .. }));
    let decision = after_allocation(&PlainUnits, true, Err(AllocError::ZeroSize), SizeSpec::Max);
    assert!(matches!(
        decision,
        SetupDecision::Fail { hint: None, error: AllocError::ZeroSize }
    ));
}

#[test]
fn the_operator_hears_of_the_address_map() {
    let stats = MapStats {
        total_pages: 9,
        resolved_pages: 8,
        huge_pages: 7,
        thp_pages: 6,
        hwpoison_pages: 5,
        unevictable_pages: 4,
    };
    let report = report_map(&PlainUnits, &stats);
    assert_eq!(report.notice.text, "physical address map built");
    let fields: Vec<(&str, &str)> = report.fields.iter().map(|(k, v)| (*k, v.as_str())).collect();
    assert_eq!(fields, [("pages", "9"), ("thp", "6"), ("huge", "7"), ("hwpoison", "5")]);

    assert!(report_stability(&PlainUnits, Ok(0)).is_none());
    let report = report_stability(&PlainUnits, Ok(3)).unwrap();
    assert_eq!(report.notice.text, "pages changed physical address after locking");
    assert_eq!(report.fields, [("changed", "3".to_owned())]);
    let error = PhysError::PageNotPresent { vaddr: 0x1000 };
    let report = report_stability(&PlainUnits, Err(error)).unwrap();
    assert!(report.notice.text.starts_with("PFN stability check failed: "));
    assert!(report.fields.is_empty());
}

#[test]
fn a_sweep_holds_what_is_covered_and_gives_back_the_rest() {
    let mut sieve = FrameSieve::begin(Some(4 * BLOCK_BYTES as u64), 0, None);
    assert_eq!(sieve.target, 4 * BLOCK_BYTES);
    assert_eq!(sieve.awaited, Awaited::Pagemap);
    assert_eq!(sieve.opened(Ok(())).unwrap(), 4 * BLOCK_BYTES);
    assert_eq!(sieve.reserved(Ok(())).unwrap(), 4 * BLOCK_BYTES);
    // Memory ran out after three blocks.
    assert_eq!(sieve.swept(3 * BLOCK_BYTES), [(3 * BLOCK_BYTES, BLOCK_BYTES)]);
    assert_eq!(sieve.pages(), 3 * BLOCK_FRAMES);
    let frames: Vec<u64> = (1..=3 * BLOCK_FRAMES as u64).collect();
    let covered = [range(1 + BLOCK_FRAMES as u64, BLOCK_FRAMES as u64)];
    let (release, outcome) = sieve.hold(Ok(frames), &covered);
    assert_eq!(release, [(0, BLOCK_BYTES), (2 * BLOCK_BYTES, BLOCK_BYTES)]);
    assert_eq!(sieve.hostages, [(BLOCK_BYTES, BLOCK_BYTES)]);
    assert_eq!(
        outcome.unwrap(),
        SieveOutcome {
            swept: 3 * BLOCK_BYTES,
            held: BLOCK_BYTES,
            released: 2 * BLOCK_BYTES,
        }
    );
    assert_eq!(sieve.awaited, Awaited::Nothing);
}

#[test]
fn a_sweep_without_memory_is_over() {
    let nothing = Some(SieveOutcome { swept: 0, held: 0, released: 0 });
    let sieve = FrameSieve::begin(None, 0, None);
    assert_eq!(sieve.awaited, Awaited::Nothing);
    assert_eq!(sieve.empty_outcome(), nothing);
    let mut sieve = FrameSieve::begin(Some(BLOCK_BYTES as u64), 0, None);
    assert_eq!(sieve.empty_outcome(), None);
    sieve.opened(Ok(())).unwrap();
    sieve.reserved(Ok(())).unwrap();
    assert_eq!(sieve.swept(0), [(0, BLOCK_BYTES)]);
    assert_eq!(sieve.awaited, Awaited::Nothing);
    assert_eq!(sieve.empty_outcome(), nothing);
}

#[test]
fn a_sweep_that_fails_holds_nothing() {
    let begin = || FrameSieve::begin(Some(BLOCK_BYTES as u64), 0, None);
    let mut sieve = begin();
    let error = sieve.opened(Err(io_failure("denied"))).unwrap_err();
    assert_eq!(error.to_string(), "sieve cannot resolve physical frames: denied");
    assert_eq!(sieve.awaited, Awaited::Nothing);

    let mut sieve = begin();
    sieve.opened(Ok(())).unwrap();
    let error = sieve.reserved(Err(AllocError::ZeroSize)).unwrap_err();
    assert_eq!(
        error.to_string(),
        "sieve reservation failed: requested size must be non-zero"
    );

    let mut sieve = begin();
    sieve.opened(Ok(())).unwrap();
    sieve.reserved(Ok(())).unwrap();
    assert!(sieve.swept(BLOCK_BYTES).is_empty());
    let (release, outcome) = sieve.hold(Err(io_failure("short")), &[]);
    assert_eq!(release, [(0, BLOCK_BYTES)]);
    assert!(sieve.hostages.is_empty());
    let error = outcome.unwrap_err();
    assert!(matches!(error, SieveError::Pagemap { .. }));
    assert_eq!(
        sieve_failed(&error).text,
        "--cull sieve failed (sieve cannot resolve physical frames: short); continuing without culling"
    );
}

#[test]
fn culling_needs_something_to_cull() {
    assert_eq!(
        sieve_skipped(&[]).unwrap().text,
        "--cull: no prior coverage to cull against; skipping sieve"
    );
    assert!(sieve_skipped(&[range(1, 1)]).is_none());
}
