//! The test patterns.

use ferrite::buffer::{Unattended, WordBuffer};
use ferrite::memory::{Memory, Monitor};
use ferrite::ops::{self, fill_pass, verify_pass, CHUNK_WORDS};
use ferrite::pattern::metadata::FaultClass::{self, AddressDecoder, Coupling, StuckAt, Transition};
use ferrite::pattern::metadata::{Complexity, PatternTier};
use ferrite::pattern::random::{self, RandomWords, Stream};
use ferrite::pattern::rounds::fill_and_verify;
use ferrite::pattern::sweep::{sweep, CellOp, Direction, Stop};
use ferrite::pattern::{march, moving_inversions, run_pattern, solid, Pattern};
use ferrite::{Failure, FailureBudget};
use rand_xoshiro::rand_core::{Rng, SeedableRng};
use rand_xoshiro::Xoshiro256StarStar;

/// Where test memory begins.
const BASE: usize = 0x1000;

fn buffer(words: Vec<u64>) -> WordBuffer {
    WordBuffer::new(words, BASE)
}

fn contents(mem: &WordBuffer) -> Vec<u64> {
    (0..mem.word_count()).map(|i| mem.peek(i)).collect()
}

/// An operator who counts and may ask for a stop.
#[derive(Default)]
struct Watch {
    subpasses: u64,
    activities: u64,
    quit_after: Option<u64>,
}

impl Monitor for Watch {
    fn subpass(&mut self) {
        self.subpasses += 1;
    }

    fn activity(&mut self, _index: usize, _total: usize) {
        self.activities += 1;
    }

    fn quit_requested(&mut self) -> bool {
        self.quit_after.is_some_and(|n| self.subpasses >= n)
    }
}

/// Run a pattern on memory in one or more parts.
fn runs_clean(pattern: Pattern, parts: usize) -> bool {
    let mut budget = FailureBudget::unlimited();
    (0..parts).all(|_| {
        let mut mem = buffer(vec![0u64; 1024 / parts]);
        run_pattern(pattern, &mut mem, &mut Watch::default(), parts > 1, &mut budget).is_empty()
    })
}

fn swept(
    mem: &mut WordBuffer,
    dir: Direction,
    ops: &[CellOp],
    failures: &mut Vec<Failure>,
) -> Stop {
    let mut budget = FailureBudget::unlimited();
    sweep(mem, &mut Watch::default(), dir, ops, failures, &mut budget).stop
}

fn filled(mem: &mut WordBuffer, seed: u64) {
    fill_pass(mem, &mut Watch::default(), RandomWords::new(&Stream::new(seed)));
}

fn checked(mem: &mut WordBuffer, seed: u64, budget: &mut FailureBudget) -> Vec<Failure> {
    verify_pass(mem, &mut Watch::default(), RandomWords::new(&Stream::new(seed)), true, budget)
}

#[test]
fn read_reports_every_mismatch_ascending() {
    let mut mem = buffer(vec![u64::MAX; 8]); // all cells hold 1, element expects 0
    let base = BASE;
    let mut failures = Vec::new();
    let stop = swept(&mut mem, Direction::Ascending, &[CellOp::Read(0)], &mut failures);
    assert_eq!(stop, Stop::Finished);
    assert_eq!(failures.len(), 8);
    // Ascending traversal reports low indices first.
    let indices: Vec<usize> = failures.iter().map(|f| f.word_index).collect();
    assert_eq!(indices, vec![0, 1, 2, 3, 4, 5, 6, 7]);
    assert_eq!(failures[0].expected, 0);
    assert_eq!(failures[0].actual, u64::MAX);
    assert_eq!(failures[3].addr, base + 3 * 8);
}

#[test]
fn read_reports_descending_order() {
    let mut mem = buffer(vec![u64::MAX; 5]);
    let base = BASE;
    let mut failures = Vec::new();
    swept(&mut mem, Direction::Descending, &[CellOp::Read(0)], &mut failures);
    let indices: Vec<usize> = failures.iter().map(|f| f.word_index).collect();
    assert_eq!(indices, vec![4, 3, 2, 1, 0]);
}

#[test]
fn write_then_read_is_clean() {
    let mut mem = buffer(vec![0u64; 16]);
    let base = BASE;
    let mut failures = Vec::new();
    let w1 = [CellOp::Write(u64::MAX)];
    let r1 = [CellOp::Read(u64::MAX)];
    swept(&mut mem, Direction::Ascending, &w1, &mut failures);
    swept(&mut mem, Direction::Ascending, &r1, &mut failures);
    assert!(failures.is_empty());
}

#[test]
fn corruption_between_write_and_read_is_caught() {
    let mut mem = buffer(vec![0u64; 32]);
    let base = BASE;
    let mut failures = Vec::new();
    let w1 = [CellOp::Write(u64::MAX)];
    swept(&mut mem, Direction::Ascending, &w1, &mut failures);
    // Simulate a cell that fails to hold the written 1 (stuck-low bit).
    mem.write(17, u64::MAX ^ (1 << 2));
    let r1 = [CellOp::Read(u64::MAX)];
    swept(&mut mem, Direction::Ascending, &r1, &mut failures);
    assert_eq!(failures.len(), 1);
    assert_eq!(failures[0].word_index, 17);
    assert_eq!(failures[0].flipped_bits(), 1);
}

#[test]
fn march_empty_buffer_is_a_noop() {
    let mut mem = buffer(vec![]);
    let mut failures = Vec::new();
    let stop = swept(&mut mem, Direction::Ascending, &[CellOp::Read(0)], &mut failures);
    assert_eq!(stop, Stop::Finished);
    assert!(failures.is_empty());
}

#[test]
fn march_clean_memory_has_no_failures() {
    let mut mem = buffer(vec![0u64; 4096]);
    let failures = march::run(&mut mem, &mut Watch::default(), &mut FailureBudget::unlimited());
    assert!(failures.is_empty());
}

#[test]
fn fires_one_subpass_per_element() {
    let mut mem = buffer(vec![0u64; 256]);
    let mut watch = Watch::default();
    march::run(&mut mem, &mut watch, &mut FailureBudget::unlimited());
    assert_eq!(watch.subpasses, 6);
}

#[test]
fn march_quit_stops_the_sequence_early() {
    let mut mem = buffer(vec![0u64; 256]);
    let mut watch = Watch { quit_after: Some(2), ..Watch::default() };
    march::run(&mut mem, &mut watch, &mut FailureBudget::unlimited());
    assert_eq!(watch.subpasses, 2);
}

#[test]
fn fill_writes_seed_to_every_cell() {
    let mut mem = buffer(vec![0u64; 16]);
    let base = BASE;
    let mut failures = Vec::new();
    let stop = swept(&mut mem, Direction::Ascending, &[CellOp::Write(0xAAAA_AAAA_AAAA_AAAA)], &mut failures);
    assert_eq!(stop, Stop::Finished);
    assert!(failures.is_empty());
    assert!(contents(&mem).iter().all(|&w| w == 0xAAAA_AAAA_AAAA_AAAA));
}

#[test]
fn verify_only_reports_mismatch_ascending_and_leaves_buffer() {
    let mut mem = buffer(vec![0u64; 8]); // holds 0, we expect all-ones
    let base = BASE;
    let mut failures = Vec::new();
    swept(&mut mem, Direction::Ascending, &[CellOp::Read(u64::MAX)], &mut failures);
    assert_eq!(failures.len(), 8);
    let indices: Vec<usize> = failures.iter().map(|f| f.word_index).collect();
    assert_eq!(indices, vec![0, 1, 2, 3, 4, 5, 6, 7]);
    assert_eq!(failures[0].expected, u64::MAX);
    assert_eq!(failures[0].actual, 0);
    assert_eq!(failures[2].addr, base + 2 * 8);
    // A pure verify must not mutate the buffer.
    assert!(contents(&mem).iter().all(|&w| w == 0));
}

#[test]
fn verify_reports_descending_order() {
    let mut mem = buffer(vec![0u64; 5]);
    let base = BASE;
    let mut failures = Vec::new();
    swept(&mut mem, Direction::Descending, &[CellOp::Read(u64::MAX)], &mut failures);
    let indices: Vec<usize> = failures.iter().map(|f| f.word_index).collect();
    assert_eq!(indices, vec![4, 3, 2, 1, 0]);
}

#[test]
fn read_expected_then_write_inverse() {
    let mut mem = buffer(vec![0xAAAA_AAAA_AAAA_AAAAu64; 16]);
    let base = BASE;
    let mut failures = Vec::new();
    let stop = swept(&mut mem, Direction::Ascending, &[CellOp::Read(0xAAAA_AAAA_AAAA_AAAA), CellOp::Write(0x5555_5555_5555_5555)], &mut failures);
    assert_eq!(stop, Stop::Finished);
    assert!(failures.is_empty());
    assert!(contents(&mem).iter().all(|&w| w == 0x5555_5555_5555_5555));
}

#[test]
fn corruption_before_the_read_is_caught() {
    let mut mem = buffer(vec![0xFFu64; 32]);
    let base = BASE;
    let mut failures = Vec::new();
    mem.write(17, 0xFF ^ (1 << 3)); // one flipped bit vs the expected 0xFF
    swept(&mut mem, Direction::Ascending, &[CellOp::Read(0xFF), CellOp::Write(0)], &mut failures);
    assert_eq!(failures.len(), 1);
    assert_eq!(failures[0].word_index, 17);
    assert_eq!(failures[0].flipped_bits(), 1);
}

#[test]
fn moving_inversions_empty_buffer_is_a_noop() {
    let mut mem = buffer(vec![]);
    let mut failures = Vec::new();
    let stop = swept(&mut mem, Direction::Ascending, &[CellOp::Read(0), CellOp::Write(0)], &mut failures);
    assert_eq!(stop, Stop::Finished);
    assert!(failures.is_empty());
}

#[test]
fn budget_caps_a_wholly_bad_sweep() {
    let mut mem = buffer(vec![0u64; 4096]); // all wrong against expected all-ones
    let base = BASE;
    let mut failures = Vec::new();
    let mut budget = FailureBudget::new(100);
    let stop = sweep(
        &mut mem,
        &mut Watch::default(),
        Direction::Ascending,
        &[CellOp::Read(u64::MAX)],
        &mut failures,
        &mut budget,
    )
    .stop;
    assert_eq!(stop, Stop::Exhausted);
    assert_eq!(failures.len(), 100);
    assert!(budget.overflowed());
    assert!(budget.is_exhausted());
}

#[test]
fn moving_inversions_clean_memory_has_no_failures() {
    let mut mem = buffer(vec![0u64; 4096]);
    let failures =
        moving_inversions::run(&mut mem, &mut Watch::default(), &mut FailureBudget::unlimited());
    assert!(failures.is_empty());
}

#[test]
fn fires_one_subpass_per_phase() {
    let mut mem = buffer(vec![0u64; 256]);
    let mut watch = Watch::default();
    moving_inversions::run(&mut mem, &mut watch, &mut FailureBudget::unlimited());
    assert_eq!(watch.subpasses, moving_inversions::SUB_PASSES);
}

#[test]
fn moving_inversions_quit_stops_the_sequence_early() {
    let mut mem = buffer(vec![0u64; 256]);
    let mut watch = Watch { quit_after: Some(2), ..Watch::default() };
    moving_inversions::run(&mut mem, &mut watch, &mut FailureBudget::unlimited());
    assert_eq!(watch.subpasses, 2);
}

#[test]
fn fill_is_deterministic_across_serial_and_parallel() {
    // The same root must produce the same buffer regardless of thread
    // count, or a parallel fill could never be verified by a serial
    // replay (or vice versa).
    let mut serial = buffer(vec![0u64; 5000]);
    let mut parallel = buffer(vec![0u64; 5000]);
    filled(&mut serial, 0x1234);
    filled(&mut parallel, 0x1234);
    assert_eq!(contents(&serial), contents(&parallel));
}

#[test]
fn fill_is_not_all_one_value() {
    let mut buf = buffer(vec![0u64; 4096]);
    filled(&mut buf, 1);
    let first = buf.peek(0);
    assert!(contents(&buf).iter().any(|&w| w != first), "fill produced a constant");
}

#[test]
fn different_seeds_differ() {
    let mut a = buffer(vec![0u64; 4096]);
    let mut b = buffer(vec![0u64; 4096]);
    filled(&mut a, 1);
    filled(&mut b, 2);
    assert_ne!(contents(&a), contents(&b));
}

#[test]
fn fill_then_verify_is_clean_serial() {
    let mut buf = buffer(vec![0u64; 5000]);
    filled(&mut buf, 7);
    let base = BASE;
    let failures = checked(&mut buf, 7, &mut FailureBudget::unlimited());
    assert!(failures.is_empty());
}

#[test]
fn fill_then_verify_is_clean_parallel() {
    let mut buf = buffer(vec![0u64; 5000]);
    filled(&mut buf, 7);
    let base = BASE;
    let failures = checked(&mut buf, 7, &mut FailureBudget::unlimited());
    assert!(failures.is_empty());
}

#[test]
fn corruption_is_caught_with_correct_index() {
    let mut buf = buffer(vec![0u64; 4096]);
    filled(&mut buf, 9);
    let base = BASE;
    let good = buf.peek(1234);
    buf.write(1234, !good); // guaranteed different from the expected word
    let failures = checked(&mut buf, 9, &mut FailureBudget::unlimited());
    assert_eq!(failures.len(), 1);
    assert_eq!(failures[0].word_index, 1234);
    assert_eq!(failures[0].actual, !good);
    assert_eq!(failures[0].addr, base + 1234 * 8);
}

#[test]
fn budget_caps_wholly_bad_verify() {
    // Verify against a different root than was filled: every word
    // mismatches, so the budget must bound the collected failures.
    let mut buf = buffer(vec![0u64; 4096]);
    filled(&mut buf, 1);
    let base = BASE;
    let mut budget = FailureBudget::new(100);
    let failures = checked(&mut buf, 2, &mut budget);
    assert!(failures.len() <= 100);
    assert!(budget.is_exhausted());
}

#[test]
fn empty_buffer_is_clean() {
    let mut buf = buffer(vec![]);
    filled(&mut buf, 1);
    let failures = checked(&mut buf, 1, &mut FailureBudget::unlimited());
    assert!(failures.is_empty());
}

#[test]
fn random_clean_memory_has_no_failures() {
    let mut buf = buffer(vec![0u64; 5000]);
    let failures = random::run(
        &mut buf,
        &mut Watch::default(),
        0xDEAD,
        3,
        &mut FailureBudget::unlimited(),
    );
    assert!(failures.is_empty());
}

#[test]
fn fires_two_subpasses_per_pass() {
    let mut buf = buffer(vec![0u64; 256]);
    let mut watch = Watch::default();
    random::run(&mut buf, &mut watch, 1, 4, &mut FailureBudget::unlimited());
    assert_eq!(watch.subpasses, 8); // 4 passes x (fill + verify)
}

#[test]
fn seed_is_reproducible() {
    // Two runs with the same seed corrupt-detect identically: fill, then
    // an independent replay via a fresh run over a copy must agree.
    let mut a = buffer(vec![0u64; 4096]);
    let mut b = buffer(vec![0u64; 4096]);
    random::run(
        &mut a,
        &mut Watch::default(),
        0x5EED,
        1,
        &mut FailureBudget::unlimited(),
    );
    random::run(
        &mut b,
        &mut Watch::default(),
        0x5EED,
        1,
        &mut FailureBudget::unlimited(),
    );
    // After a full run the buffer holds the last pass's sequence; same
    // seed must leave identical contents.
    assert_eq!(contents(&a), contents(&b));
}

#[test]
fn quit_stops_early() {
    let mut buf = buffer(vec![0u64; 256]);
    let mut watch = Watch { quit_after: Some(2), ..Watch::default() };
    random::run(&mut buf, &mut watch, 1, 8, &mut FailureBudget::unlimited());
    assert_eq!(watch.subpasses, 2);
}

#[test]
fn subpass_callback_fires() {
    let mut mem = buffer(vec![0u64; 1024]);
    let mut watch = Watch::default();
    solid::run(&mut mem, &mut watch, false, &mut FailureBudget::unlimited());
    assert_eq!(watch.subpasses, 2); // solid bits has 2 sub-passes
}

#[test]
fn mod_failure_display_format() {
    let f = Failure {
        addr: 0x1000,
        expected: 0xAAAA_AAAA_AAAA_AAAA,
        actual: 0xAAAA_AAAA_AABA_AAAA,
        word_index: 0,
        phys_addr: None,
    };
    assert_eq!(f.flipped_bits(), 1);
    let s = f.to_string();
    assert!(s.contains("FAIL"));
    assert!(s.contains("1 bit(s)"));
}

#[test]
fn pattern_all_covers_every_variant() {
    let all = Pattern::all();
    assert_eq!(all.len(), 6);
    for pattern in &all {
        assert_eq!(all.iter().filter(|p| *p == pattern).count(), 1);
    }
}

/// Every pattern must declare at least one fault class and belong to at
/// least one tier -- a pattern that detects nothing or runs in no tier
/// is dead weight and almost certainly a metadata mistake.
#[test]
fn every_pattern_has_faults_and_tiers() {
    for pattern in Pattern::all() {
        let meta = pattern.metadata();
        assert!(
            !meta.fault_classes.is_empty(),
            "pattern {pattern:?} declares no fault classes"
        );
        assert!(
            !meta.tiers.is_empty(),
            "pattern {pattern:?} belongs to no tier"
        );
    }
}

/// The Thorough tier is the superset -- anything a lighter tier runs,
/// Thorough must also run, or "thorough" is a lie.
#[test]
fn thorough_tier_is_a_superset() {
    for pattern in Pattern::all() {
        let tiers = pattern.metadata().tiers;
        if tiers.contains(&PatternTier::Quick) || tiers.contains(&PatternTier::Standard) {
            assert!(
                tiers.contains(&PatternTier::Thorough),
                "pattern {pattern:?} runs in a lighter tier but not Thorough"
            );
        }
    }
}

/// A quit requested mid-pattern must stop the sub-pass loop early
/// instead of grinding through all 64 walking-ones cycles.
#[test]
fn walking_ones_stops_when_quit_requested_mid_pattern() {
    let mut mem = buffer(vec![0u64; 1024]);
    let mut watch = Watch { quit_after: Some(3), ..Watch::default() };
    run_pattern(Pattern::WalkingOnes, &mut mem, &mut watch, false, &mut FailureBudget::unlimited());
    assert_eq!(watch.subpasses, 3);
}

/// Without a quit, the pattern runs every sub-pass to completion.
#[test]
fn walking_ones_runs_all_sub_passes_without_quit() {
    let mut mem = buffer(vec![0u64; 1024]);
    let mut watch = Watch::default();
    run_pattern(Pattern::WalkingOnes, &mut mem, &mut watch, false, &mut FailureBudget::unlimited());
    assert_eq!(watch.subpasses, 64);
}

#[test]
fn fill_verify_constant_clean_memory() {
    let mut mem = buffer(vec![0u64; 1024]);
    let mut budget = FailureBudget::unlimited();
    let failures =
        ops::fill_verify_constant(&mut mem, &mut Watch::default(), u64::MAX, false, &mut budget);
    assert!(failures.is_empty());
}

#[test]
fn fill_verify_constant_single_word() {
    let mut mem = buffer(vec![0u64; 1]);
    let mut budget = FailureBudget::unlimited();
    let failures =
        ops::fill_verify_constant(&mut mem, &mut Watch::default(), 0xDEAD_BEEF, false, &mut budget);
    assert!(failures.is_empty());
}

#[test]
fn fill_verify_constant_empty_buffer() {
    let mut mem = buffer(vec![]);
    let mut budget = FailureBudget::unlimited();
    let failures =
        ops::fill_verify_constant(&mut mem, &mut Watch::default(), 0xFF, false, &mut budget);
    assert!(failures.is_empty());
}

#[test]
fn fill_verify_indexed_single_word() {
    let mut mem = buffer(vec![0u64; 1]);
    let mut budget = FailureBudget::unlimited();
    let failures = ops::fill_verify_indexed(&mut mem, &mut Watch::default(), false, &mut budget);
    assert!(failures.is_empty());
}

#[test]
fn fill_verify_indexed_empty_buffer() {
    let mut mem = buffer(vec![]);
    let mut budget = FailureBudget::unlimited();
    let failures = ops::fill_verify_indexed(&mut mem, &mut Watch::default(), false, &mut budget);
    assert!(failures.is_empty());
}

#[test]
fn fill_verify_constant_parallel_clean() {
    let mut budget = FailureBudget::unlimited();
    for part in [vec![0u64; 2048], vec![0u64; 2048]] {
        let failures = ops::fill_verify_constant(
            &mut buffer(part),
            &mut Watch::default(),
            0x5555_5555_5555_5555,
            true,
            &mut budget,
        );
        assert!(failures.is_empty());
    }
}

#[test]
fn fill_verify_indexed_parallel_clean() {
    let mut budget = FailureBudget::unlimited();
    for part in [vec![0u64; 2048], vec![0u64; 2048]] {
        let failures =
            ops::fill_verify_indexed(&mut buffer(part), &mut Watch::default(), true, &mut budget);
        assert!(failures.is_empty());
    }
}

#[test]
fn fill_and_verify_calls_on_complete() {
    let mut watch = Watch::default();
    let mut budget = FailureBudget::unlimited();
    fill_and_verify(&mut buffer(vec![0u64; 64]), &mut watch, 0xAA, false, &mut budget);
    assert_eq!(watch.subpasses, 1);
}

#[test]
fn non_chunk_multiple_buffer_size() {
    let mut mem = buffer(vec![0u64; 1000]);
    let mut budget = FailureBudget::unlimited();
    let failures = ops::fill_verify_constant(
        &mut mem,
        &mut Watch::default(),
        0x1234_5678_9ABC_DEF0,
        false,
        &mut budget,
    );
    assert!(failures.is_empty());
    let failures = ops::fill_verify_indexed(&mut mem, &mut Watch::default(), false, &mut budget);
    assert!(failures.is_empty());
}

#[test]
fn constant_detects_single_corruption_serial() {
    let pattern = 0xAAAA_AAAA_AAAA_AAAAu64;
    let mut buf = vec![pattern; 1024];
    buf[42] = 0xBBBB_BBBB_BBBB_BBBBu64;
    let failures = ops::scalar::verify_constant(&buf, pattern, BASE, 0);
    assert_eq!(failures.len(), 1);
}

#[test]
fn solid_bits_no_failures_on_good_memory() {
    assert!(runs_clean(Pattern::SolidBits, 1));
}

#[test]
fn walking_ones_no_failures() {
    assert!(runs_clean(Pattern::WalkingOnes, 1));
}

#[test]
fn checkerboard_no_failures() {
    assert!(runs_clean(Pattern::Checkerboard, 1));
}

#[test]
fn stuck_address_no_failures() {
    assert!(runs_clean(Pattern::StuckAddress, 1));
}

#[test]
fn parallel_solid_bits_no_failures() {
    assert!(runs_clean(Pattern::SolidBits, 2));
}

#[test]
fn parallel_walking_ones_no_failures() {
    assert!(runs_clean(Pattern::WalkingOnes, 2));
}

#[test]
fn parallel_stuck_address_no_failures() {
    assert!(runs_clean(Pattern::StuckAddress, 2));
}

#[test]
fn pattern_failure_display_format() {
    let f = Failure {
        addr: 0x1000,
        expected: 0xAAAA_AAAA_AAAA_AAAA,
        actual: 0xAAAA_AAAA_AABA_AAAA,
        word_index: 0,
        phys_addr: None,
    };
    assert_eq!(f.flipped_bits(), 1);
    let s = f.to_string();
    assert!(s.contains("FAIL"));
    assert!(s.contains("1 bit(s)"));
}

#[test]
fn every_pattern_is_clean_on_sound_memory() {
    for pattern in Pattern::all() {
        assert!(runs_clean(pattern, 1));
        assert!(runs_clean(pattern, 2));
    }
}

#[test]
fn patterns_are_named_and_counted() {
    let expected = [
        (Pattern::SolidBits, "Solid Bits", 2),
        (Pattern::WalkingOnes, "Walking Ones", 64),
        (Pattern::WalkingZeros, "Walking Zeros", 64),
        (Pattern::Checkerboard, "Checkerboard", 2),
        (Pattern::StuckAddress, "Stuck Address", 1),
        (Pattern::MarchCMinus, "March C-", 6),
    ];
    for (pattern, name, sub_passes) in expected {
        assert_eq!(pattern.to_string(), name);
        assert_eq!(pattern.sub_passes(), sub_passes);
        let mut watch = Watch::default();
        let mut budget = FailureBudget::unlimited();
        run_pattern(pattern, &mut buffer(vec![0u64; 64]), &mut watch, false, &mut budget);
        assert_eq!(watch.subpasses, sub_passes);
    }
}

#[test]
fn patterns_declare_what_they_find() {
    let expected: [(Pattern, &[FaultClass], Complexity); 6] = [
        (Pattern::SolidBits, &[StuckAt], Complexity::Linear),
        (Pattern::WalkingOnes, &[StuckAt, Coupling], Complexity::LinearK(64)),
        (Pattern::WalkingZeros, &[StuckAt, Coupling], Complexity::LinearK(64)),
        (Pattern::Checkerboard, &[StuckAt, Coupling], Complexity::Linear),
        (Pattern::StuckAddress, &[AddressDecoder], Complexity::Linear),
        (
            Pattern::MarchCMinus,
            &[StuckAt, Transition, AddressDecoder, Coupling],
            Complexity::LinearK(10),
        ),
    ];
    for (pattern, faults, complexity) in expected {
        let meta = pattern.metadata();
        assert_eq!(meta.fault_classes, faults);
        assert_eq!(meta.complexity, complexity);
        assert!(!meta.requires_physical_order);
        assert!(!meta.is_destructive);
    }
}

/// Memory in which one bit of one word always reads as one.
struct StuckHigh {
    words: Vec<u64>,
    at: usize,
    bit: u32,
}

impl Memory for StuckHigh {
    fn word_count(&self) -> usize {
        self.words.len()
    }

    fn base_addr(&self) -> usize {
        BASE
    }

    fn write(&mut self, index: usize, word: u64) {
        self.words[index] = word;
    }

    fn read(&mut self, index: usize) -> u64 {
        let word = self.words[index];
        if index == self.at {
            word | 1 << self.bit
        } else {
            word
        }
    }
}

#[test]
fn a_stuck_bit_is_found_where_it_is() {
    for pattern in Pattern::all() {
        if pattern == Pattern::StuckAddress {
            continue;
        }
        let mut mem = StuckHigh { words: vec![0; 64], at: 17, bit: 5 };
        let mut budget = FailureBudget::unlimited();
        let failures = run_pattern(pattern, &mut mem, &mut Unattended::new(), false, &mut budget);
        assert!(!failures.is_empty(), "{pattern:?}");
        for f in &failures {
            assert_eq!(f.word_index, 17);
            assert_eq!(f.addr, BASE + 17 * 8);
            assert_eq!(f.actual ^ f.expected, 1 << 5);
        }
    }
}

#[test]
fn a_run_ends_when_the_budget_is_used_up() {
    let mut mem = StuckHigh { words: vec![0; 64], at: 17, bit: 5 };
    let mut budget = FailureBudget::new(3);
    let mut watch = Watch::default();
    let failures = run_pattern(Pattern::WalkingOnes, &mut mem, &mut watch, false, &mut budget);
    assert_eq!(failures.len(), 3);
    assert!(watch.subpasses < 64);
}

#[test]
fn chunks_of_random_words_are_jumps_apart() {
    let mut mem = buffer(vec![0u64; CHUNK_WORDS + 2]);
    filled(&mut mem, 0x5EED);
    let mut first = Xoshiro256StarStar::seed_from_u64(0x5EED);
    let mut second = first.clone();
    second.jump();
    assert_eq!(mem.peek(0), first.next_u64());
    assert_eq!(mem.peek(1), first.next_u64());
    assert_eq!(mem.peek(CHUNK_WORDS), second.next_u64());
    assert_eq!(mem.peek(CHUNK_WORDS + 1), second.next_u64());
}

#[test]
fn passes_of_random_words_are_long_jumps_apart() {
    let mut mem = buffer(vec![0u64; 2]);
    random::run(&mut mem, &mut Watch::default(), 7, 3, &mut FailureBudget::unlimited());
    let mut third = Xoshiro256StarStar::seed_from_u64(7);
    third.long_jump();
    third.long_jump();
    assert_eq!(contents(&mem), [third.next_u64(), third.next_u64()]);
}
