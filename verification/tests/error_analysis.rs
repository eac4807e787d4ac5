//! What the flipped bits say.

use ferrite::error_analysis::{analyze, BitErrorStats, ErrorClassification};
use ferrite::pattern::Pattern;
use ferrite::physmem::phys::PhysAddr;
use ferrite::runner::{PassResult, PatternResult, RunConfig, RunResults};
use ferrite::Failure;

/// Builds a failure: what is not given is zero, the word index follows from the
/// address.
#[derive(Default)]
struct FailureBuilder {
    addr: usize,
    expected: u64,
    actual: u64,
    phys: Option<u64>,
}

impl FailureBuilder {
    fn addr(mut self, addr: usize) -> Self {
        self.addr = addr;
        self
    }

    fn expected(mut self, expected: u64) -> Self {
        self.expected = expected;
        self
    }

    fn actual(mut self, actual: u64) -> Self {
        self.actual = actual;
        self
    }

    fn phys(mut self, phys: u64) -> Self {
        self.phys = Some(phys);
        self
    }

    fn build(self) -> Failure {
        Failure {
            addr: self.addr,
            expected: self.expected,
            actual: self.actual,
            word_index: self.addr / 8,
            phys_addr: self.phys.map(PhysAddr),
        }
    }
}

fn f(addr: usize, expected: u64, actual: u64) -> Failure {
    FailureBuilder::default()
        .addr(addr)
        .expected(expected)
        .actual(actual)
        .build()
}

fn f_phys(addr: usize, expected: u64, actual: u64, phys: u64) -> Failure {
    FailureBuilder::default()
        .addr(addr)
        .expected(expected)
        .actual(actual)
        .phys(phys)
        .build()
}

#[test]
fn default_is_new() {
    let d = BitErrorStats::default();
    let n = BitErrorStats::new();
    assert_eq!(d.total_failures, n.total_failures);
    assert_eq!(d.union_xor_mask, n.union_xor_mask);
}

#[test]
fn empty_stats() {
    let stats = BitErrorStats::new();
    assert_eq!(stats.total_failures, 0);
    assert_eq!(stats.classification(), ErrorClassification::NoErrors);
}

#[test]
fn bit_position_counts() {
    let mut stats = BitErrorStats::new();
    // Bits 0, 1, and 2 flip -- bit 0 flips twice
    stats.record(&f(0x1000, 0x7, 0x4)); // bits 0,1 flipped
    stats.record(&f(0x2000, 0x5, 0x0)); // bits 0,2 flipped

    assert_eq!(stats.bit_positions[0], 2);
    assert_eq!(stats.bit_positions[1], 1);
    assert_eq!(stats.bit_positions[2], 1);
    assert_eq!(stats.bit_positions[3], 0);
    assert_eq!(stats.union_xor_mask, 0x7);
}

#[test]
fn single_stuck_high_bit() {
    let mut stats = BitErrorStats::new();
    // Bit 20 flipped from 0 to 1 in every error, with physical addresses
    stats.record(&f_phys(0x1000, 0x0, 1 << 20, 0x2000));
    stats.record(&f_phys(0x2000, 0x0, 1 << 20, 0x3000));

    assert_eq!(stats.total_failures, 2);
    assert_eq!(stats.stuck_high_mask(), 1 << 20);
    assert_eq!(stats.stuck_low_mask(), 0);
    assert_eq!(stats.union_xor_mask, 1 << 20);
    assert_eq!(stats.bit_positions[20], 2);
    assert_eq!(stats.lowest_phys, Some(0x2000));
    assert_eq!(stats.highest_phys, Some(0x3000));

    let ErrorClassification::StuckBit { positions } = stats.classification() else {
            panic!("unexpected value");
        };
    assert_eq!(positions, vec![20u8]);
}

#[test]
fn single_stuck_low_bit() {
    let mut stats = BitErrorStats::new();
    // Bit 5 flipped from 1 to 0 in every error
    stats.record(&f(0x1000, 1 << 5, 0x0));
    stats.record(&f(0x2000, 1 << 5, 0x0));

    assert_eq!(stats.stuck_high_mask(), 0);
    assert_eq!(stats.stuck_low_mask(), 1 << 5);

    let ErrorClassification::StuckBit { positions } = stats.classification() else {
            panic!("unexpected value");
        };
    assert_eq!(positions, vec![5u8]);
}

#[test]
fn coupling_errors_vary() {
    let mut stats = BitErrorStats::new();
    // Different bits flip each time -- no consistently stuck bit
    stats.record(&f(0x1000, 0xFF, 0xFE)); // bit 0 flipped
    stats.record(&f(0x2000, 0xFF, 0xFD)); // bit 1 flipped

    assert_eq!(stats.total_failures, 2);
    assert_eq!(stats.classification(), ErrorClassification::Coupling);
}

#[test]
fn mixed_errors() {
    let mut stats = BitErrorStats::new();
    // Bit 20 always flips 0->1, but bit 5 only flips once
    stats.record(&f(0x1000, 0x0, (1 << 20) | (1 << 5)));
    stats.record(&f(0x2000, 0x0, 1 << 20));

    assert_eq!(stats.stuck_high_mask(), 1 << 20);
    assert_eq!(stats.classification(), ErrorClassification::Mixed);
}

/// A small deterministic generator.
struct Draws(u64);

impl Draws {
    fn next(&mut self) -> u64 {
        self.0 ^= self.0 << 13;
        self.0 ^= self.0 >> 7;
        self.0 ^= self.0 << 17;
        self.0
    }
}


fn random_failures(draws: &mut Draws) -> Vec<Failure> {
    let count = 1 + draws.next() % 20;
    (0..count)
        .map(|i| f(i as usize * 8, draws.next() & draws.next(), draws.next() | draws.next()))
        .collect()
}

fn stats_of(failures: &[Failure]) -> BitErrorStats {
    let mut stats = BitErrorStats::new();
    for f in failures {
        stats.record(f);
    }
    stats
}

#[test]
fn recorded_failures_show() {
    let mut draws = Draws(1);
    for _ in 0..50 {
        let stats = stats_of(&random_failures(&mut draws));
        assert!(!matches!(stats.classification(), ErrorClassification::NoErrors));
    }
}

#[test]
fn stuck_bits_have_flipped() {
    let mut draws = Draws(2);
    for _ in 0..50 {
        let stats = stats_of(&random_failures(&mut draws));
        let stuck = stats.stuck_high_mask() | stats.stuck_low_mask();
        assert_eq!(stuck & !stats.union_xor_mask, 0);
        if let ErrorClassification::StuckBit { positions } = stats.classification() {
            for &pos in &positions {
                assert!(stats.union_xor_mask & (1u64 << pos) != 0);
            }
        }
    }
}

#[test]
fn order_of_failures_does_not_matter() {
    let mut draws = Draws(3);
    for _ in 0..50 {
        let failures = random_failures(&mut draws);
        let mut permuted = failures.clone();
        permuted.reverse();
        permuted.sort_by_key(|f| f.expected % 7);
        let a = stats_of(&failures);
        let b = stats_of(&permuted);
        assert_eq!(a.total_failures, b.total_failures);
        assert_eq!(a.union_xor_mask, b.union_xor_mask);
        assert_eq!(a.bit_positions, b.bit_positions);
        assert_eq!(a.stuck_high_mask(), b.stuck_high_mask());
        assert_eq!(a.stuck_low_mask(), b.stuck_low_mask());
    }
}

#[test]
fn stuck_positions_are_exhaustive() {
    let mut draws = Draws(4);
    for _ in 0..50 {
        let stuck_mask = draws.next() | 1;
        let expected = draws.next() & !stuck_mask;
        let failures: Vec<Failure> =
            (0..5).map(|i| f(i * 8, expected, expected | stuck_mask)).collect();
        let wanted: Vec<u8> = (0u8..64).filter(|&b| stuck_mask & (1u64 << b) != 0).collect();
        assert_eq!(
            stats_of(&failures).classification(),
            ErrorClassification::StuckBit { positions: wanted }
        );
    }
}

#[test]
fn the_tally_adds_up() {
    let result = |pattern: Pattern, count: usize| PatternResult {
        pattern,
        failures: (0..count).map(|i| f(i * 8, 0, 1)).collect(),
        elapsed: 0,
        bytes_processed: 0,
        interrupted: false,
        capped: false,
    };
    let pass = |pass_number: usize, pattern_results: Vec<PatternResult>| PassResult {
        pass_number,
        pattern_results,
        ecc_deltas: vec![],
    };
    let mut results = RunResults::from_passes(
        vec![
            pass(1, vec![result(Pattern::WalkingOnes, 2), result(Pattern::SolidBits, 0)]),
            pass(2, vec![result(Pattern::Checkerboard, 3), result(Pattern::WalkingOnes, 4)]),
        ],
        RunConfig {
            size: 64,
            passes: 2,
            patterns: vec![],
            workers: 1,
        },
        0,
    );
    analyze(&mut results);
    let tally = results.error_analysis.unwrap().per_pattern_failures;
    assert_eq!(tally, vec![(Pattern::WalkingOnes, 6), (Pattern::Checkerboard, 3)]);
    assert_eq!(tally.iter().map(|(_, n)| n).sum::<usize>(), results.total_failures);
}

#[test]
fn a_bit_is_stuck_if_every_failure_turned_it_the_same_way() {
    let lists: [&[(u64, u64)]; 5] = [
        &[],
        &[(0b0011, 0b0101)],
        &[(0b0011, 0b0101), (0b1011, 0b0101)],
        &[(0b0011, 0b0101), (0b0101, 0b0011)],
        &[(0, u64::MAX), (1 << 63, u64::MAX >> 1), (0, 1)],
    ];
    for list in lists {
        let mut stats = BitErrorStats::new();
        for &(expected, actual) in list {
            stats.record(&f(0x1000, expected, actual));
        }
        let (high, low) = (stats.stuck_high_mask(), stats.stuck_low_mask());
        for b in 0..64 {
            let set = |word: u64| word >> b & 1 == 1;
            let raised = !list.is_empty() && list.iter().all(|&(e, a)| !set(e) && set(a));
            let lowered = !list.is_empty() && list.iter().all(|&(e, a)| set(e) && !set(a));
            assert_eq!(set(high), raised);
            assert_eq!(set(low), lowered);
        }
        assert_eq!(high & low, 0);
        assert_eq!((high | low) & !stats.union_xor_mask, 0);
    }
}
