//! Memory whose cells disturb each other or do not turn, and how a run stops.

use ferrite::buffer::{Unattended, WordBuffer};
use ferrite::memory::{Memory, Monitor};
use ferrite::pattern::rounds::run_rounds;
use ferrite::pattern::sweep::{run_phases, sweep, CellOp, Direction, Stop};
use ferrite::pattern::{march, moving_inversions, random, run_pattern, Pattern};
use ferrite::{Failure, FailureBudget};

/// Where test memory begins.
const BASE: usize = 0x1000;

#[derive(Debug, Clone, Copy)]
enum Fault {
    /// A turn of the aggressor sets the victim.
    Sets(bool),
    /// A turn of the aggressor inverts the victim.
    Inverts,
    /// The victim is kept at a value while the aggressor is in its state.
    Keeps(bool),
    /// The victim itself does not turn.
    DoesNotTurn,
}

/// Words of which one bit is faulty.
struct Faulty {
    words: Vec<u64>,
    aggressor: usize,
    from: u32,
    victim: usize,
    at: u32,
    to: bool,
    fault: Fault,
}

fn bit(word: u64, b: u32) -> bool {
    word >> b & 1 == 1
}

fn with_bit(word: u64, b: u32, v: bool) -> u64 {
    if v {
        word | 1 << b
    } else {
        word & !(1 << b)
    }
}

impl Memory for Faulty {
    fn word_count(&self) -> usize {
        self.words.len()
    }

    fn base_addr(&self) -> usize {
        BASE
    }

    fn write(&mut self, index: usize, word: u64) {
        let before = self.words[index];
        self.words[index] = word;
        let turned = index == self.aggressor
            && bit(before, self.from) != self.to
            && bit(word, self.from) == self.to;
        let victim = self.words[self.victim];
        let held = bit(victim, self.at);
        let now = match self.fault {
            Fault::Sets(v) if turned => v,
            Fault::Inverts if turned => !held,
            Fault::Keeps(v) if bit(self.words[self.aggressor], self.from) == self.to => v,
            Fault::DoesNotTurn if index == self.victim && held == self.to => bit(before, self.at),
            _ => held,
        };
        self.words[self.victim] = with_bit(victim, self.at, now);
    }

    fn read(&mut self, index: usize) -> u64 {
        self.words[index]
    }
}

const CELLS: usize = 9;

fn faulty(aggressor: usize, victim: usize, from: u32, at: u32, to: bool, fault: Fault) -> Faulty {
    Faulty { words: vec![0x0F0F; CELLS], aggressor, from, victim, at, to, fault }
}

fn marched(mut mem: Faulty) -> Vec<Failure> {
    march::run(&mut mem, &mut Unattended::new(), &mut FailureBudget::unlimited())
}

fn inverted(mut mem: Faulty) -> Vec<Failure> {
    moving_inversions::run(&mut mem, &mut Unattended::new(), &mut FailureBudget::unlimited())
}

#[test]
fn march_finds_every_coupling_of_two_words() {
    let faults =
        [Fault::Sets(false), Fault::Sets(true), Fault::Inverts, Fault::Keeps(false), Fault::Keeps(true)];
    for fault in faults {
        for to in [false, true] {
            for (aggressor, victim) in [(0, 1), (1, 0), (2, 8), (8, 0), (4, 3)] {
                for (from, at) in [(0, 0), (63, 5), (7, 63)] {
                    let failures = marched(faulty(aggressor, victim, from, at, to, fault));
                    assert!(!failures.is_empty(), "{fault:?} {to} {aggressor} {victim}");
                    assert!(failures.iter().all(|f| f.word_index == victim));
                    assert!(failures.iter().all(|f| f.expected ^ f.actual == 1 << at));
                }
            }
        }
    }
}

#[test]
fn inversions_find_every_inverting_coupling_of_two_words() {
    for to in [false, true] {
        for (aggressor, victim) in [(0, 1), (1, 0), (2, 8), (8, 0)] {
            for (from, at) in [(0, 0), (63, 5), (7, 63)] {
                let failures = inverted(faulty(aggressor, victim, from, at, to, Fault::Inverts));
                assert!(!failures.is_empty(), "{to} {aggressor} {victim}");
            }
        }
    }
}

#[test]
fn a_bit_that_does_not_turn_is_found() {
    for to in [false, true] {
        for (cell, b) in [(0, 0), (4, 63), (8, 17)] {
            for failures in [
                marched(faulty(0, cell, 0, b, to, Fault::DoesNotTurn)),
                inverted(faulty(0, cell, 0, b, to, Fault::DoesNotTurn)),
            ] {
                assert!(!failures.is_empty(), "{to} {cell} {b}");
                assert!(failures.iter().all(|f| f.word_index == cell));
                assert!(failures.iter().all(|f| bit(f.actual, b) != to && bit(f.expected, b) == to));
            }
        }
    }
}

#[test]
fn tied_bits_are_found_by_every_pattern_that_claims_coupling() {
    for pattern in [
        Pattern::WalkingOnes,
        Pattern::WalkingZeros,
        Pattern::Checkerboard,
        Pattern::MarchCMinus,
    ] {
        for to in [false, true] {
            for (aggressor, victim) in [(0, 1), (1, 0), (2, 8)] {
                for (from, at) in [(0, 1), (63, 62), (5, 40)] {
                    let mut mem = faulty(aggressor, victim, from, at, to, Fault::Keeps(to));
                    let budget = &mut FailureBudget::unlimited();
                    let failures = run_pattern(pattern, &mut mem, &mut Unattended::new(), false, budget);
                    assert!(!failures.is_empty(), "{pattern:?} {to} {from} {at}");
                }
            }
        }
    }
}

#[test]
fn rounds_find_a_coupling_from_a_higher_cell_only() {
    // Even bits turn from 0 to 1 between the two words of a checkerboard.
    let failures = |aggressor, victim| {
        let mut mem = faulty(aggressor, victim, 4, 6, true, Fault::Inverts);
        let budget = &mut FailureBudget::unlimited();
        run_pattern(Pattern::Checkerboard, &mut mem, &mut Unattended::new(), false, budget)
    };
    let found = failures(5, 2);
    assert_eq!(found.len(), 1);
    assert_eq!(found[0].word_index, 2);
    assert_eq!(found[0].expected ^ found[0].actual, 1 << 6);
    assert!(failures(2, 5).is_empty());
}

#[test]
fn a_fill_and_check_misses_what_a_march_finds() {
    // A cell that sets a higher one to the value that the fill stores there next.
    let fault = Fault::Sets(true);
    let mut mem = faulty(0, 1, 0, 0, true, fault);
    let budget = &mut FailureBudget::unlimited();
    assert!(run_pattern(Pattern::SolidBits, &mut mem, &mut Unattended::new(), false, budget).is_empty());
    assert!(!marched(faulty(0, 1, 0, 0, true, fault)).is_empty());
}

/// What an operator heard and answered.
#[derive(Debug, Clone, Copy, PartialEq)]
enum Heard {
    Subpass,
    Activity,
    Poll(bool),
}

/// An operator who takes notes and asks for a stop at the `stop_at`-th question.
#[derive(Default)]
struct Notes {
    heard: Vec<Heard>,
    polls: usize,
    stop_at: Option<usize>,
}

impl Monitor for Notes {
    fn subpass(&mut self) {
        self.heard.push(Heard::Subpass);
    }

    fn activity(&mut self, _index: usize, _total: usize) {
        self.heard.push(Heard::Activity);
    }

    fn quit_requested(&mut self) -> bool {
        self.polls += 1;
        let quit = Some(self.polls) == self.stop_at;
        self.heard.push(Heard::Poll(quit));
        quit
    }
}

fn words(n: usize) -> WordBuffer {
    WordBuffer::new(vec![0; n], BASE)
}

#[test]
fn the_operator_is_asked_between_any_two_rounds() {
    for (poll_first, parallel) in [(false, false), (false, true), (true, false), (true, true)] {
        let mut notes = Notes::default();
        let budget = &mut FailureBudget::unlimited();
        run_rounds(&mut words(4), &mut notes, &[1, 2, 3], poll_first, parallel, budget);
        let mut expected = Vec::new();
        for w in 0..3 {
            if w > 0 || poll_first {
                expected.push(Heard::Poll(false));
            }
            // The fill, and side by side with others the check too.
            expected.push(Heard::Activity);
            if parallel {
                expected.push(Heard::Activity);
            }
            expected.push(Heard::Subpass);
        }
        assert_eq!(notes.heard, expected);
    }
}

#[test]
fn no_round_begins_after_a_stop_was_asked_for() {
    let budget = &mut FailureBudget::unlimited();
    let mut notes = Notes { stop_at: Some(1), ..Notes::default() };
    run_rounds(&mut words(4), &mut notes, &[1, 2, 3], false, false, budget);
    assert_eq!(notes.heard, [Heard::Activity, Heard::Subpass, Heard::Poll(true)]);
    let mut notes = Notes { stop_at: Some(1), ..Notes::default() };
    run_rounds(&mut words(4), &mut notes, &[1, 2, 3], true, true, budget);
    assert_eq!(notes.heard, [Heard::Poll(true)]);
}

#[test]
fn a_stop_in_the_midst_of_a_phase_ends_the_run() {
    let mut notes = Notes { stop_at: Some(1), ..Notes::default() };
    march::run(&mut words(4), &mut notes, &mut FailureBudget::unlimited());
    assert_eq!(notes.heard, [Heard::Activity, Heard::Poll(true), Heard::Subpass]);
    let mut notes = Notes { stop_at: Some(2), ..Notes::default() };
    march::run(&mut words(4), &mut notes, &mut FailureBudget::unlimited());
    assert_eq!(notes.heard, [Heard::Activity, Heard::Poll(false), Heard::Subpass, Heard::Poll(true)]);
}

#[test]
fn no_random_sub_pass_begins_after_a_stop_was_asked_for() {
    let mut notes = Notes { stop_at: Some(2), ..Notes::default() };
    random::run(&mut words(4), &mut notes, 7, 3, &mut FailureBudget::unlimited());
    assert_eq!(
        notes.heard,
        [Heard::Activity, Heard::Subpass, Heard::Poll(false), Heard::Activity, Heard::Subpass, Heard::Poll(true)]
    );
}

/// Memory that forgets what is stored.
struct Forgetful(usize);

impl Memory for Forgetful {
    fn word_count(&self) -> usize {
        self.0
    }

    fn base_addr(&self) -> usize {
        BASE
    }

    fn write(&mut self, _index: usize, _word: u64) {}

    fn read(&mut self, _index: usize) -> u64 {
        0x1234
    }
}

#[test]
fn no_sub_pass_begins_once_the_budget_is_used_up() {
    for pattern in
        [Pattern::SolidBits, Pattern::WalkingOnes, Pattern::WalkingZeros, Pattern::Checkerboard]
    {
        let mut notes = Notes::default();
        let mut budget = FailureBudget::new(4);
        let failures = run_pattern(pattern, &mut Forgetful(4), &mut notes, false, &mut budget);
        assert_eq!(failures.len(), 4, "{pattern:?}");
        assert!(budget.is_exhausted() && !budget.overflowed());
        assert_eq!(notes.heard.last(), Some(&Heard::Subpass));
        assert_eq!(notes.heard.iter().filter(|&&h| h == Heard::Subpass).count(), 1);
    }
    // The first march element and the first random sub-pass read nothing.
    let mut notes = Notes::default();
    march::run(&mut Forgetful(4), &mut notes, &mut FailureBudget::new(4));
    assert_eq!(notes.heard.iter().filter(|&&h| h == Heard::Subpass).count(), 2);
    let mut notes = Notes::default();
    random::run(&mut Forgetful(4), &mut notes, 7, 3, &mut FailureBudget::new(4));
    assert_eq!(notes.heard.iter().filter(|&&h| h == Heard::Subpass).count(), 2);
}

#[test]
fn a_sweep_that_uses_up_the_budget_says_so() {
    let mut failures = Vec::new();
    let mut budget = FailureBudget::new(8);
    let end = sweep(
        &mut words(8),
        &mut Unattended::new(),
        Direction::Ascending,
        &[CellOp::Read(u64::MAX)],
        &mut failures,
        &mut budget,
    );
    assert_eq!(end.stop, Stop::Exhausted);
    assert_eq!(end.cells, 8);
    assert_eq!(failures.len(), 8);
    assert!(budget.is_exhausted());
    assert!(!budget.overflowed());

    let mut failures = Vec::new();
    let mut budget = FailureBudget::new(9);
    let end = sweep(
        &mut words(8),
        &mut Unattended::new(),
        Direction::Descending,
        &[CellOp::Read(u64::MAX)],
        &mut failures,
        &mut budget,
    );
    assert_eq!(end.stop, Stop::Finished);
    assert!(!budget.is_exhausted());
}

#[test]
fn a_sweep_stops_at_the_checkpoint_where_the_budget_is_used_up() {
    let mut failures = Vec::new();
    let mut budget = FailureBudget::new(1);
    let mut notes = Notes::default();
    let end = sweep(
        &mut words(8),
        &mut notes,
        Direction::Ascending,
        &[CellOp::Read(u64::MAX)],
        &mut failures,
        &mut budget,
    );
    assert_eq!(end.stop, Stop::Exhausted);
    assert_eq!(end.cells, 1);
    assert_eq!(failures.len(), 1);
    assert!(notes.heard.is_empty());
}

#[test]
fn no_phase_begins_once_the_budget_is_used_up() {
    let mut failures = Vec::new();
    let mut budget = FailureBudget::new(8);
    let mut notes = Notes::default();
    let phases = march::elements();
    // The second element reads each of the eight words once.
    let begun = run_phases(&mut Forgetful(8), &mut notes, &phases, &mut failures, &mut budget);
    assert_eq!(begun, 2);
    assert_eq!(failures.len(), 8);
    assert!(!budget.overflowed());
    assert_eq!(notes.heard.last(), Some(&Heard::Subpass));
}
