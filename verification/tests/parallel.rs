//! The memory in shares.

use ferrite::buffer::{Unattended, WordBuffer};
use ferrite::parallel::{divide, gather, is_divisible, Share, ShareOutcome};
use ferrite::pattern::{run_pattern, Pattern};
use ferrite::{Failure, FailureBudget};

fn share(first: usize, count: usize) -> Share {
    Share { first, count }
}

fn failure(word_index: usize) -> Failure {
    Failure {
        addr: 0x1000 + word_index * 8,
        expected: 1,
        actual: 0,
        word_index,
        phys_addr: None,
    }
}

#[test]
fn words_are_divided_evenly() {
    assert_eq!(divide(12, 3), vec![share(0, 4), share(4, 4), share(8, 4)]);
    assert_eq!(divide(10, 3), vec![share(0, 4), share(4, 4), share(8, 2)]);
    assert_eq!(divide(10, 1), vec![share(0, 10)]);
    // No share is empty.
    assert_eq!(divide(2, 8), vec![share(0, 1), share(1, 1)]);
    assert_eq!(divide(9, 4), vec![share(0, 3), share(3, 3), share(6, 3)]);
    assert_eq!(divide(0, 4), vec![]);
    assert_eq!(divide(usize::MAX, 1), vec![share(0, usize::MAX)]);
}

#[test]
fn every_word_has_one_share() {
    for total in 0..40 {
        for parts in 1..10 {
            let shares = divide(total, parts);
            assert!(shares.len() <= parts);
            for word in 0..total {
                let holders = shares
                    .iter()
                    .filter(|s| s.first <= word && word < s.first + s.count)
                    .count();
                assert_eq!(holders, 1);
            }
        }
    }
}

#[test]
fn order_and_place_stay_in_one_share() {
    assert!(is_divisible(Pattern::SolidBits));
    assert!(is_divisible(Pattern::WalkingZeros));
    assert!(!is_divisible(Pattern::StuckAddress));
    assert!(!is_divisible(Pattern::MarchCMinus));
}

#[test]
fn failures_are_placed_in_the_whole() {
    let outcomes = vec![
        ShareOutcome { first: 0, failures: vec![failure(3)], overflowed: false },
        ShareOutcome { first: 100, failures: vec![failure(0), failure(7)], overflowed: false },
    ];
    let (failures, capped) = gather(&outcomes, &mut FailureBudget::unlimited());
    let places: Vec<usize> = failures.iter().map(|f| f.word_index).collect();
    assert_eq!(places, [3, 100, 107]);
    assert_eq!(failures[2].addr, failure(7).addr);
    assert!(!capped);

    let (failures, capped) = gather(&outcomes, &mut FailureBudget::new(2));
    assert_eq!(failures.len(), 2);
    assert!(capped);
}

#[test]
fn a_share_with_too_many_failures_is_remembered() {
    let outcomes = vec![ShareOutcome { first: 8, failures: vec![], overflowed: true }];
    let (failures, capped) = gather(&outcomes, &mut FailureBudget::unlimited());
    assert!(failures.is_empty());
    assert!(capped);
}

#[test]
fn shares_are_left_as_the_whole_is() {
    for pattern in Pattern::all() {
        if !is_divisible(pattern) {
            continue;
        }
        let last_word = |words: usize| {
            let mut mem = WordBuffer::new(vec![0; words], 0x1000);
            run_pattern(
                pattern,
                &mut mem,
                &mut Unattended::new(),
                true,
                &mut FailureBudget::unlimited(),
            );
            mem.peek(words - 1)
        };
        assert_eq!(last_word(64), last_word(16));
    }
}
