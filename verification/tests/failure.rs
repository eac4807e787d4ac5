//! Failures and the budget for them.

use ferrite::failure::bit_positions;
use ferrite::physmem::phys::PhysAddr;
use ferrite::{Failure, FailureBudget};

/// Builds a failure: what is not given is zero, the word index follows from the
/// address.
#[derive(Default)]
struct FailureBuilder {
    addr: usize,
    expected: u64,
    actual: u64,
    phys: Option<u64>,
}

impl FailureBuilder {
    fn addr(mut self, addr: usize) -> Self {
        self.addr = addr;
        self
    }

    fn expected(mut self, expected: u64) -> Self {
        self.expected = expected;
        self
    }

    fn actual(mut self, actual: u64) -> Self {
        self.actual = actual;
        self
    }

    fn phys(mut self, phys: u64) -> Self {
        self.phys = Some(phys);
        self
    }

    fn build(self) -> Failure {
        Failure {
            addr: self.addr,
            expected: self.expected,
            actual: self.actual,
            word_index: self.addr / 8,
            phys_addr: self.phys.map(PhysAddr),
        }
    }
}

#[test]
fn failure_display_with_phys_addr() {
    let f = FailureBuilder::default()
        .addr(0x1000)
        .expected(0xFF)
        .actual(0xFE)
        .phys(0xdead_beef)
        .build();
    let s = f.to_string();
    assert!(s.contains("phys=0xdeadbeef"));
    assert!(s.contains("1 bit(s)"));
}

#[test]
fn failure_display_without_phys_addr() {
    let f = FailureBuilder::default()
        .addr(0x2000)
        .expected(0xFF)
        .actual(0xFE)
        .build();
    let s = f.to_string();
    assert!(!s.contains("phys="));
    assert!(s.contains("1 bit(s)"));
}

#[test]
fn flipped_bit_indices_single_bit() {
    let f = FailureBuilder::default()
        .expected(0x00)
        .actual(0x08) // bit 3
        .build();
    assert_eq!(f.flipped_bit_indices(), vec![3]);
}

#[test]
fn flipped_bit_indices_multiple_bits() {
    let f = FailureBuilder::default()
        .expected(0x00)
        .actual(0b1010_0101) // bits 0, 2, 5, 7
        .build();
    assert_eq!(f.flipped_bit_indices(), vec![0, 2, 5, 7]);
}

#[test]
fn flipped_bit_indices_no_diff() {
    let f = FailureBuilder::default()
        .expected(0xAA)
        .actual(0xAA)
        .build();
    assert!(f.flipped_bit_indices().is_empty());
}

#[test]
fn flipped_bit_indices_high_bit() {
    let f = FailureBuilder::default()
        .expected(0)
        .actual(1u64 << 63)
        .build();
    assert_eq!(f.flipped_bit_indices(), vec![63]);
}

#[test]
fn builder_word_index_default() {
    let f = FailureBuilder::default().addr(0x100).build();
    assert_eq!(f.word_index, 0x100 / 8);
}

#[test]
fn xor_and_flipped_bits() {
    let f = FailureBuilder::default()
        .expected(0xFF00_FF00_FF00_FF00)
        .actual(0x00FF_00FF_00FF_00FF)
        .build();
    assert_eq!(f.xor(), 0xFFFF_FFFF_FFFF_FFFF);
    assert_eq!(f.flipped_bits(), 64);
}

fn failures(n: usize) -> Vec<Failure> {
    (0..n)
        .map(|i| Failure {
            addr: i * 8,
            expected: 0,
            actual: 1,
            word_index: i,
            phys_addr: None,
        })
        .collect()
}

#[test]
fn unlimited_never_caps() {
    let mut b = FailureBudget::unlimited();
    let mut f = failures(10_000);
    b.cap(&mut f);
    assert_eq!(f.len(), 10_000);
    assert!(!b.overflowed());
    assert!(!b.is_exhausted());
}

#[test]
fn cap_truncates_single_batch_to_limit() {
    let mut b = FailureBudget::new(100);
    let mut f = failures(250);
    b.cap(&mut f);
    assert_eq!(f.len(), 100);
    assert!(b.overflowed());
    assert!(b.is_exhausted());
}

#[test]
fn cap_spans_multiple_batches() {
    let mut b = FailureBudget::new(100);
    let mut a = failures(60);
    let mut c = failures(60);
    b.cap(&mut a);
    b.cap(&mut c);
    // First batch takes 60, second is truncated to the remaining 40.
    assert_eq!(a.len(), 60);
    assert_eq!(c.len(), 40);
    assert!(b.overflowed());
    assert!(b.is_exhausted());
}

#[test]
fn cap_under_limit_leaves_batch_and_flag_untouched() {
    let mut b = FailureBudget::new(100);
    let mut f = failures(40);
    b.cap(&mut f);
    assert_eq!(f.len(), 40);
    assert!(!b.overflowed());
    assert!(!b.is_exhausted());
}

#[test]
fn claim_grants_then_exhausts() {
    let mut b = FailureBudget::new(10);
    assert_eq!(b.claim(4), 4);
    assert_eq!(b.claim(4), 4);
    // Only 2 slots remain despite asking for 5.
    assert_eq!(b.claim(5), 2);
    assert_eq!(b.claim(1), 0);
    assert!(b.is_exhausted());
}

#[test]
fn empty_batch_is_a_noop() {
    let mut b = FailureBudget::new(10);
    let mut f: Vec<Failure> = Vec::new();
    b.cap(&mut f);
    assert!(!b.overflowed());
    assert!(!b.is_exhausted());
}

#[test]
fn failure_line_in_full() {
    let f = FailureBuilder::default()
        .addr(0x1000)
        .expected(0xFF)
        .actual(0xFE)
        .phys(0xdead_beef)
        .build();
    assert_eq!(
        f.to_string(),
        "FAIL  addr=0x0000000000001000  phys=0xdeadbeef  expected=0x00000000000000ff  \
         actual=0x00000000000000fe  xor=0x0000000000000001 (1 bit(s))"
    );
}

#[test]
fn flipped_bits_and_indices_agree() {
    let mut x: u64 = 0x9E37_79B9_7F4A_7C15;
    for _ in 0..200 {
        x ^= x << 13;
        x ^= x >> 7;
        x ^= x << 17;
        let f = FailureBuilder::default().expected(x).actual(x.rotate_left(17)).build();
        assert!(f.flipped_bits() <= 64);
        assert_eq!(f.flipped_bit_indices().len() as u32, f.flipped_bits());
        assert_eq!(f.flipped_bits(), f.xor().count_ones());
    }
    assert_eq!(bit_positions(u64::MAX).len(), 64);
}

#[test]
fn zero_limit_keeps_everything() {
    let mut b = FailureBudget::new(0);
    let mut f = failures(5);
    b.cap(&mut f);
    assert_eq!(f.len(), 5);
    assert!(!b.overflowed());
}

#[test]
fn marked_overflow_is_remembered() {
    let mut b = FailureBudget::new(10);
    assert!(!b.overflowed());
    b.mark_overflow();
    assert!(b.overflowed());
}

#[test]
fn batches_are_served_in_turn() {
    let sizes = [3, 0, 4, 2, 5];
    let all: usize = sizes.iter().sum();
    for max in 1..=all + 2 {
        let mut budget = FailureBudget::new(max);
        let mut kept: Vec<Failure> = vec![];
        let mut given: Vec<Failure> = vec![];
        for (n, &size) in sizes.iter().enumerate() {
            let batch: Vec<Failure> = (0..size)
                .map(|i| FailureBuilder::default().addr(100 * n + 8 * i).actual(1).build())
                .collect();
            let mut served = batch.clone();
            budget.cap(&mut served);
            assert_eq!(served, batch[..served.len()]);
            kept.extend(served);
            given.extend(batch);
        }
        assert_eq!(kept, given[..max.min(all)]);
        assert_eq!(budget.overflowed(), all > max);
        assert_eq!(budget.is_exhausted(), all >= max);
    }
}
