//! Page frames and ranges of them.

use std::collections::BTreeSet;

use ferrite::physmem::pfn::{
    compact_pfns, contains_pfn, merge_ranges, subtract_ranges, tidied, total_frames, Pfn, PfnRange,
};
use ferrite::physmem::phys::PhysAddr;

fn r(start: u64, count: u64) -> PfnRange {
    PfnRange {
        start: Pfn(start),
        count,
    }
}

#[test]
fn addr_roundtrip() {
    assert_eq!(Pfn(5).to_addr(), PhysAddr(5 * 4096));
    assert_eq!(Pfn::from_addr(PhysAddr(5 * 4096 + 0x123)), Pfn(5));
}

#[test]
fn zero_is_a_valid_frame() {
    assert_eq!(Pfn(0).to_addr(), PhysAddr(0));
    assert_eq!(Pfn::from_addr(PhysAddr(0)), Pfn(0));
}

#[test]
fn kpageflags_offset_is_eight_bytes_per_frame() {
    assert_eq!(Pfn(0).kpageflags_offset(), 0);
    assert_eq!(Pfn(3).kpageflags_offset(), 24);
}

#[test]
fn arithmetic_helpers() {
    assert_eq!(Pfn(5) + 3, Pfn(8));
    assert_eq!(Pfn(8) - Pfn(5), 3);
    assert_eq!(r(5, 3).end(), Pfn(8));
}

#[test]
fn pfn_empty_input_is_empty() {
    assert_eq!(compact_pfns(&[]), vec![]);
}

#[test]
fn pfn_zero_pfns_are_dropped() {
    assert_eq!(compact_pfns(&[0, 0, 0]), vec![]);
}

#[test]
fn pfn_contiguous_pfns_merge_into_one_range() {
    assert_eq!(compact_pfns(&[5, 6, 7]), vec![r(5, 3)]);
}

#[test]
fn pfn_unsorted_input_is_sorted_first() {
    assert_eq!(compact_pfns(&[7, 5, 6]), vec![r(5, 3)]);
}

#[test]
fn pfn_duplicates_collapse() {
    assert_eq!(compact_pfns(&[5, 5, 6, 6]), vec![r(5, 2)]);
}

#[test]
fn pfn_gaps_split_ranges() {
    assert_eq!(compact_pfns(&[1, 2, 10, 11, 20]), vec![r(1, 2), r(10, 2), r(20, 1)]);
}

#[test]
fn pfn_merge_into_empty_base_is_identity() {
    let (merged, new) = merge_ranges(&[], &[r(5, 3)]);
    assert_eq!(merged, vec![r(5, 3)]);
    assert_eq!(new, 3);
}

#[test]
fn pfn_disjoint_ranges_interleave_sorted() {
    let (merged, new) = merge_ranges(&[r(10, 2)], &[r(1, 2), r(20, 1)]);
    assert_eq!(merged, vec![r(1, 2), r(10, 2), r(20, 1)]);
    assert_eq!(new, 3);
}

#[test]
fn pfn_full_overlap_adds_nothing() {
    let (merged, new) = merge_ranges(&[r(5, 10)], &[r(6, 3)]);
    assert_eq!(merged, vec![r(5, 10)]);
    assert_eq!(new, 0);
}

#[test]
fn pfn_partial_overlap_counts_only_new_frames() {
    // base [5,10), add [8,13) -> merged [5,13), 3 new frames (10,11,12)
    let (merged, new) = merge_ranges(&[r(5, 5)], &[r(8, 5)]);
    assert_eq!(merged, vec![r(5, 8)]);
    assert_eq!(new, 3);
}

#[test]
fn pfn_adjacent_ranges_coalesce() {
    let (merged, new) = merge_ranges(&[r(5, 3)], &[r(8, 2)]);
    assert_eq!(merged, vec![r(5, 5)]);
    assert_eq!(new, 2);
}

#[test]
fn pfn_add_bridging_two_base_ranges_coalesces_all() {
    // base [1,3) and [6,8); add [3,6) bridges them.
    let (merged, new) = merge_ranges(&[r(1, 2), r(6, 2)], &[r(3, 3)]);
    assert_eq!(merged, vec![r(1, 7)]);
    assert_eq!(new, 3);
}

#[test]
fn empty_covered_returns_universe() {
    assert_eq!(subtract_ranges(&[r(5, 10)], &[]), vec![r(5, 10)]);
}

#[test]
fn empty_universe_is_empty() {
    assert_eq!(subtract_ranges(&[], &[r(5, 10)]), vec![]);
}

#[test]
fn full_cover_is_empty() {
    assert_eq!(subtract_ranges(&[r(5, 10)], &[r(5, 10)]), vec![]);
}

#[test]
fn cover_exceeding_universe_is_empty() {
    assert_eq!(subtract_ranges(&[r(5, 10)], &[r(0, 100)]), vec![]);
}

#[test]
fn middle_cover_splits_universe() {
    // universe [0,10), covered [3,6) -> [0,3) and [6,10)
    assert_eq!(subtract_ranges(&[r(0, 10)], &[r(3, 3)]), vec![r(0, 3), r(6, 4)]);
}

#[test]
fn front_cover_trims_start() {
    assert_eq!(subtract_ranges(&[r(0, 10)], &[r(0, 4)]), vec![r(4, 6)]);
}

#[test]
fn back_cover_trims_end() {
    assert_eq!(subtract_ranges(&[r(0, 10)], &[r(7, 3)]), vec![r(0, 7)]);
}

#[test]
fn covered_outside_universe_is_ignored() {
    assert_eq!(subtract_ranges(&[r(10, 5)], &[r(0, 5), r(20, 5)]), vec![r(10, 5)]);
}

#[test]
fn one_cover_spans_multiple_universe_ranges() {
    // covered [3,25) blankets the tail of [0,10) and all of [12,20),
    // and trims the head of [22,30).
    let universe = [r(0, 10), r(12, 8), r(22, 8)];
    assert_eq!(subtract_ranges(&universe, &[r(3, 22)]), vec![r(0, 3), r(25, 5)]);
}

#[test]
fn multiple_covers_within_one_universe_range() {
    let covered = [r(2, 2), r(6, 2)];
    assert_eq!(subtract_ranges(&[r(0, 10)], &covered), vec![r(0, 2), r(4, 2), r(8, 2)]);
}

#[test]
fn hits_within_ranges() {
    let ranges = [r(5, 3), r(20, 2)];
    assert!(contains_pfn(&ranges, Pfn(5)));
    assert!(contains_pfn(&ranges, Pfn(7)));
    assert!(contains_pfn(&ranges, Pfn(20)));
    assert!(contains_pfn(&ranges, Pfn(21)));
}

#[test]
fn misses_boundaries_and_gaps() {
    let ranges = [r(5, 3), r(20, 2)];
    assert!(!contains_pfn(&ranges, Pfn(4)));
    assert!(!contains_pfn(&ranges, Pfn(8)));
    assert!(!contains_pfn(&ranges, Pfn(19)));
    assert!(!contains_pfn(&ranges, Pfn(22)));
}

#[test]
fn empty_ranges_contain_nothing() {
    assert!(!contains_pfn(&[], Pfn(0)));
}

const UNIVERSE: std::ops::Range<u64> = 0..1000;

fn dedup_nonzero(raw: &[u64]) -> BTreeSet<u64> {
    raw.iter().copied().filter(|&p| p != 0).collect()
}

/// A small deterministic generator of frame lists.
struct Draws(u64);

impl Draws {
    fn next(&mut self) -> u64 {
        self.0 ^= self.0 << 13;
        self.0 ^= self.0 >> 7;
        self.0 ^= self.0 << 17;
        self.0
    }

    fn list(&mut self, max_len: u64) -> Vec<u64> {
        let len = self.next() % max_len;
        (0..len).map(|_| self.next() % UNIVERSE.end).collect()
    }
}

#[test]
fn compacted_ranges_are_sorted_and_apart() {
    let mut draws = Draws(1);
    for _ in 0..50 {
        let ranges = compact_pfns(&draws.list(200));
        for w in ranges.windows(2) {
            assert!(w[0].end() < w[1].start);
        }
    }
}

#[test]
fn compaction_keeps_the_frames() {
    let mut draws = Draws(2);
    for _ in 0..50 {
        let raw = draws.list(200);
        let ranges = compact_pfns(&raw);
        let expected = dedup_nonzero(&raw);
        let flattened: BTreeSet<u64> = ranges
            .iter()
            .flat_map(|r| r.start.get()..r.end().get())
            .collect();
        assert_eq!(flattened, expected);
        assert_eq!(total_frames(&ranges), expected.len() as u64);
        for &p in &expected {
            assert!(contains_pfn(&ranges, Pfn(p)));
        }
    }
}

#[test]
fn merging_twice_adds_nothing() {
    let mut draws = Draws(3);
    for _ in 0..50 {
        let ranges = compact_pfns(&draws.list(200));
        let (merged, new) = merge_ranges(&ranges, &ranges);
        assert_eq!(merged, ranges);
        assert_eq!(new, 0);
    }
}

#[test]
fn merging_keeps_every_frame_and_no_other() {
    let mut draws = Draws(4);
    for _ in 0..50 {
        let (a, b) = (draws.list(100), draws.list(100));
        let (ra, rb) = (compact_pfns(&a), compact_pfns(&b));
        let (merged, new) = merge_ranges(&ra, &rb);
        let (other, _) = merge_ranges(&rb, &ra);
        assert_eq!(merged, other);
        let expected: BTreeSet<u64> = dedup_nonzero(&a).union(&dedup_nonzero(&b)).copied().collect();
        assert_eq!(total_frames(&merged), expected.len() as u64);
        assert_eq!(new, (expected.len() - dedup_nonzero(&a).len()) as u64);
        for &p in &expected {
            assert!(contains_pfn(&merged, Pfn(p)));
        }
    }
}

#[test]
fn subtraction_is_set_difference() {
    let mut draws = Draws(5);
    for _ in 0..30 {
        let (a, b) = (draws.list(100), draws.list(100));
        let result = subtract_ranges(&compact_pfns(&a), &compact_pfns(&b));
        let (a_set, b_set) = (dedup_nonzero(&a), dedup_nonzero(&b));
        let expected: BTreeSet<u64> = a_set.difference(&b_set).copied().collect();
        for p in UNIVERSE {
            assert_eq!(contains_pfn(&result, Pfn(p)), expected.contains(&p));
        }
    }
}

#[test]
fn what_is_subtracted_merges_back() {
    let mut draws = Draws(6);
    for _ in 0..30 {
        let a = compact_pfns(&draws.list(100));
        let b = compact_pfns(&draws.list(100));
        let rest = subtract_ranges(&a, &b);
        let (back, _) = merge_ranges(&rest, &b);
        let (union, _) = merge_ranges(&a, &b);
        assert_eq!(back, union);
    }
}

#[test]
fn ranges_are_put_in_order() {
    let tidy = tidied(&[r(20, 2), r(5, 3), r(7, 0), r(8, 4), r(21, 5)]);
    assert_eq!(tidy, Some(vec![r(5, 7), r(20, 6)]));
    assert_eq!(tidied(&[]), Some(vec![]));
    assert_eq!(tidied(&[r(1, 2), r(4, 1)]), Some(vec![r(1, 2), r(4, 1)]));
}

#[test]
fn ranges_past_the_last_frame_have_no_order() {
    assert_eq!(tidied(&[r(1, 2), r(u64::MAX, 1)]), None);
    assert_eq!(tidied(&[r(u64::MAX, 0), r(1, 2)]), Some(vec![r(1, 2)]));
}
