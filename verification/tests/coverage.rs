//! The coverage store.

use ferrite::physmem::coverage::{
    fingerprint_from, CoverageError, CoverageStore, Fingerprint, STORE_VERSION,
};
use ferrite::physmem::pfn::{compact_pfns, merge_ranges, Pfn, PfnRange};
use ferrite::physmem::PAGE_BYTES;

fn r(start: u64, count: u64) -> PfnRange {
    PfnRange {
        start: Pfn(start),
        count,
    }
}

#[test]
fn coverage_empty_input_is_empty() {
    assert_eq!(compact_pfns(&[]), vec![]);
}

#[test]
fn coverage_zero_pfns_are_dropped() {
    assert_eq!(compact_pfns(&[0, 0, 0]), vec![]);
}

#[test]
fn coverage_contiguous_pfns_merge_into_one_range() {
    assert_eq!(compact_pfns(&[5, 6, 7]), vec![r(5, 3)]);
}

#[test]
fn coverage_unsorted_input_is_sorted_first() {
    assert_eq!(compact_pfns(&[7, 5, 6]), vec![r(5, 3)]);
}

#[test]
fn coverage_duplicates_collapse() {
    assert_eq!(compact_pfns(&[5, 5, 6, 6]), vec![r(5, 2)]);
}

#[test]
fn coverage_gaps_split_ranges() {
    assert_eq!(compact_pfns(&[1, 2, 10, 11, 20]), vec![r(1, 2), r(10, 2), r(20, 1)]);
}

#[test]
fn coverage_merge_into_empty_base_is_identity() {
    let (merged, new) = merge_ranges(&[], &[r(5, 3)]);
    assert_eq!(merged, vec![r(5, 3)]);
    assert_eq!(new, 3);
}

#[test]
fn coverage_disjoint_ranges_interleave_sorted() {
    let (merged, new) = merge_ranges(&[r(10, 2)], &[r(1, 2), r(20, 1)]);
    assert_eq!(merged, vec![r(1, 2), r(10, 2), r(20, 1)]);
    assert_eq!(new, 3);
}

#[test]
fn coverage_full_overlap_adds_nothing() {
    let (merged, new) = merge_ranges(&[r(5, 10)], &[r(6, 3)]);
    assert_eq!(merged, vec![r(5, 10)]);
    assert_eq!(new, 0);
}

#[test]
fn coverage_partial_overlap_counts_only_new_frames() {
    // base [5,10), add [8,13) -> merged [5,13), 3 new frames (10,11,12)
    let (merged, new) = merge_ranges(&[r(5, 5)], &[r(8, 5)]);
    assert_eq!(merged, vec![r(5, 8)]);
    assert_eq!(new, 3);
}

#[test]
fn coverage_adjacent_ranges_coalesce() {
    let (merged, new) = merge_ranges(&[r(5, 3)], &[r(8, 2)]);
    assert_eq!(merged, vec![r(5, 5)]);
    assert_eq!(new, 2);
}

#[test]
fn coverage_add_bridging_two_base_ranges_coalesces_all() {
    // base [1,3) and [6,8); add [3,6) bridges them.
    let (merged, new) = merge_ranges(&[r(1, 2), r(6, 2)], &[r(3, 3)]);
    assert_eq!(merged, vec![r(1, 7)]);
    assert_eq!(new, 3);
}

#[test]
fn coverage_identical_inputs_agree() {
    let a = fingerprint_from(32, &[(0x1000, 0x2000), (0x5000, 0x9000)]);
    let b = fingerprint_from(32, &[(0x1000, 0x2000), (0x5000, 0x9000)]);
    assert_eq!(a, b);
}

#[test]
fn coverage_different_layout_differs() {
    let a = fingerprint_from(32, &[(0x1000, 0x2000)]);
    let b = fingerprint_from(32, &[(0x1000, 0x3000)]);
    assert!(a.iomem_hash != b.iomem_hash);
}

#[test]
fn coverage_mem_total_is_carried() {
    let a = fingerprint_from(42, &[]);
    assert_eq!(a.mem_total, 42);
}

fn fp() -> Fingerprint {
    fingerprint_from(32_000_000_000, &[(0x1000, 0xffff_ffff)])
}

fn ts() -> jiff::Timestamp {
    jiff::Timestamp::UNIX_EPOCH
}

#[test]
fn coverage_record_run_merges_and_logs() {
    let mut store = CoverageStore::new(fp());
    let delta = store.record_run(&[r(5, 5)], ts(), vec!["solid-bits".into()], 1, 0);
    assert_eq!(delta.new_bytes, 5 * PAGE_BYTES);
    assert_eq!(delta.cumulative_bytes, 5 * PAGE_BYTES);
    assert_eq!(delta.runs, 1);

    let delta2 = store.record_run(&[r(8, 5)], ts(), vec!["solid-bits".into()], 1, 3);
    assert_eq!(delta2.new_bytes, 3 * PAGE_BYTES);
    assert_eq!(delta2.cumulative_bytes, 8 * PAGE_BYTES);
    assert_eq!(delta2.runs, 2);

    assert_eq!(store.runs.len(), 2);
    assert_eq!(store.runs[1].failures, 3);
    assert_eq!(store.runs[1].new_bytes, 3 * PAGE_BYTES);
    assert_eq!(store.runs[1].tested_bytes, 5 * PAGE_BYTES);
}

#[test]
fn coverage_fingerprint_mismatch_is_rejected() {
    let store = CoverageStore::new(fp());
    let other = fingerprint_from(16_000_000_000, &[(0x1000, 0xffff)]);
    let Err(e) = store.accept(other) else {
        panic!("expected fingerprint mismatch");
    };
    assert!(matches!(e, CoverageError::FingerprintMismatch));
    assert!(e.to_string().contains("fingerprint mismatch"));
}

#[test]
fn coverage_unsupported_version_is_rejected() {
    let mut store = CoverageStore::new(fp());
    store.version = 999;
    let Err(e) = store.accept(fp()) else {
        panic!("expected version mismatch");
    };
    assert!(matches!(e, CoverageError::VersionMismatch { found: 999 }));
    assert_eq!(
        e.to_string(),
        "coverage file schema version 999 is not supported (expected 1)"
    );
}

#[test]
fn version_is_looked_at_before_the_machine() {
    let mut store = CoverageStore::new(fp());
    store.version = STORE_VERSION + 1;
    let other = fingerprint_from(1, &[]);
    assert!(matches!(
        store.accept(other),
        Err(CoverageError::VersionMismatch { found: 2 })
    ));
}

#[test]
fn matching_store_is_accepted() {
    let mut store = CoverageStore::new(fp());
    store.record_run(&[r(5, 5)], ts(), vec!["checkerboard".into()], 2, 0);
    let back = store.accept(fp()).unwrap();
    assert_eq!(back.ranges, vec![r(5, 5)]);
    assert_eq!(back.runs[0].timestamp, ts());
    assert_eq!(back.covered_bytes(), 5 * PAGE_BYTES);
}

#[test]
fn fingerprint_is_fnv_1a() {
    // No ranges: the offset basis itself.
    assert_eq!(fingerprint_from(0, &[]).iomem_hash, 0xcbf2_9ce4_8422_2325);
    // Eight zero bytes twice: sixteen multiplications by the prime.
    let mut hash: u64 = 0xcbf2_9ce4_8422_2325;
    for _ in 0..16 {
        hash = hash.wrapping_mul(0x0000_0100_0000_01b3);
    }
    assert_eq!(fingerprint_from(0, &[(0, 0)]).iomem_hash, hash);
}

#[test]
fn rerun_adds_nothing() {
    let mut store = CoverageStore::new(fp());
    store.record_run(&[r(5, 5), r(20, 2)], ts(), vec![], 1, 0);
    let ranges = store.ranges.len();
    let delta = store.record_run(&[r(5, 5), r(20, 2)], ts(), vec![], 1, 0);
    assert_eq!(delta.new_bytes, 0);
    assert_eq!(delta.runs, 2);
    assert_eq!(store.ranges.len(), ranges);
}

#[test]
fn order_of_runs_does_not_matter() {
    let mut one = CoverageStore::new(fp());
    one.record_run(&[r(5, 5)], ts(), vec![], 1, 0);
    one.record_run(&[r(8, 9)], ts(), vec![], 1, 0);
    let mut other = CoverageStore::new(fp());
    other.record_run(&[r(8, 9)], ts(), vec![], 1, 0);
    other.record_run(&[r(5, 5)], ts(), vec![], 1, 0);
    assert_eq!(one.ranges, other.ranges);
}

#[test]
fn coverage_error_messages() {
    let message = || "why".to_owned();
    assert_eq!(
        CoverageError::Read { message: message() }.to_string(),
        "failed to read coverage file: why"
    );
    assert_eq!(
        CoverageError::Write { message: message() }.to_string(),
        "failed to write coverage file: why"
    );
    assert_eq!(
        CoverageError::Parse { message: message() }.to_string(),
        "coverage file is not valid JSON: why"
    );
}
