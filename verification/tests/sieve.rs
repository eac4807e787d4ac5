//! Culling: which of the swept blocks are held and which are released.

use ferrite::allocation::{walk_chunks, UnlimitedHost, CHUNK_BYTES};
use ferrite::physmem::pfn::{Pfn, PfnRange};
use ferrite::physmem::sieve::{partition_region, sweep_target, BLOCK_BYTES, BLOCK_FRAMES};
use ferrite::physmem::PAGE_BYTES_USIZE;

fn r(start: u64, count: u64) -> PfnRange {
    PfnRange {
        start: Pfn::new(start),
        count,
    }
}

/// 4 KiB frames per test block: 2 frames = 8192-byte blocks.
const FPB: usize = 2;

const BLOCK: usize = FPB * PAGE_BYTES_USIZE;

#[test]
fn empty_pfns_partition_to_nothing() {
    let p = partition_region(&[], &[r(0, 100)], FPB);
    assert!(p.hostages.is_empty());
    assert!(p.fresh.is_empty());
}

#[test]
fn fully_covered_region_is_one_hostage_run() {
    // Frames 10..14 all inside covered [10, 20).
    let p = partition_region(&[10, 11, 12, 13], &[r(10, 10)], FPB);
    assert_eq!(p.hostages, vec![(0, 2 * BLOCK)]);
    assert!(p.fresh.is_empty());
}

#[test]
fn uncovered_region_is_one_fresh_run() {
    let p = partition_region(&[10, 11, 12, 13], &[r(100, 10)], FPB);
    assert!(p.hostages.is_empty());
    assert_eq!(p.fresh, vec![(0, 2 * BLOCK)]);
}

#[test]
fn alternating_blocks_split_with_correct_offsets() {
    // Block 0: frames 10,11 (covered). Block 1: frames 50,51 (not).
    // Block 2: frames 12,13 (covered).
    let pfns = [10, 11, 50, 51, 12, 13];
    let p = partition_region(&pfns, &[r(10, 4)], FPB);
    assert_eq!(p.hostages, vec![(0, BLOCK), (2 * BLOCK, BLOCK)]);
    assert_eq!(p.fresh, vec![(BLOCK, BLOCK)]);
}

#[test]
fn adjacent_same_disposition_blocks_coalesce() {
    let pfns = [10, 11, 12, 13, 50, 51, 60, 61];
    let p = partition_region(&pfns, &[r(10, 4)], FPB);
    assert_eq!(p.hostages, vec![(0, 2 * BLOCK)]);
    assert_eq!(p.fresh, vec![(2 * BLOCK, 2 * BLOCK)]);
}

#[test]
fn one_uncovered_frame_makes_the_block_fresh() {
    // Second frame of the block is outside the covered set.
    let p = partition_region(&[10, 99], &[r(10, 1)], FPB);
    assert!(p.hostages.is_empty());
    assert_eq!(p.fresh, vec![(0, BLOCK)]);
}

#[test]
fn unresolved_frame_makes_the_block_fresh() {
    // PFN 0 = unresolved: cannot prove coverage, so release it.
    let p = partition_region(&[10, 0], &[r(0, 100)], FPB);
    assert!(p.hostages.is_empty());
    assert_eq!(p.fresh, vec![(0, BLOCK)]);
}

#[test]
fn partial_last_block_has_short_length() {
    // 3 frames with 2-frame blocks: block 1 holds one 4096-byte frame.
    let p = partition_region(&[10, 11, 12], &[r(10, 3)], FPB);
    assert_eq!(p.hostages, vec![(0, BLOCK + PAGE_BYTES_USIZE)]);
    assert!(p.fresh.is_empty());
}

#[test]
fn partial_fresh_tail_after_hostage_run() {
    let p = partition_region(&[10, 11, 99], &[r(10, 2)], FPB);
    assert_eq!(p.hostages, vec![(0, BLOCK)]);
    assert_eq!(p.fresh, vec![(BLOCK, PAGE_BYTES_USIZE)]);
}

/// Frame numbers for a sweep of `bytes`, from one up.
fn swept_frames(bytes: usize) -> Vec<u64> {
    (1..=(bytes / PAGE_BYTES_USIZE) as u64).collect()
}

#[test]
fn bounded_sweep_with_no_coverage_holds_nothing() {
    let target = sweep_target(u64::MAX, 0, Some(4 * BLOCK_BYTES));
    assert_eq!(target, 4 * BLOCK_BYTES);
    let (achieved, _) = walk_chunks(target, CHUNK_BYTES, 0, &mut UnlimitedHost::new());
    let outcome = partition_region(&swept_frames(achieved), &[], BLOCK_FRAMES).outcome();
    assert_eq!(outcome.held, 0);
    assert_eq!(outcome.released, outcome.swept);
    assert!(outcome.swept <= 4 * BLOCK_BYTES);
}

#[test]
fn full_coverage_partitions_cleanly() {
    let covered = [r(1, u64::MAX - 1)];
    let target = sweep_target(u64::MAX, 0, Some(2 * BLOCK_BYTES));
    let outcome = partition_region(&swept_frames(target), &covered, BLOCK_FRAMES).outcome();
    assert_eq!(outcome.held + outcome.released, outcome.swept);
    assert_eq!(outcome.held, 2 * BLOCK_BYTES);

    // Frames that are not resolved are released.
    let unresolved = vec![0u64; target / PAGE_BYTES_USIZE];
    let outcome = partition_region(&unresolved, &covered, BLOCK_FRAMES).outcome();
    assert_eq!(outcome.released, 2 * BLOCK_BYTES);
}

#[test]
fn zero_budget_is_an_empty_sieve() {
    let target = sweep_target(1 << 40, u64::MAX, None);
    assert_eq!(target, 0);
    let outcome = partition_region(&swept_frames(target), &[], BLOCK_FRAMES).outcome();
    assert_eq!(outcome.swept, 0);
    assert_eq!(outcome.held, 0);
    assert_eq!(outcome.released, 0);
}

#[test]
fn a_sweep_is_made_of_whole_blocks() {
    assert_eq!(sweep_target(BLOCK_BYTES as u64 * 3 - 1, 0, None), 2 * BLOCK_BYTES);
    assert_eq!(sweep_target(BLOCK_BYTES as u64, 1, None), 0);
    assert_eq!(sweep_target(u64::MAX, 0, Some(BLOCK_BYTES + 5)), BLOCK_BYTES);
}
