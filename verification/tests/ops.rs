//! Fills and checks of word slices and of memories.

use ferrite::bench_api::{
    scalar_fill_constant, scalar_fill_indexed, scalar_verify_constant, scalar_verify_indexed,
};
use ferrite::buffer::WordBuffer;
use ferrite::memory::{Memory, Monitor};
use ferrite::ops::avx512::{fill_nt, fill_nt_indexed, verify_avx512, verify_indexed_avx512};
use ferrite::ops::scalar::{fill_constant, fill_indexed, verify_constant, verify_indexed};
use ferrite::ops::{fill_verify_constant, fill_verify_indexed, CHUNK_WORDS};
use ferrite::{Failure, FailureBudget};

/// Where test memory begins.
const BASE: usize = 0x1000;

fn buffer(words: Vec<u64>) -> WordBuffer {
    WordBuffer::new(words, BASE)
}

fn contents(mem: &WordBuffer) -> Vec<u64> {
    (0..mem.word_count()).map(|i| mem.peek(i)).collect()
}

/// An operator who counts and may ask for a stop.
#[derive(Default)]
struct Watch {
    subpasses: u64,
    activities: u64,
    quit_after: Option<u64>,
}

impl Monitor for Watch {
    fn subpass(&mut self) {
        self.subpasses += 1;
    }

    fn activity(&mut self, _index: usize, _total: usize) {
        self.activities += 1;
    }

    fn quit_requested(&mut self) -> bool {
        self.quit_after.is_some_and(|n| self.subpasses >= n)
    }
}

/// Fill and check a memory, or its two halves one after the other.
fn fill_constantly(words: Vec<u64>, pattern: u64, split: bool) -> Vec<Failure> {
    let mut budget = FailureBudget::unlimited();
    let mut failures = vec![];
    for part in parts(words, split) {
        let mut mem = buffer(part);
        failures.extend(fill_verify_constant(&mut mem, &mut Watch::default(), pattern, split, &mut budget));
        assert!(contents(&mem).iter().all(|&w| w == pattern));
    }
    failures
}

fn fill_with_indices(words: Vec<u64>, split: bool) -> Vec<Failure> {
    let mut budget = FailureBudget::unlimited();
    let mut failures = vec![];
    for part in parts(words, split) {
        let mut mem = buffer(part);
        failures.extend(fill_verify_indexed(&mut mem, &mut Watch::default(), split, &mut budget));
        assert!(contents(&mem).iter().enumerate().all(|(i, &w)| w == i as u64));
    }
    failures
}

fn parts(mut words: Vec<u64>, split: bool) -> Vec<Vec<u64>> {
    if split {
        let upper = words.split_off(words.len() / 2);
        vec![words, upper]
    } else {
        vec![words]
    }
}

#[test]
fn constant_round_trip() {
    let mut buf = vec![0u64; 256];
    fill_constant(&mut buf, 0xAAAA_AAAA_AAAA_AAAAu64);
    let base = BASE;
    let failures = verify_constant(&buf, 0xAAAA_AAAA_AAAA_AAAAu64, base, 0);
    assert!(failures.is_empty());
}

#[test]
fn constant_detects_single_corruption() {
    let mut buf = vec![0u64; 256];
    let pattern = 0xFFFF_FFFF_FFFF_FFFFu64;
    fill_constant(&mut buf, pattern);
    buf[10] = 0;
    let base = BASE;
    let failures = verify_constant(&buf, pattern, base, 0);
    assert_eq!(failures.len(), 1);
    assert_eq!(failures[0].word_index, 10);
    assert_eq!(failures[0].addr, base + 10 * 8);
    assert_eq!(failures[0].expected, pattern);
    assert_eq!(failures[0].actual, 0);
}

#[test]
fn constant_detects_multiple_corruptions() {
    let mut buf = vec![0u64; 256];
    let pattern = 0x5555_5555_5555_5555u64;
    fill_constant(&mut buf, pattern);
    buf[0] = 1;
    buf[127] = 2;
    buf[255] = 3;
    let base = BASE;
    let failures = verify_constant(&buf, pattern, base, 0);
    assert_eq!(failures.len(), 3);
    assert_eq!(failures[0].word_index, 0);
    assert_eq!(failures[1].word_index, 127);
    assert_eq!(failures[2].word_index, 255);
}

#[test]
fn constant_empty_buffer() {
    let mut buf: Vec<u64> = vec![];
    fill_constant(&mut buf, 0xFF);
    let failures = verify_constant(&buf, 0xFF, 0, 0);
    assert!(failures.is_empty());
}

#[test]
fn indexed_round_trip() {
    let mut buf = vec![0u64; 256];
    fill_indexed(&mut buf, 0);
    let base = BASE;
    let failures = verify_indexed(&buf, base, 0);
    assert!(failures.is_empty());
}

#[test]
fn indexed_round_trip_with_offset() {
    // start=100: buf[i] should equal 100+i
    let mut buf = vec![0u64; 64];
    fill_indexed(&mut buf, 100);
    for (i, &val) in buf.iter().enumerate() {
        assert!(val == (100 + i) as u64, "mismatch at i={i}");
    }
    let base = BASE;
    let failures = verify_indexed(&buf, base, 100);
    assert!(failures.is_empty());
}

#[test]
fn indexed_detects_single_corruption() {
    let mut buf = vec![0u64; 256];
    fill_indexed(&mut buf, 0);
    buf[50] = 0xDEAD;
    let base = BASE;
    let failures = verify_indexed(&buf, base, 0);
    assert_eq!(failures.len(), 1);
    assert_eq!(failures[0].word_index, 50);
    assert_eq!(failures[0].expected, 50);
    assert_eq!(failures[0].actual, 0xDEAD);
    assert_eq!(failures[0].addr, base + 50 * 8);
}

#[test]
fn indexed_detects_multiple_corruptions() {
    let mut buf = vec![0u64; 64];
    fill_indexed(&mut buf, 0);
    buf[0] = 999;
    buf[63] = 999;
    let base = BASE;
    let failures = verify_indexed(&buf, base, 0);
    assert_eq!(failures.len(), 2);
    assert_eq!(failures[0].word_index, 0);
    assert_eq!(failures[1].word_index, 63);
}

#[test]
fn indexed_empty_buffer() {
    let mut buf: Vec<u64> = vec![];
    fill_indexed(&mut buf, 0);
    let failures = verify_indexed(&buf, 0, 0);
    assert!(failures.is_empty());
}

#[test]
fn constant_serial_clean() {
    let failures = fill_constantly(vec![0u64; 1024], 0xDEAD_BEEF_CAFE_BABE, false);
    assert!(failures.is_empty());
}

#[test]
fn constant_parallel_clean() {
    let failures = fill_constantly(vec![0u64; 4096], 0x5555_5555_5555_5555, true);
    assert!(failures.is_empty());
}

#[test]
fn indexed_serial_clean() {
    let failures = fill_with_indices(vec![0u64; 1024], false);
    assert!(failures.is_empty());
}

#[test]
fn indexed_parallel_clean() {
    let failures = fill_with_indices(vec![0u64; 4096], true);
    assert!(failures.is_empty());
}

#[test]
fn constant_empty() {
    let failures = fill_constantly(vec![], 0xFF, false);
    assert!(failures.is_empty());
}

#[test]
fn indexed_empty() {
    let failures = fill_with_indices(vec![], false);
    assert!(failures.is_empty());
}

#[test]
fn fill_nt_and_verify_round_trip() {
    // Heap-allocated buffer -- tests the unaligned fallback path
    let mut buf = vec![0u64; 256];
    let pattern = 0xDEAD_BEEF_CAFE_BABEu64;
    fill_nt(&mut buf, pattern);
    let failures = verify_avx512(&buf, pattern, BASE, 0);
    assert!(failures.is_empty());
}

#[test]
fn fill_nt_indexed_and_verify_round_trip() {
    let mut buf = vec![0u64; 256];
    fill_nt_indexed(&mut buf, 0);
    let failures = verify_indexed_avx512(&buf, BASE, 0);
    assert!(failures.is_empty());
}

#[test]
fn verify_detects_corruption() {
    let mut buf = vec![0u64; 256];
    let pattern = 0xAAAA_AAAA_AAAA_AAAAu64;
    fill_nt(&mut buf, pattern);
    buf[42] = 0xBBBB_BBBB_BBBB_BBBBu64;
    let failures = verify_avx512(&buf, pattern, BASE, 0);
    assert_eq!(failures.len(), 1);
    assert_eq!(failures[0].word_index, 42);
    assert_eq!(failures[0].actual, 0xBBBB_BBBB_BBBB_BBBBu64);
    assert_eq!(failures[0].expected, pattern);
}

#[test]
fn verify_indexed_detects_corruption() {
    let mut buf = vec![0u64; 256];
    fill_nt_indexed(&mut buf, 0);
    buf[10] = 0xFFFF;
    let failures = verify_indexed_avx512(&buf, BASE, 0);
    assert_eq!(failures.len(), 1);
    assert_eq!(failures[0].word_index, 10);
    assert_eq!(failures[0].expected, 10);
}

#[test]
fn fill_nt_indexed_with_offset() {
    let mut buf = vec![0u64; 64];
    let start = 100;
    fill_nt_indexed(&mut buf, start);
    for (i, &val) in buf.iter().enumerate() {
        assert_eq!(val, (start + i) as u64, "mismatch at index {i}");
    }
}

#[test]
fn fill_nt_scalar_tail() {
    // Buffer size not a multiple of 8 -- tests the scalar tail path
    let mut buf = vec![0u64; 13];
    let pattern = 0x1234_5678_9ABC_DEF0u64;
    fill_nt(&mut buf, pattern);
    for (i, &val) in buf.iter().enumerate() {
        assert_eq!(val, pattern, "mismatch at index {i}");
    }
}

#[test]
fn verify_multiple_corruptions_different_lanes() {
    let mut buf = vec![0u64; 256];
    let pattern = 0xAAAA_AAAA_AAAA_AAAAu64;
    fill_nt(&mut buf, pattern);
    // Corrupt words in different 8-word SIMD lanes
    buf[3] = 0; // lane 0, word 3
    buf[12] = 0; // lane 1, word 4
    buf[255] = 0; // last word
    let failures = verify_avx512(&buf, pattern, BASE, 0);
    assert_eq!(failures.len(), 3);
    assert_eq!(failures[0].word_index, 3);
    assert_eq!(failures[1].word_index, 12);
    assert_eq!(failures[2].word_index, 255);
}

#[test]
fn verify_corruption_at_lane_boundaries() {
    let mut buf = vec![0u64; 32];
    let pattern = 0xFFFF_FFFF_FFFF_FFFFu64;
    fill_nt(&mut buf, pattern);
    // First and last word of first SIMD lane
    buf[0] = 0;
    buf[7] = 0;
    // First word of second lane
    buf[8] = 0;
    let failures = verify_avx512(&buf, pattern, BASE, 0);
    assert_eq!(failures.len(), 3);
    assert_eq!(failures[0].word_index, 0);
    assert_eq!(failures[1].word_index, 7);
    assert_eq!(failures[2].word_index, 8);
}

#[test]
fn verify_indexed_multiple_corruptions() {
    let mut buf = vec![0u64; 64];
    fill_nt_indexed(&mut buf, 0);
    buf[0] = 999;
    buf[63] = 999;
    let failures = verify_indexed_avx512(&buf, BASE, 0);
    assert_eq!(failures.len(), 2);
    assert_eq!(failures[0].word_index, 0);
    assert_eq!(failures[0].expected, 0);
    assert_eq!(failures[1].word_index, 63);
    assert_eq!(failures[1].expected, 63);
}

#[test]
fn fill_nt_indexed_scalar_tail() {
    let mut buf = vec![0u64; 11];
    fill_nt_indexed(&mut buf, 50);
    for (i, &val) in buf.iter().enumerate() {
        assert_eq!(val, (50 + i) as u64, "mismatch at index {i}");
    }
}

#[test]
fn verify_scalar_tail_corruption() {
    // 11 words: 8 in SIMD lane + 3 in scalar tail
    let mut buf = vec![0u64; 11];
    let pattern = 0x5555_5555_5555_5555u64;
    fill_nt(&mut buf, pattern);
    buf[9] = 0; // in scalar tail
    let failures = verify_avx512(&buf, pattern, BASE, 0);
    assert_eq!(failures.len(), 1);
    assert_eq!(failures[0].word_index, 9);
}

#[test]
fn verify_indexed_scalar_tail_corruption() {
    let mut buf = vec![0u64; 11];
    fill_nt_indexed(&mut buf, 0);
    buf[10] = 999; // last word, in scalar tail
    let failures = verify_indexed_avx512(&buf, BASE, 0);
    assert_eq!(failures.len(), 1);
    assert_eq!(failures[0].word_index, 10);
    assert_eq!(failures[0].expected, 10);
}

#[test]
fn fill_nt_empty_buffer() {
    let mut buf: Vec<u64> = vec![];
    fill_nt(&mut buf, 0xFF);
    assert!(buf.is_empty());
}

#[test]
fn fill_nt_unaligned_fallback() {
    let mut backing = vec![0u64; 256 + 1];
    let buf = &mut backing[1..];
    let pattern = 0xCAFE_BABE_DEAD_BEEFu64;
    fill_nt(buf, pattern);
    for (i, &val) in buf.iter().enumerate() {
        assert_eq!(val, pattern, "mismatch at index {i}");
    }
}

#[test]
fn fill_nt_indexed_unaligned_fallback() {
    let mut backing = vec![0u64; 64 + 1];
    let buf = &mut backing[1..];
    let start = 42;
    fill_nt_indexed(buf, start);
    for (i, &val) in buf.iter().enumerate() {
        assert_eq!(val, (start + i) as u64, "mismatch at index {i}");
    }
}

#[test]
fn verify_with_word_offset() {
    let mut buf = vec![0u64; 16];
    let pattern = 0xAAAAu64;
    fill_nt(&mut buf, pattern);
    buf[5] = 0;
    // word_off=100 means buf[5] is word 105 globally
    let failures = verify_avx512(&buf, pattern, BASE, 100);
    assert_eq!(failures.len(), 1);
    assert_eq!(failures[0].word_index, 105);
}

#[test]
fn constant_serial_activity_fires() {
    let mut watch = Watch::default();
    let mut budget = FailureBudget::unlimited();
    fill_verify_constant(&mut buffer(vec![0u64; 1024]), &mut watch, 0xFF, false, &mut budget);
    assert!(watch.activities > 0);
}

#[test]
fn indexed_serial_activity_fires() {
    let mut watch = Watch::default();
    let mut budget = FailureBudget::unlimited();
    fill_verify_indexed(&mut buffer(vec![0u64; 1024]), &mut watch, false, &mut budget);
    assert!(watch.activities > 0);
}

#[test]
fn a_fill_reports_each_chunk_and_a_check_only_side_by_side() {
    let words = 2 * CHUNK_WORDS + 1;
    for (parallel, expected) in [(false, 3), (true, 6)] {
        let mut watch = Watch::default();
        let mut budget = FailureBudget::unlimited();
        let mut mem = buffer(vec![0u64; words]);
        fill_verify_constant(&mut mem, &mut watch, 1, parallel, &mut budget);
        assert_eq!(watch.activities, expected);
        let mut watch = Watch::default();
        fill_verify_indexed(&mut mem, &mut watch, parallel, &mut budget);
        assert_eq!(watch.activities, expected);
    }
}

#[test]
fn the_benchmarked_functions_are_the_scalar_ones() {
    let mut buf = vec![0u64; 4];
    scalar_fill_constant(&mut buf, 9);
    assert_eq!(buf, [9, 9, 9, 9]);
    assert!(scalar_verify_constant(&buf, 9, BASE, 0).is_empty());
    scalar_fill_indexed(&mut buf, 3);
    assert_eq!(buf, [3, 4, 5, 6]);
    assert!(scalar_verify_indexed(&buf, BASE, 3).is_empty());
    assert_eq!(scalar_verify_constant(&buf, 3, BASE, 0).len(), 3);
    assert_eq!(scalar_verify_indexed(&buf, BASE, 4).len(), 4);
}

#[test]
fn lanes_and_words_find_the_same_failures() {
    let mut buf = vec![7u64; 21];
    for i in [0, 7, 8, 15, 16, 20] {
        buf[i] = i as u64;
    }
    assert_eq!(buf[7], 7);
    let words: Vec<usize> = verify_constant(&buf, 7, BASE, 5).iter().map(|f| f.word_index).collect();
    let lanes: Vec<usize> = verify_avx512(&buf, 7, BASE, 5).iter().map(|f| f.word_index).collect();
    assert_eq!(words, [5, 13, 20, 21, 25]);
    assert_eq!(words, lanes);
}
