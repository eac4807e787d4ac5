//! What untested memory is.

use ferrite::physmem::gap::{
    classify, classify_gaps, classify_system_gaps, is_classifiable, ram_pfn_ranges, FlagSource, FlagTable,
    FrameClass, GapReport,
};
use ferrite::physmem::kpageflags::{
    batch_extent, parse_batch, parse_one, KPageFlags, KPF_ANON, KPF_BUDDY, KPF_HUGE, KPF_HWPOISON,
    KPF_LRU, KPF_NOPAGE, KPF_OFFLINE, KPF_PGTABLE, KPF_SLAB, KPF_SWAPBACKED, KPF_THP,
    KPF_UNEVICTABLE, READ_BATCH_FRAMES,
};
use ferrite::physmem::pfn::{Pfn, PfnRange};
use ferrite::physmem::PAGE_BYTES;

fn classify_word(word: u64) -> FrameClass {
    classify(KPageFlags::from_bits_retain(word))
}

fn r(start: u64, count: u64) -> PfnRange {
    PfnRange {
        start: Pfn::new(start),
        count,
    }
}

#[test]
fn gap_buddy_is_free() {
    assert_eq!(classify_word(KPF_BUDDY), FrameClass::Free);
}

#[test]
fn gap_file_cache_is_reclaimable() {
    // Typical page-cache frame: LRU (+ uptodate/referenced noise).
    assert_eq!(classify_word(KPF_LRU), FrameClass::Reclaimable);
    assert!(
        classify_word(KPF_LRU | (1 << 3) | (1 << 2)) == FrameClass::Reclaimable
    );
}

#[test]
fn gap_anon_is_in_use() {
    assert!(
        classify_word(KPF_ANON | KPF_LRU | KPF_SWAPBACKED)
            == FrameClass::InUse
    );
}

#[test]
fn gap_shmem_without_anon_is_in_use() {
    // tmpfs/shmem: swap-backed but not anonymous.
    assert!(classify_word(KPF_SWAPBACKED | KPF_LRU) == FrameClass::InUse);
}

#[test]
fn gap_slab_and_pgtable_are_unreachable() {
    assert_eq!(classify_word(KPF_SLAB), FrameClass::Unreachable);
    assert_eq!(classify_word(KPF_PGTABLE), FrameClass::Unreachable);
}

#[test]
fn gap_nopage_offline_hwpoison_are_unreachable() {
    assert_eq!(classify_word(KPF_NOPAGE), FrameClass::Unreachable);
    assert_eq!(classify_word(KPF_OFFLINE), FrameClass::Unreachable);
    assert_eq!(classify_word(KPF_HWPOISON), FrameClass::Unreachable);
}

#[test]
fn gap_hwpoison_trumps_everything() {
    assert!(classify_word(KPF_HWPOISON | KPF_BUDDY) == FrameClass::Unreachable);
    assert!(
        classify_word(KPF_HWPOISON | KPF_ANON | KPF_LRU)
            == FrameClass::Unreachable
    );
}

#[test]
fn gap_no_flags_is_unreachable() {
    // Kernel text/data and reserved frames expose no public flags.
    assert_eq!(classify(KPageFlags::empty()), FrameClass::Unreachable);
}

#[test]
fn gap_total_sums_all_classes() {
    let report = GapReport {
        free_bytes: 1,
        reclaimable_bytes: 2,
        in_use_bytes: 4,
        unreachable_bytes: 8,
        unknown_bytes: 16,
    };
    assert_eq!(report.total_bytes(), 31);
}

#[test]
fn gap_aligned_range_converts_exactly() {
    // 0x1000-0x8fff inclusive = frames 1..9.
    assert_eq!(ram_pfn_ranges(&[(0x1000, 0x8fff)]), vec![r(1, 8)]);
}

#[test]
fn gap_unaligned_edges_shrink_to_contained_frames() {
    // Start mid-frame: frame 1 is partial, first full frame is 2.
    assert_eq!(ram_pfn_ranges(&[(0x1001, 0x8fff)]), vec![r(2, 7)]);
    // End mid-frame: frame 8 is partial and dropped.
    assert_eq!(ram_pfn_ranges(&[(0x1000, 0x8ffe)]), vec![r(1, 7)]);
}

#[test]
fn gap_sub_frame_range_is_dropped() {
    assert_eq!(ram_pfn_ranges(&[(0x1001, 0x1ffe)]), vec![]);
}

#[test]
fn gap_zero_based_range_starts_at_pfn_zero() {
    assert_eq!(ram_pfn_ranges(&[(0, 0xfff)]), vec![r(0, 1)]);
}

#[test]
fn gap_multiple_ranges_convert_in_order() {
    let ranges = [(0x1000, 0x1fff), (0x0010_0000, 0x003f_ffff)];
    assert_eq!(ram_pfn_ranges(&ranges), vec![r(1, 1), r(0x100, 0x300)]);
}

#[test]
fn gap_non_root_zeroed_ranges_produce_nothing() {
    // Without root every /proc/iomem address reads as zero.
    assert_eq!(ram_pfn_ranges(&[(0, 0), (0, 0)]), vec![]);
}

#[test]
fn gap_one_frame_per_class() {
    let mut read = FlagTable::new(
        Pfn::new(0),
        vec![
            KPF_BUDDY,
            KPF_LRU,
            KPF_ANON,
            KPF_SLAB,
        ],
    );
    let report = classify_gaps(&[r(0, 4)], &mut read);
    assert_eq!(report.free_bytes, PAGE_BYTES);
    assert_eq!(report.reclaimable_bytes, PAGE_BYTES);
    assert_eq!(report.in_use_bytes, PAGE_BYTES);
    assert_eq!(report.unreachable_bytes, PAGE_BYTES);
    assert_eq!(report.unknown_bytes, 0);
}

#[test]
fn gap_disjoint_gaps_accumulate() {
    let buddy = KPF_BUDDY;
    let mut read = FlagTable::new(Pfn::new(0), vec![buddy, 0, buddy, 0, buddy]);
    let report = classify_gaps(&[r(0, 1), r(2, 1), r(4, 1)], &mut read);
    assert_eq!(report.free_bytes, 3 * PAGE_BYTES);
    assert_eq!(report.total_bytes(), 3 * PAGE_BYTES);
}

/// Answers every read with the same word, or not at all, and notes what was asked.
struct Uniform {
    word: Option<u64>,
    calls: Vec<PfnRange>,
}

impl FlagSource for Uniform {
    fn read(&mut self, range: PfnRange) -> Option<Vec<u64>> {
        self.calls.push(range);
        self.word.map(|w| vec![w; range.count as usize])
    }
}

#[test]
fn gap_empty_gaps_yield_empty_report() {
    let mut source = Uniform { word: None, calls: vec![] };
    let report = classify_gaps(&[], &mut source);
    assert_eq!(report, GapReport::default());
    assert!(source.calls.is_empty());
}

#[test]
fn gap_unreadable_batch_counts_as_unknown() {
    let mut source = Uniform { word: None, calls: vec![] };
    let report = classify_gaps(&[r(0, 5)], &mut source);
    assert_eq!(report.unknown_bytes, 5 * PAGE_BYTES);
    assert_eq!(report.total_bytes(), 5 * PAGE_BYTES);
}

#[test]
fn gap_large_gap_is_read_in_batches() {
    let total = READ_BATCH_FRAMES + 10;
    let mut source = Uniform { word: Some(KPF_BUDDY), calls: vec![] };
    let report = classify_gaps(&[r(0, total)], &mut source);
    assert_eq!(report.free_bytes, total * PAGE_BYTES);
    assert_eq!(source.calls, vec![r(0, READ_BATCH_FRAMES), r(READ_BATCH_FRAMES, 10)]);
}

#[test]
fn untested_ram_is_classified() {
    let mut table = FlagTable::new(Pfn::new(0), vec![KPF_BUDDY; 8]);
    let ram = [(0x1000u64, 0x5fffu64)];
    let report = classify_system_gaps(&ram, &[r(2, 2)], &mut table).unwrap();
    // Frames 1..6 without 2 and 3.
    assert_eq!(report.free_bytes, 3 * PAGE_BYTES);
    assert_eq!(report.total_bytes(), 3 * PAGE_BYTES);
    assert!(classify_system_gaps(&[(0, 0)], &[], &mut table).is_none());
}

#[test]
fn kpageflags_page_flags_methods() {
    let flags = KPageFlags::from_bits_retain(KPF_HUGE | KPF_THP);
    assert!(flags.is_huge());
    assert!(flags.is_thp());
    assert!(!flags.is_unevictable());
    assert!(!flags.is_hwpoison());

    let flags2 = KPageFlags::from_bits_retain(KPF_UNEVICTABLE | KPF_HWPOISON);
    assert!(flags2.is_unevictable());
    assert!(flags2.is_hwpoison());
    assert!(!flags2.is_huge());
}

fn flag_bytes(words: &[u64]) -> Vec<u8> {
    words.iter().flat_map(|w| w.to_le_bytes()).collect()
}

#[test]
fn read_one_returns_the_frames_word() {
    let bytes = flag_bytes(&[0, KPF_BUDDY, KPF_ANON | KPF_LRU]);
    let at = |pfn: u64| Pfn::new(pfn).kpageflags_offset() as usize;
    let flags = parse_one(&bytes[at(1)..at(2)]);
    assert_eq!(flags.bits(), KPF_BUDDY);
    let flags2 = parse_one(&bytes[at(2)..at(3)]);
    assert_eq!(flags2.bits(), KPF_ANON | KPF_LRU);
}

#[test]
fn read_batch_fills_out_in_order() {
    let words = [KPF_BUDDY, KPF_LRU, KPF_ANON, KPF_SLAB];
    let bytes = flag_bytes(&words);
    let (offset, len) = batch_extent(r(1, 3)).unwrap();
    let out = parse_batch(&bytes[offset as usize..offset as usize + len]);
    assert_eq!(out, vec![KPF_LRU, KPF_ANON, KPF_SLAB]);
}

#[test]
fn flag_masks() {
    let flags = KPageFlags::from_bits_retain(KPF_ANON | KPF_LRU);
    assert!(flags.contains(KPF_ANON));
    assert!(flags.contains(KPF_ANON | KPF_LRU));
    assert!(!flags.contains(KPF_ANON | KPF_SLAB));
    assert!(flags.intersects(KPF_ANON | KPF_SLAB));
    assert!(!flags.intersects(KPF_SLAB));
    assert!(KPageFlags::empty().is_empty());
    assert!(KPageFlags::default().is_empty());
    assert!(!flags.is_empty());
}

#[test]
fn sorted_ranges_are_classifiable() {
    let ram = [(0x1000, 0x9fff), (0x10_0000, 0x1f_ffff)];
    assert!(is_classifiable(&ram, &[r(1, 2), r(3, 4)]));
    assert!(is_classifiable(&[], &[]));
    // Out of order, on either side.
    assert!(!is_classifiable(&[(0x10_0000, 0x1f_ffff), (0x1000, 0x9fff)], &[]));
    assert!(!is_classifiable(&ram, &[r(3, 4), r(1, 2)]));
    // Overlapping.
    assert!(!is_classifiable(&ram, &[r(1, 3), r(3, 4)]));
    // Past the last address or the last frame.
    assert!(!is_classifiable(&[(0x1000, u64::MAX)], &[]));
    assert!(!is_classifiable(&ram, &[r(u64::MAX, 1)]));
}
