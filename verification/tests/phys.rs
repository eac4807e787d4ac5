//! Physical addresses, pagemap entries and page flags.

use ferrite::phys::{parse_pagemap_entry, PageFlags, PhysAddr};
use ferrite::physmem::kpageflags::{batch_extent, KPageFlags, KPF_BUDDY};
use ferrite::physmem::pfn::{Pfn, PfnRange};
use ferrite::physmem::phys::{
    map_stats, pagemap_extent, parse_pagemap, IoFailure, IoKind, MapStats, PageMap, PhysError,
    PhysResolver, PhysResolverError, ReadCursor, ReadResult, ReadStep,
};
use ferrite::physmem::PAGE_BYTES_USIZE;

fn io_failure(kind: IoKind, message: &str) -> IoFailure {
    IoFailure {
        kind,
        message: message.to_owned(),
    }
}

#[test]
fn phys_phys_addr_pfn_and_offset() {
    let addr = PhysAddr(0x1234_5678);
    assert_eq!(addr.pfn(), 0x1234_5);
    assert_eq!(addr.page_offset(), 0x678);
}

#[test]
fn phys_phys_addr_display() {
    let addr = PhysAddr(0xdead_beef);
    assert_eq!(addr.to_string(), "0xdeadbeef");
    assert_eq!(format!("0x{:x}", addr.0), "0xdeadbeef");
}

#[test]
fn phys_parse_present_page() {
    let entry: u64 = (1u64 << 63) | 0x12345;
    assert_eq!(parse_pagemap_entry(entry), Some(0x12345));
}

#[test]
fn phys_parse_not_present() {
    let entry: u64 = 0x12345;
    assert_eq!(parse_pagemap_entry(entry), None);
}

#[test]
fn phys_parse_swapped_page() {
    let entry: u64 = (1u64 << 63) | (1u64 << 62) | 0x12345;
    assert_eq!(parse_pagemap_entry(entry), None);
}

#[test]
fn phys_parse_zero_pfn_means_no_cap() {
    let entry: u64 = 1u64 << 63;
    assert_eq!(parse_pagemap_entry(entry), None);
}

#[test]
fn phys_parse_all_flags() {
    let entry: u64 = (1u64 << 63) | (1u64 << 56) | (1u64 << 55) | 0xABCDE;
    assert_eq!(parse_pagemap_entry(entry), Some(0xABCDE));
}

#[test]
fn phys_page_flags_methods() {
    let flags = PageFlags {
        raw: (1 << 17) | (1 << 22),
    };
    assert!(flags.is_huge());
    assert!(flags.is_thp());
    assert!(!flags.is_unevictable());
    assert!(!flags.is_hwpoison());

    let flags2 = PageFlags {
        raw: (1 << 18) | (1 << 19),
    };
    assert!(flags2.is_unevictable());
    assert!(flags2.is_hwpoison());
    assert!(!flags2.is_huge());
}

#[test]
fn permission_denied_from_open() {
    let io_err = io_failure(IoKind::PermissionDenied, "EPERM");
    let phys_err = PhysError::OpenPagemap { source: io_err };
    let resolver_err = PhysResolverError::from_open(phys_err);
    assert!(resolver_err.to_string().contains("CAP_SYS_ADMIN"));
    let PhysResolverError::PermissionDenied { .. } = resolver_err else {
            panic!("unexpected value");
        };
}

#[test]
fn other_open_error_maps_to_unavailable() {
    let io_err = io_failure(IoKind::NotFound, "no file");
    let phys_err = PhysError::OpenPagemap { source: io_err };
    let resolver_err = PhysResolverError::from_open(phys_err);
    assert!(resolver_err.to_string().contains("unavailable"));
    let PhysResolverError::Unavailable { .. } = resolver_err else {
            panic!("unexpected value");
        };
}

#[test]
fn non_open_error_maps_to_unavailable() {
    let io_err = io_failure(IoKind::Other, "pipe");
    let phys_err = PhysError::ReadPagemap { source: io_err };
    let resolver_err = PhysResolverError::from_open(phys_err);
    let PhysResolverError::Unavailable { .. } = resolver_err else {
            panic!("unexpected value");
        };
}

#[test]
fn build_error_maps_to_read_error() {
    let io_err = io_failure(IoKind::UnexpectedEof, "short read");
    let phys_err = PhysError::ReadPagemap { source: io_err };
    let resolver_err = PhysResolverError::from_build(phys_err);
    assert!(resolver_err.to_string().contains("failed to build"));
    let PhysResolverError::ReadError { .. } = resolver_err else {
            panic!("unexpected value");
        };
}

#[test]
fn map_stats_tested_bytes_excludes_unresolved() {
    let stats = MapStats {
        total_pages: 10,
        resolved_pages: 8,
        huge_pages: 0,
        thp_pages: 0,
        hwpoison_pages: 0,
        unevictable_pages: 0,
    };
    // 8 resolved pages * 4096 bytes/page.
    assert!(stats.tested_bytes() == 8 * 4096);
}

#[test]
fn phys_error_display() {
    let e = PhysError::PageNotPresent { vaddr: 0x1000 };
    assert!(e.to_string().contains("0x1000"));

    let e = PhysError::PfnUnavailable { vaddr: 0x2000 };
    assert!(e.to_string().contains("CAP_SYS_ADMIN"));

    let e = PhysError::OpenPagemap {
        source: io_failure(IoKind::PermissionDenied, "denied"),
    };
    assert!(e.to_string().contains("pagemap"));

    let e = PhysError::OpenKpageflags {
        source: io_failure(IoKind::NotFound, "missing"),
    };
    assert!(e.to_string().contains("kpageflags"));
}

/// A fake [`PhysResolver`] for testing code that consumes the trait
/// without needing `/proc/self/pagemap`.
///
/// `resolve` returns `PhysAddr(vaddr as u64 + phys_offset)`.
struct FakeResolver {
    pub base: usize,
    pub len: usize,
    pub phys_offset: u64,
}

impl FakeResolver {
    pub fn new(base: usize, len: usize) -> Self {
        Self {
            base,
            len,
            phys_offset: 0x1_0000_0000,
        }
    }
}

impl PhysResolver for FakeResolver {
    fn build_map(&mut self, base: usize, len: usize) -> Result<MapStats, PhysError> {
        self.base = base;
        self.len = len;
        Ok(MapStats {
            total_pages: len / PAGE_BYTES_USIZE,
            resolved_pages: len / PAGE_BYTES_USIZE,
            huge_pages: 0,
            thp_pages: 0,
            hwpoison_pages: 0,
            unevictable_pages: 0,
        })
    }

    fn resolve(&self, vaddr: usize) -> Result<PhysAddr, PhysError> {
        if vaddr < self.base || vaddr >= self.base + self.len {
            return Err(PhysError::PageNotPresent { vaddr });
        }
        Ok(PhysAddr(vaddr as u64 + self.phys_offset))
    }

    fn page_flags(&self, _pfn: u64) -> Result<KPageFlags, PhysError> {
        Ok(KPageFlags::default())
    }

    fn verify_stability(&self, _base: usize, _len: usize) -> Result<usize, PhysError> {
        Ok(0)
    }
}

#[test]
fn resolve_within_range() {
    let resolver = FakeResolver::new(0x1000, 0x2000);
    let addr = resolver.resolve(0x1500).unwrap();
    assert!(addr.0 == 0x1500u64 + 0x1_0000_0000);
}

#[test]
fn resolve_out_of_range() {
    let resolver = FakeResolver::new(0x1000, 0x2000);
    assert!(resolver.resolve(0x5000).is_err());
}

#[test]
fn build_map_returns_stats() {
    let mut resolver = FakeResolver::new(0, 0);
    let stats = resolver.build_map(0x1000, 8192).unwrap();
    assert!(stats.total_pages == 2);
    assert!(stats.resolved_pages == 2);
    assert!(resolver.base == 0x1000);
    assert!(resolver.len == 8192);
}

#[test]
fn page_flags_returns_default() {
    let resolver = FakeResolver::new(0x1000, 0x2000);
    let flags = resolver.page_flags(42).unwrap();
    assert!(flags.is_empty());
    assert!(!flags.is_huge());
    assert!(!flags.is_thp());
}

#[test]
fn verify_stability_always_zero() {
    let resolver = FakeResolver::new(0x1000, 0x2000);
    let changed = resolver.verify_stability(0x1000, 0x2000).unwrap();
    assert!(changed == 0);
}

#[test]
fn resolve_below_base_fails() {
    let resolver = FakeResolver::new(0x2000, 0x1000);
    assert!(resolver.resolve(0x1000).is_err());
}

#[test]
fn phys_addr_into_string() {
    let addr = PhysAddr(0x1234_5678);
    assert_eq!(addr.to_string(), "0x12345678");
}

#[test]
fn phys_addr_upper_hex() {
    let addr = PhysAddr(0xdead_beef);
    assert_eq!(addr.upper_hex(), "DEADBEEF");
}

/// Read from a file that gives at most `at_most` bytes at once.
fn read_exactly(file: &[u8], len: usize, offset: i64, at_most: usize) -> Option<Vec<u8>> {
    let mut cursor = ReadCursor::new(offset, len);
    let mut got = vec![];
    loop {
        match cursor.next_step() {
            ReadStep::Done => return Some(got),
            ReadStep::Overflow => return None,
            ReadStep::Read { at, skip, want } => {
                assert_eq!(skip, got.len());
                let from = (at as usize).min(file.len());
                let n = want.min(at_most).min(file.len() - from);
                got.extend_from_slice(&file[from..from + n]);
                if cursor.advance(n) == ReadResult::Eof {
                    return None;
                }
            }
        }
    }
}

#[test]
fn reads_exact_bytes_at_offset() {
    let data: Vec<u8> = (0..64).collect();
    let expected = vec![16, 17, 18, 19, 20, 21, 22, 23];
    assert_eq!(read_exactly(&data, 8, 16, 64), Some(expected.clone()));
    assert_eq!(read_exactly(&data, 8, 16, 3), Some(expected));
}

#[test]
fn reads_from_start() {
    assert_eq!(read_exactly(b"hello world", 5, 0, 64), Some(b"hello".to_vec()));
}

#[test]
fn eof_returns_error() {
    assert_eq!(read_exactly(b"short", 32, 0, 64), None);
}

#[test]
fn offset_past_end_returns_error() {
    assert_eq!(read_exactly(b"data", 1, 1000, 64), None);
}

#[test]
fn empty_read_succeeds() {
    assert_eq!(read_exactly(b"data", 0, 0, 64), Some(vec![]));
}

#[test]
fn an_offset_that_overflows_is_not_read() {
    assert_eq!(ReadCursor::new(i64::MAX, 1).next_step(), ReadStep::Read {
        at: i64::MAX,
        skip: 0,
        want: 1,
    });
    let mut cursor = ReadCursor::new(i64::MAX, 2);
    assert_eq!(cursor.advance(1), ReadResult::Progress);
    assert_eq!(cursor.next_step(), ReadStep::Overflow);
}

fn entry(pfn: u64) -> [u8; 8] {
    ((1u64 << 63) | pfn).to_le_bytes()
}

#[test]
fn a_page_map_resolves_what_it_read() {
    let entries = [entry(0x12), [0; 8], entry(0x34)].concat();
    assert_eq!(parse_pagemap(&entries), [0x12, 0, 0x34]);
    let map = PageMap::from_entries(0x7000, &entries);
    assert_eq!(map.resolve(0x7123), Ok(PhysAddr(0x12123)));
    assert_eq!(map.resolve(0x9fff), Ok(PhysAddr(0x34fff)));
    assert_eq!(map.resolve(0x8000), Err(PhysError::PfnUnavailable { vaddr: 0x8000 }));
    assert_eq!(map.resolve(0xa000), Err(PhysError::PageNotPresent { vaddr: 0xa000 }));
    assert_eq!(map.resolve(0x6fff), Err(PhysError::PageNotPresent { vaddr: 0x6fff }));
    assert_eq!(map.changed_pages(&entries), 0);
    let moved = [entry(0x12), entry(0x99), entry(0x35)].concat();
    assert_eq!(map.changed_pages(&moved), 2);
    assert_eq!(pagemap_extent(0x7000, 3 * PAGE_BYTES_USIZE), (56, 24));
}

#[test]
fn map_statistics_count_flags_of_resolved_pages() {
    let flag = |bit: u32| Some(KPageFlags::from_bits_retain(1 << bit));
    let stats = map_stats(&[1, 2, 0, 3], &[flag(17), flag(22), flag(17), None]);
    assert_eq!(stats.total_pages, 4);
    assert_eq!(stats.resolved_pages, 3);
    assert_eq!(stats.huge_pages, 1);
    assert_eq!(stats.thp_pages, 1);
    assert_eq!(stats.hwpoison_pages, 0);
}

#[test]
fn read_one_past_end_errors() {
    let file = KPF_BUDDY.to_le_bytes();
    let offset = Pfn::new(9).kpageflags_offset() as i64;
    assert_eq!(read_exactly(&file, 8, offset, 64), None);
}

#[test]
fn read_batch_past_end_returns_false() {
    let file = KPF_BUDDY.to_le_bytes();
    let range = PfnRange {
        start: Pfn::new(0),
        count: 8,
    };
    let (offset, len) = batch_extent(range).unwrap();
    assert_eq!(read_exactly(&file, len, offset, 64), None);
}
