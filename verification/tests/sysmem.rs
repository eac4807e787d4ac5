//! How much memory is installed, and how much of it a run covered.

use ferrite::physmem::phys::MapStats;
use ferrite::physmem::sysmem::{
    coverage_for, installed_ram, meminfo_bytes, system_ram_ranges, Coverage, InstalledRam,
    RamSource,
};

const IOMEM: &str = "\
00000000-00000fff : Reserved
00001000-0009ffff : System RAM
00100000-3fffffff : System RAM
  01000000-01ffffff : Kernel code
fee00000-fee00fff : Local APIC
";

const MEMINFO: &str = "\
MemTotal:       1024000 kB
MemFree:         512000 kB
MemAvailable:    768000 kB
";

fn stats(resolved_pages: usize) -> MapStats {
    MapStats {
        total_pages: 32,
        resolved_pages,
        huge_pages: 0,
        thp_pages: 0,
        hwpoison_pages: 0,
        unevictable_pages: 0,
    }
}

#[test]
fn installed_ram_adds_up_the_map() {
    let bytes = 0x9f000 + 0x3ff0_0000;
    assert_eq!(
        installed_ram(IOMEM, MEMINFO),
        Some(InstalledRam { bytes, source: RamSource::ProcIomem })
    );
    assert_eq!(
        system_ram_ranges(IOMEM),
        vec![(0x1000, 0x9ffff), (0x10_0000, 0x3fff_ffff)]
    );
}

#[test]
fn installed_ram_falls_back_to_the_summary() {
    let summary = Some(InstalledRam { bytes: 1_024_000 * 1024, source: RamSource::MemTotal });
    assert_eq!(installed_ram("", MEMINFO), summary);
    // Without privilege every range reads as zero.
    let zeroed = "00000000-00000000 : System RAM\n00000000-00000000 : System RAM\n";
    assert_eq!(installed_ram(zeroed, MEMINFO), summary);
    // More bytes than can be counted.
    let huge = "0-ffffffffffffffff : System RAM\n1000-1fff : System RAM\n";
    assert_eq!(installed_ram(huge, MEMINFO), summary);
    assert_eq!(installed_ram("", ""), None);
}

#[test]
fn installed_ram_reaches_the_largest_count() {
    assert_eq!(
        installed_ram("1-ffffffffffffffff : System RAM\n", ""),
        Some(InstalledRam { bytes: u64::MAX, source: RamSource::ProcIomem })
    );
}

#[test]
fn summary_gives_bytes() {
    assert_eq!(meminfo_bytes(MEMINFO, "MemAvailable:"), Some(768_000 * 1024));
    assert_eq!(meminfo_bytes(MEMINFO, "SwapTotal:"), None);
}

#[test]
fn coverage_is_measured_in_resolved_pages() {
    let installed = InstalledRam { bytes: 1 << 30, source: RamSource::ProcIomem };
    assert_eq!(
        coverage_for(Some(&stats(20)), Some(installed)),
        Coverage::Measured {
            tested_bytes: 20 * 4096,
            total_bytes: 1 << 30,
            source: RamSource::ProcIomem,
            cumulative: None,
            gap: None,
        }
    );
    assert_eq!(coverage_for(None, Some(installed)), Coverage::Unavailable);
    assert_eq!(coverage_for(Some(&stats(20)), None), Coverage::Unavailable);
}
