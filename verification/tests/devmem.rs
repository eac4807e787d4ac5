//! Testing physical ranges through `/dev/mem`.

use ferrite::events::LogLevel;
use ferrite::physmem::devmem::{
    announce, classify, memmap_fits, parse_memmap_reserved, parse_target, probe_bytes,
    probe_summary, resolve_mappings, write_allowed, DevMemError, DevMemResolver, DevMemTarget,
    Mapping, MappingAction, ProbeCursor, Safety,
};
use ferrite::physmem::phys::{PhysAddr, PhysError, PhysResolver};
use ferrite::physmem::{parse_hex, parse_hex_range};

#[test]
fn reserved_keyword() {
    assert_eq!(parse_target("reserved"), Ok(DevMemTarget::Reserved));
}

#[test]
fn hex_range() {
    let Ok(DevMemTarget::Range { start, end }) = parse_target("0x39400000-0x395fffff") else {
            panic!("unexpected value");
        };
    assert_eq!(start, 0x3940_0000);
    assert_eq!(end, 0x395f_ffff);
}

#[test]
fn bare_hex_without_prefix() {
    let Ok(DevMemTarget::Range { start, end }) = parse_target("39400000-395fffff") else {
            panic!("unexpected value");
        };
    assert_eq!(start, 0x3940_0000);
    assert_eq!(end, 0x395f_ffff);
}

#[test]
fn end_before_start_is_rejected() {
    assert!(parse_target("0x2000-0x1000").is_err());
}

#[test]
fn missing_separator_is_rejected() {
    assert!(parse_target("0x39400000").is_err());
}

#[test]
fn garbage_is_rejected() {
    assert!(parse_target("not-a-range").is_err());
}

#[test]
fn parses_reserve_form_with_suffix() {
    let cmdline = "BOOT_IMAGE=/bzimage memmap=2M$0x39400000 quiet";
    assert_eq!(parse_memmap_reserved(cmdline), vec![(0x3940_0000, 0x395f_ffff)]);
}

#[test]
fn parses_multiple_reservations() {
    let cmdline = "memmap=2M$0x39400000 memmap=2M$0x673C00000 memmap=2M$0x7DAE00000";
    assert!(
        parse_memmap_reserved(cmdline)
            == vec![
                (0x3940_0000, 0x395f_ffff),
                (0x0006_73C0_0000, 0x0006_73DF_FFFF),
                (0x0007_DAE0_0000, 0x0007_DAFF_FFFF),
            ]
    );
}

#[test]
fn ignores_non_reserve_forms() {
    // @ = usable, # = ACPI, ! = mark -- none are safe-to-write reservations.
    let cmdline = "memmap=1G@0x100000000 memmap=4M#0x50000000 memmap=1M!0x60000000";
    assert!(parse_memmap_reserved(cmdline).is_empty());
}

#[test]
fn empty_cmdline_yields_nothing() {
    assert!(parse_memmap_reserved("").is_empty());
}

#[test]
fn decimal_size_and_addr() {
    // 2097152 bytes = 2 MiB, addr 0 -> [0, 0x1fffff].
    assert!(parse_memmap_reserved("memmap=2097152$0") == vec![(0, 0x1f_ffff)]);
}

const RESERVED: &[(u64, u64)] = &[(0x3940_0000, 0x395f_ffff)];

// A big System RAM span around the reserved hole.
const RAM: &[(u64, u64)] = &[(0x0010_0000, 0x393f_ffff), (0x3960_0000, 0xc349_7fff)];

#[test]
fn fully_inside_reserved_is_safe() {
    assert_eq!(classify(0x3940_0000, 0x394f_ffff, RESERVED, RAM), Safety::Reserved);
}

#[test]
fn inside_system_ram_needs_override() {
    // A known-bad neighborhood sits in this span.
    assert_eq!(classify(0x5e52_6000, 0x5e52_6fff, RESERVED, RAM), Safety::SystemRam);
}

#[test]
fn overlapping_reserved_and_ram_is_system_ram() {
    // Straddles the reserved region's upper edge into System RAM.
    assert_eq!(classify(0x3950_0000, 0x3960_0fff, RESERVED, RAM), Safety::SystemRam);
}

#[test]
fn neither_reserved_nor_ram_is_firmware() {
    // Local APIC MMIO region, well above the RAM spans.
    assert_eq!(classify(0xfec0_0000, 0xfec0_0fff, RESERVED, RAM), Safety::FirmwareOrMmio);
}

#[test]
fn reserved_takes_precedence_over_ram_overlap() {
    // A reserved region nested inside a RAM span still classifies safe
    // when the request is fully within the reserved bounds.
    let ram = &[(0x0, 0xffff_ffff)];
    assert_eq!(classify(0x3940_0000, 0x395f_ffff, RESERVED, ram), Safety::Reserved);
}

#[test]
fn reserved_always_writable() {
    assert!(write_allowed(Safety::Reserved, false));
    assert!(write_allowed(Safety::Reserved, true));
}

#[test]
fn system_ram_only_with_override() {
    assert!(!write_allowed(Safety::SystemRam, false));
    assert!(write_allowed(Safety::SystemRam, true));
}

#[test]
fn firmware_never_writable() {
    assert!(!write_allowed(Safety::FirmwareOrMmio, false));
    assert!(!write_allowed(Safety::FirmwareOrMmio, true));
}

const RESOLVE_RAM: &[(u64, u64)] = &[(0x0010_0000, 0xc349_7fff)];

const CMDLINE: &str = "BOOT_IMAGE=/bzimage memmap=2M$0x39400000 memmap=2M$0x673C00000";

#[test]
fn explicit_range_in_system_ram() {
    let target = DevMemTarget::Range {
        start: 0x5e52_6000,
        end: 0x5e52_6fff,
    };
    let Ok(maps) = resolve_mappings(target, CMDLINE, RESOLVE_RAM) else {
            panic!("unexpected value");
        };
    assert_eq!(maps.len(), 1);
    assert_eq!(maps[0].phys_start, 0x5e52_6000);
    assert_eq!(maps[0].len, 0x1000);
    assert_eq!(maps[0].safety, Safety::SystemRam);
}

#[test]
fn explicit_range_in_reserved_region() {
    let target = DevMemTarget::Range {
        start: 0x3940_0000,
        end: 0x394f_ffff,
    };
    let Ok(maps) = resolve_mappings(target, CMDLINE, RESOLVE_RAM) else {
            panic!("unexpected value");
        };
    assert_eq!(maps[0].safety, Safety::Reserved);
}

#[test]
fn unaligned_range_is_rejected() {
    let target = DevMemTarget::Range {
        start: 0x1001,
        end: 0x2000,
    };
    assert!(
        resolve_mappings(target, CMDLINE, RESOLVE_RAM)
            == Err(DevMemError::Unaligned {
                start: 0x1001,
                len: 0x1000,
            })
    );
}

#[test]
fn reserved_yields_one_mapping_per_reservation() {
    let Ok(maps) = resolve_mappings(DevMemTarget::Reserved, CMDLINE, RESOLVE_RAM) else {
            panic!("unexpected value");
        };
    assert_eq!(maps.len(), 2);
    assert!(maps.iter().all(|m| m.safety == Safety::Reserved));
    assert_eq!(maps[0].phys_start, 0x3940_0000);
    assert_eq!(maps[0].len, 0x0020_0000);
    assert_eq!(maps[1].phys_start, 0x0006_73C0_0000);
}

#[test]
fn reserved_without_reservations_errors() {
    assert!(
        resolve_mappings(DevMemTarget::Reserved, "quiet", RESOLVE_RAM)
            == Err(DevMemError::NoReservedRegions)
    );
}

#[test]
fn counts_nonzero_and_xors_le_words() {
    // Four little-endian u64 words: 0, 0xff, 0x0f, 0.
    let mut bytes = Vec::new();
    for w in [0u64, 0xff, 0x0f, 0] {
        bytes.extend_from_slice(&w.to_le_bytes());
    }
    let stats = probe_bytes(&bytes);
    assert_eq!(stats.words_read, 4);
    assert_eq!(stats.nonzero_words, 2);
    assert_eq!(stats.xor_checksum, 0xff ^ 0x0f);
}

#[test]
fn ignores_trailing_partial_word() {
    let bytes = [0xffu8; 12]; // one whole word + 4 trailing bytes
    let stats = probe_bytes(&bytes);
    assert_eq!(stats.words_read, 1);
    assert_eq!(stats.xor_checksum, u64::MAX);
}

#[test]
fn empty_range() {
    let stats = probe_bytes(&[]);
    assert_eq!(stats.words_read, 0);
    assert_eq!(stats.nonzero_words, 0);
    assert_eq!(stats.xor_checksum, 0);
}

#[test]
fn merge_combines_chunks() {
    let a = probe_bytes(&1u64.to_le_bytes());
    let b = probe_bytes(&2u64.to_le_bytes());
    let merged = a.merge(b);
    assert_eq!(merged.words_read, 2);
    assert_eq!(merged.nonzero_words, 2);
    assert_eq!(merged.xor_checksum, 3);
}

#[test]
fn resolves_linearly_from_phys_base() {
    let r = DevMemResolver::new(0x1000, 0x3940_0000, 0x2000);
    let Ok(PhysAddr(p)) = r.resolve(0x1000) else {
            panic!("unexpected value");
        };
    assert_eq!(p, 0x3940_0000);
    let Ok(PhysAddr(p2)) = r.resolve(0x1040) else {
            panic!("unexpected value");
        };
    assert_eq!(p2, 0x3940_0040);
}

#[test]
fn out_of_range_fails() {
    let r = DevMemResolver::new(0x1000, 0x3940_0000, 0x2000);
    assert!(r.resolve(0x900).is_err());
    assert!(r.resolve(0x3000).is_err());
}

#[test]
fn stability_is_always_zero() {
    let r = DevMemResolver::new(0x1000, 0x3940_0000, 0x2000);
    let Ok(changed) = r.verify_stability(0x1000, 0x2000) else {
            panic!("unexpected value");
        };
    assert_eq!(changed, 0);
}

fn mapping(safety: Safety) -> Mapping {
    Mapping {
        phys_start: 0x1000,
        len: 0x1000,
        safety,
    }
}

#[test]
fn system_ram_context_mentions_direct_map() {
    let msg = mapping(Safety::SystemRam).map_context();
    assert!(msg.contains("direct map"));
    assert!(msg.contains("memmap="));
}

#[test]
fn reserved_context_is_generic() {
    let msg = mapping(Safety::Reserved).map_context();
    assert_eq!(msg, "failed to map physical range through /dev/mem");
}

#[test]
fn actions_follow_the_class() {
    assert_eq!(mapping(Safety::FirmwareOrMmio).action(true), MappingAction::Refuse);
    assert_eq!(mapping(Safety::FirmwareOrMmio).action(false), MappingAction::Refuse);
    assert_eq!(mapping(Safety::SystemRam).action(false), MappingAction::Probe);
    assert_eq!(mapping(Safety::SystemRam).action(true), MappingAction::WriteTest);
    assert_eq!(mapping(Safety::Reserved).action(false), MappingAction::WriteTest);
}

#[test]
fn announcements_follow_the_action() {
    let refused = announce(&mapping(Safety::FirmwareOrMmio), true);
    assert_eq!(refused.len(), 1);
    assert_eq!(refused[0].level, LogLevel::Warn);
    assert_eq!(
        refused[0].text,
        "devmem: refusing 0x1000-0x1fff (firmware/MMIO) -- never safe to touch"
    );
    let live = announce(&mapping(Safety::SystemRam), true);
    assert_eq!(live.len(), 2);
    assert!(live[0].text.contains("LIVE System RAM 0x1000-0x1fff -- this can corrupt"));
    assert_eq!(live[1].text, "devmem: write-testing physical 0x1000-0x1fff (System RAM)");
    let probed = announce(&mapping(Safety::SystemRam), false);
    assert_eq!(probed.len(), 1);
    assert_eq!(
        probed[0].text,
        "devmem: read-only probe of physical 0x1000-0x1fff (System RAM); pass --devmem-unsafe to write-test (DANGEROUS)"
    );
    assert_eq!(announce(&mapping(Safety::Reserved), false).len(), 1);
}

#[test]
fn target_errors_say_what_is_wrong() {
    assert_eq!(
        parse_target("0x2000-0x1000"),
        Err("invalid --devmem range: end 0x1000 is below start 0x2000".to_owned())
    );
    assert_eq!(
        parse_target("12-xyz "),
        Err("invalid physical address: xyz".to_owned())
    );
    assert_eq!(
        parse_target("12"),
        Err("invalid --devmem value: 12 (expected \"reserved\" or START-END, e.g. 0x39400000-0x395fffff)".to_owned())
    );
    assert_eq!(parse_target("RESERVED"), Ok(DevMemTarget::Reserved));
}

#[test]
fn devmem_error_messages() {
    assert_eq!(
        DevMemError::NoReservedRegions.to_string(),
        "--devmem reserved: no memmap= reservations found on the kernel cmdline"
    );
    assert_eq!(
        DevMemError::Unaligned { start: 0x1001, len: 0x1000 }.to_string(),
        "--devmem range must be page-aligned (start 0x1001, len 0x1000)"
    );
}

#[test]
fn reservations_beyond_the_address_space_are_told() {
    assert!(memmap_fits("memmap=2M$0x39400000 quiet"));
    assert!(memmap_fits("memmap=99999999999999G@1"));
    assert!(!memmap_fits("memmap=99999999999999G$1"));
    assert!(!memmap_fits("memmap=2$0xffffffffffffffff"));
}

#[test]
fn empty_reservations_are_none() {
    assert!(parse_memmap_reserved("memmap=0$0x1000 memmap=K$0x1000 memmap=$0x1000").is_empty());
}

#[test]
fn probe_in_chunks_sees_every_word() {
    let bytes: Vec<u8> = (0..64u64).flat_map(|w| (w * 3).to_le_bytes()).collect();
    let whole = probe_bytes(&bytes);
    let mut cursor = ProbeCursor::new(&Mapping {
        phys_start: 0x1000,
        len: bytes.len(),
        safety: Safety::Reserved,
    });
    let (offset, n) = cursor.next_read().unwrap();
    assert_eq!((offset, n), (0x1000, bytes.len()));
    cursor.absorb(&bytes[..128]);
    cursor.absorb(&bytes[128..]);
    assert!(cursor.next_read().is_none());
    assert_eq!(cursor.stats, whole);
    assert_eq!(
        probe_summary("512 B", &whole),
        format!("probe: 512 B readable (64 words, 63 nonzero, checksum {:#018x})", whole.xor_checksum)
    );
}

#[test]
fn parses_bare_hex_range() {
    assert_eq!(parse_hex_range("00001000-00001fff", false), Some((0x1000, 0x1fff)));
}

#[test]
fn parses_prefixed_hex_range_when_allowed() {
    assert_eq!(
        parse_hex_range("0x39400000-0x395fffff", true),
        Some((0x3940_0000, 0x395f_ffff))
    );
}

#[test]
fn prefixed_range_rejected_without_allow_prefix() {
    assert_eq!(parse_hex_range("0x1000-0x2000", false), None);
}

#[test]
fn missing_dash_is_none() {
    assert_eq!(parse_hex_range("0x39400000", true), None);
}

#[test]
fn non_hex_is_none() {
    assert_eq!(parse_hex_range("zzzz-yyyy", false), None);
}

#[test]
fn order_is_not_validated() {
    // The helper parses without imposing start <= end.
    assert_eq!(parse_hex_range("2000-1000", false), Some((0x2000, 0x1000)));
}

#[test]
fn hex_numbers() {
    assert_eq!(parse_hex("FfFf", false), Some(0xffff));
    assert_eq!(parse_hex("0Xff", true), Some(0xff));
    assert_eq!(parse_hex("", true), None);
    assert_eq!(parse_hex("0x", true), None);
    assert_eq!(parse_hex("10000000000000000", false), None);
    assert_eq!(parse_hex("ffffffffffffffff", false), Some(u64::MAX));
}

#[test]
fn resolver_knows_only_its_own_range() {
    let r = DevMemResolver::new(0x1000, u64::MAX - 0xf, 0x2000);
    assert_eq!(r.resolve(0x100f), Ok(PhysAddr(u64::MAX)));
    assert_eq!(r.resolve(0x1010), Err(PhysError::PageNotPresent { vaddr: 0x1010 }));
    assert_eq!(r.resolve(0xfff), Err(PhysError::PageNotPresent { vaddr: 0xfff }));
    assert!(r.page_flags(7).is_err());
    let mut r = DevMemResolver::new(0, 0x8000, 0);
    let stats = r.build_map(0x4000, 3 * 4096 + 1).unwrap();
    assert_eq!(stats.total_pages, 3);
    assert_eq!(stats.resolved_pages, 3);
    assert_eq!(stats.huge_pages, 0);
    assert_eq!(r.resolve(0x4004), Ok(PhysAddr(0x8004)));
}
