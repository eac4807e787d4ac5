//! The command line: sizes, seeds, threads, output flags and privileges.

use ferrite::allocation::{AllocError, AllocOutcome, StopReason};
use ferrite::cli::{
    check_privileges, has_capability, is_cull_ceiling, parse_capability_from_status, parse_parallel,
    parse_random_passes, parse_seed, parse_size, parse_size_spec, pattern_config,
    report_alloc_outcome, report_resolver_error, report_sieve, resolve_output, ColorMode,
    OutputConfig, OutputFormat, Parallelism, PrivilegeContext, PrivilegeWarning, SizeSpec,
};
use ferrite::events::LogLevel;
use ferrite::physmem::phys::{IoFailure, IoKind, PhysError, PhysResolverError};
use ferrite::physmem::sieve::SieveOutcome;
use ferrite::units::PlainUnits;

#[test]
fn exhausted_with_sieve_active_is_ceiling() {
    assert!(is_cull_ceiling(true, &AllocError::Exhausted { available: 1024 }));
}

#[test]
fn exhausted_without_sieve_is_an_error() {
    assert!(!is_cull_ceiling(false, &AllocError::Exhausted { available: 1024 }));
}

#[test]
fn non_exhaustion_failures_are_errors_even_with_sieve() {
    assert!(!is_cull_ceiling(true, &AllocError::ZeroSize));
}

#[test]
fn max_keyword_case_insensitive() {
    assert_eq!(parse_size_spec("max"), Ok(SizeSpec::Max));
    assert_eq!(parse_size_spec("MAX"), Ok(SizeSpec::Max));
    assert_eq!(parse_size_spec("Max"), Ok(SizeSpec::Max));
}

#[test]
fn explicit_sizes_parse_as_bytes() {
    assert_eq!(parse_size_spec("512M"), Ok(SizeSpec::Bytes(512 * 1024 * 1024)));
    assert_eq!(parse_size_spec("1G"), Ok(SizeSpec::Bytes(1024 * 1024 * 1024)));
    assert_eq!(parse_size_spec("4096"), Ok(SizeSpec::Bytes(4096)));
}

#[test]
fn junk_is_rejected() {
    assert!(parse_size_spec("banana").is_err());
    assert!(parse_size_spec("").is_err());
}

#[test]
fn sizes_in_every_unit() {
    assert_eq!(parse_size("3k"), Ok(3 * 1024));
    assert_eq!(parse_size("3K"), Ok(3 * 1024));
    assert_eq!(parse_size(" 7m\n"), Ok(7 * 1024 * 1024));
    assert_eq!(parse_size("2g"), Ok(2 * 1024 * 1024 * 1024));
    assert_eq!(parse_size("+5"), Ok(5));
    assert_eq!(parse_size("0"), Ok(0));
}

#[test]
fn written_sizes_read_back() {
    for n in [0usize, 1, 9, 10, 1023, 65536, 18_446_744_073_709_551_615] {
        assert_eq!(parse_size(&format!("{n}")), Ok(n));
    }
    for n in [0usize, 1, 511, 1 << 20] {
        assert_eq!(parse_size(&format!("{n}K")), Ok(n * 1024));
        assert_eq!(parse_size(&format!("{n}M")), Ok(n * 1024 * 1024));
        assert_eq!(parse_size(&format!("{n}G")), Ok(n * 1024 * 1024 * 1024));
    }
}

#[test]
fn size_errors_name_the_trimmed_text() {
    assert_eq!(parse_size(" 12X "), Err("invalid size: 12X".to_owned()));
    assert_eq!(parse_size("G"), Err("invalid size: G".to_owned()));
    assert_eq!(parse_size("-1"), Err("invalid size: -1".to_owned()));
    assert_eq!(
        parse_size("18446744073709551615K"),
        Err("size overflow: 18446744073709551615K".to_owned())
    );
    assert_eq!(
        parse_size("18446744073709551616"),
        Err("invalid size: 18446744073709551616".to_owned())
    );
}

#[test]
fn size_spec_resolves_against_the_machine() {
    assert_eq!(SizeSpec::Bytes(7).resolve(None), Ok(7));
    assert_eq!(SizeSpec::Max.resolve(Some(9)), Ok(9));
    assert_eq!(
        SizeSpec::Max.resolve(None),
        Err("cannot resolve --size max: /proc/meminfo is unreadable")
    );
    assert_eq!(SizeSpec::Bytes(7).bytes_estimate(Some(9)), 7);
    assert_eq!(SizeSpec::Max.bytes_estimate(Some(9)), 9);
    assert_eq!(SizeSpec::Max.bytes_estimate(None), usize::MAX);
}

const STATUS_WITH_CAPS: &str = "\
Name:\tferrite
Umask:\t0022
State:\tR (running)
Tgid:\t12345
Pid:\t12345
CapInh:\t0000000000000000
CapPrm:\t000001ffffffffff
CapEff:\t000001ffffffffff
CapBnd:\t000001ffffffffff
CapAmb:\t0000000000000000";

const STATUS_NO_CAPS: &str = "\
Name:\tferrite
CapEff:\t0000000000000000";

#[test]
fn cap_ipc_lock_present() {
    assert!(parse_capability_from_status(STATUS_WITH_CAPS, 14));
}

#[test]
fn cap_sys_admin_present() {
    // CAP_SYS_ADMIN = bit 21
    assert!(parse_capability_from_status(STATUS_WITH_CAPS, 21));
}

#[test]
fn cap_absent_when_zero() {
    assert!(!parse_capability_from_status(STATUS_NO_CAPS, 14));
    assert!(!parse_capability_from_status(STATUS_NO_CAPS, 21));
}

#[test]
fn missing_capeff_line() {
    let status = "Name:\tferrite\nPid:\t1234\n";
    assert!(!parse_capability_from_status(status, 14));
}

#[test]
fn malformed_hex() {
    let status = "CapEff:\tnot_hex";
    assert!(!parse_capability_from_status(status, 14));
}

#[test]
fn empty_status() {
    assert!(!parse_capability_from_status("", 0));
}

#[test]
fn specific_bit_only() {
    // Only bit 14 set (CAP_IPC_LOCK)
    let status = "CapEff:\t0000000000004000";
    assert!(parse_capability_from_status(status, 14));
    assert!(!parse_capability_from_status(status, 13));
    assert!(!parse_capability_from_status(status, 15));
    assert!(!parse_capability_from_status(status, 21));
}

#[test]
fn first_readable_capability_line_counts() {
    let status = "CapEff:\tbad\r\nCapEff:\t 1 \r\nCapEff:\t2\n";
    assert!(parse_capability_from_status(status, 0));
    assert!(!parse_capability_from_status(status, 1));
}

fn ctx(
    is_root: bool,
    has_ipc_lock: bool,
    has_sys_admin: bool,
    need_phys: bool,
    memlock_result: Result<u64, String>,
    requested_bytes: usize,
) -> PrivilegeContext {
    PrivilegeContext {
        is_root,
        has_ipc_lock,
        has_sys_admin,
        need_phys,
        memlock_result,
        requested_bytes,
    }
}

#[test]
fn no_warnings_when_root() {
    let c = ctx(true, false, false, false, Ok(1024), 1024 * 1024);
    assert!(c.warnings().is_empty());
}

#[test]
fn no_warnings_with_ipc_lock() {
    let c = ctx(false, true, false, false, Ok(u64::MAX), 64 * 1024 * 1024);
    assert!(c.warnings().is_empty());
}

#[test]
fn warns_when_need_phys_and_no_sys_admin() {
    let c = ctx(false, false, false, true, Ok(u64::MAX), 64 * 1024 * 1024);
    let w = c.warnings();
    assert!(w.len() == 1);
    assert_eq!(w[0], PrivilegeWarning::NoSysAdmin);
}

#[test]
fn no_phys_warning_when_has_sys_admin() {
    let c = ctx(false, false, true, true, Ok(u64::MAX), 64 * 1024 * 1024);
    assert!(c.warnings().is_empty());
}

#[test]
fn rlimit_query_failed() {
    let c = ctx(false, false, false, false, Err("EPERM".into()), 64 * 1024 * 1024);
    let w = c.warnings();
    assert!(w.len() == 1);
    assert_eq!(w[0], PrivilegeWarning::MlockQueryFailed("EPERM".into()));
}

#[test]
fn rlimit_unlimited_no_warning() {
    let c = ctx(false, false, false, false, Ok(u64::MAX), usize::MAX);
    assert!(c.warnings().is_empty());
}

#[test]
fn rlimit_too_small() {
    let c = ctx(false, false, false, false, Ok(1024 * 1024), 10 * 1024 * 1024);
    let w = c.warnings();
    assert!(w.len() == 1);
    assert_eq!(
        w[0],
        PrivilegeWarning::MlockLimitExceeded {
            soft: 1024 * 1024,
            requested: 10 * 1024 * 1024,
        }
    );
}

#[test]
fn rlimit_exactly_at_limit_no_warning() {
    let c = ctx(false, false, false, false, Ok(1024), 1024);
    assert!(c.warnings().is_empty());
}

#[test]
fn rlimit_within_limit_no_warning() {
    let c = ctx(false, false, false, false, Ok(64 * 1024 * 1024), 1024 * 1024);
    assert!(c.warnings().is_empty());
}

#[test]
fn root_skips_rlimit_check() {
    // root + memlock error: rlimit block should be skipped entirely
    let c = ctx(true, false, false, false, Err("fail".into()), 1024);
    assert!(c.warnings().is_empty());
}

#[test]
fn need_phys_and_rlimit_exceeded_both_fire() {
    let c = ctx(false, false, false, true, Ok(1024), 1024 * 1024);
    let w = c.warnings();
    assert!(w.len() == 2);
    assert_eq!(w[0], PrivilegeWarning::NoSysAdmin);
    assert_eq!(
        w[1],
        PrivilegeWarning::MlockLimitExceeded {
            soft: 1024,
            requested: 1024 * 1024,
        }
    );
}

#[test]
fn privilege_warnings_in_words() {
    let c = ctx(false, false, false, true, Ok(1024), 2048);
    let texts = check_privileges(&c);
    assert_eq!(
        texts,
        vec![
            "CAP_SYS_ADMIN not detected -- physical addresses will be unavailable. Run as root \
             (sudo ferrite) or grant the capability (sudo setcap cap_sys_admin+ep $(which ferrite))"
                .to_owned(),
            "RLIMIT_MEMLOCK is 1024 bytes, but 2048 bytes requested. mlock will likely fail. Run \
             as root (sudo ferrite), raise the limit (ulimit -l unlimited), or grant the \
             capability (sudo setcap cap_ipc_lock+ep $(which ferrite))"
                .to_owned(),
        ]
    );
    let c = ctx(false, false, false, false, Err("EPERM".into()), 2048);
    assert_eq!(check_privileges(&c), vec!["could not query RLIMIT_MEMLOCK: EPERM".to_owned()]);
}

#[test]
fn auto_lowercase() {
    assert_eq!(parse_parallel("auto"), Ok(Parallelism::Auto));
}

#[test]
fn auto_case_insensitive() {
    assert_eq!(parse_parallel("AUTO"), Ok(Parallelism::Auto));
    assert_eq!(parse_parallel("Auto"), Ok(Parallelism::Auto));
}

#[test]
fn valid_counts() {
    let one = parse_parallel("1").unwrap();
    assert_eq!(one, Parallelism::Fixed(1));

    let eight = parse_parallel("8").unwrap();
    assert_eq!(eight, Parallelism::Fixed(8));
}

#[test]
fn rejects_zero() {
    assert!(parse_parallel("0").is_err());
    assert_eq!(parse_parallel("0"), Err("--parallel must be at least 1".to_owned()));
}

#[test]
fn cli_rejects_junk() {
    assert!(parse_parallel("banana").is_err());
    assert!(parse_parallel("").is_err());
    assert!(parse_parallel("-1").is_err());
    assert!(parse_seed("nope").is_err());
    assert!(parse_seed("0xZZ").is_err());
    assert!(parse_seed("").is_err());
}

#[test]
fn junk_is_named_in_the_error() {
    assert_eq!(
        parse_parallel(" auto"),
        Err("invalid --parallel value:  auto (expected \"auto\" or a positive integer)".to_owned())
    );
    assert_eq!(
        parse_seed(" x"),
        Err(
            "invalid --seed value:  x (expected hex like 0xDEADBEEF or a decimal u64)".to_owned()
        )
    );
    assert_eq!(
        parse_random_passes("x"),
        Err("invalid --random-passes value: x (expected a positive integer)".to_owned())
    );
    assert_eq!(
        parse_random_passes("0"),
        Err("--random-passes must be at least 1".to_owned())
    );
}

#[test]
fn resolve_fixed_returns_n() {
    let p = parse_parallel("6").unwrap();
    assert_eq!(p.resolve(Some(64)), 6);
}

#[test]
fn resolve_auto_returns_positive() {
    assert!(Parallelism::Auto.resolve(None) >= 1);
    assert_eq!(Parallelism::Auto.resolve(Some(12)), 12);
}

#[test]
fn hex_with_prefix() {
    assert_eq!(parse_seed("0xDEADBEEF"), Ok(0xDEAD_BEEF));
    assert_eq!(parse_seed("0Xff"), Ok(255));
}

#[test]
fn decimal() {
    assert_eq!(parse_seed("42"), Ok(42));
    assert_eq!(parse_seed("  1000  "), Ok(1000));
}

#[test]
fn max_u64_round_trips() {
    assert_eq!(parse_seed("0xFFFFFFFFFFFFFFFF"), Ok(u64::MAX));
}

#[test]
fn random_passes_accepts_positive() {
    assert_eq!(parse_random_passes("1"), Ok(1));
    assert_eq!(parse_random_passes("30"), Ok(30));
}

#[test]
fn random_passes_rejects_zero_and_junk() {
    assert!(parse_random_passes("0").is_err());
    assert!(parse_random_passes("-1").is_err());
    assert!(parse_random_passes("x").is_err());
}

#[test]
fn given_seed_wins_over_a_fresh_one() {
    assert_eq!(pattern_config(Some(5), 9, 3).random_seed, 5);
    assert_eq!(pattern_config(None, 9, 3).random_seed, 9);
    assert_eq!(pattern_config(None, 9, 3).random_passes, 3);
}

fn output(format: Option<OutputFormat>, events: Option<&str>, color: ColorMode) -> OutputConfig {
    resolve_output(format, events.map(str::to_owned), color, false)
}

#[test]
fn defaults_produce_table_format() {
    let out = output(None, None, ColorMode::Auto);
    assert_eq!(out.format, OutputFormat::Table);
    assert!(out.events_file.is_none());
}

#[test]
fn explicit_table_format() {
    let out = output(Some(OutputFormat::Table), None, ColorMode::Auto);
    assert_eq!(out.format, OutputFormat::Table);
}

#[test]
fn format_json_alone() {
    let out = output(Some(OutputFormat::Json), None, ColorMode::Auto);
    assert_eq!(out.format, OutputFormat::Json);
    assert!(out.events_file.is_none());
}

#[test]
fn format_json_with_events_file() {
    let out = output(Some(OutputFormat::Json), Some("/tmp/test.ndjson"), ColorMode::Auto);
    assert_eq!(out.format, OutputFormat::Json);
    assert_eq!(out.events_file.as_deref(), Some("/tmp/test.ndjson"));
}

#[test]
fn events_file_with_table_format() {
    let out = output(None, Some("/tmp/events.ndjson"), ColorMode::Auto);
    assert_eq!(out.format, OutputFormat::Table);
    assert!(out.events_file.is_some());
}

#[test]
fn events_file_with_explicit_table_format() {
    let out = output(
        Some(OutputFormat::Table),
        Some("/tmp/events.ndjson"),
        ColorMode::Auto,
    );
    assert_eq!(out.format, OutputFormat::Table);
    assert!(out.events_file.is_some());
}

#[test]
fn color_always() {
    let out = output(None, None, ColorMode::Always);
    assert!(out.color_enabled);
}

#[test]
fn color_never() {
    let out = output(None, None, ColorMode::Never);
    assert!(!out.color_enabled);
}

#[test]
fn color_auto_follows_the_terminal() {
    assert!(resolve_output(None, None, ColorMode::Auto, true).color_enabled);
    assert!(!resolve_output(None, None, ColorMode::Auto, false).color_enabled);
    assert!(!resolve_output(Some(OutputFormat::Json), None, ColorMode::Auto, true).color_enabled);
}

#[test]
fn json_format_forces_color_off() {
    let out = output(Some(OutputFormat::Json), None, ColorMode::Always);
    assert!(!out.color_enabled);
}

#[test]
fn json_format_with_events_forces_color_off() {
    let out = output(
        Some(OutputFormat::Json),
        Some("/tmp/events.ndjson"),
        ColorMode::Always,
    );
    assert!(!out.color_enabled);
}

#[test]
fn implicit_format_defaults_to_table() {
    let out = output(None, Some("/tmp/events.ndjson"), ColorMode::Auto);
    assert_eq!(out.format, OutputFormat::Table);
}

#[test]
fn trimmed_allocations_are_reported() {
    let at_floor = AllocOutcome {
        requested: 100,
        achieved: 60,
        stop: StopReason::HeadroomFloor { available: 7 },
    };
    let n = report_alloc_outcome(&PlainUnits, &at_floor, SizeSpec::Bytes(100)).unwrap();
    assert_eq!(n.level, LogLevel::Warn);
    assert_eq!(n.text, "locked 60 B of 100 B requested (stopped at headroom floor, 7 B available)");
    let n = report_alloc_outcome(&PlainUnits, &at_floor, SizeSpec::Max).unwrap();
    assert_eq!(n.level, LogLevel::Info);

    let failed = AllocOutcome {
        requested: 100,
        achieved: 60,
        stop: StopReason::ChunkFailed(AllocError::ZeroSize),
    };
    let n = report_alloc_outcome(&PlainUnits, &failed, SizeSpec::Max).unwrap();
    assert_eq!(n.level, LogLevel::Warn);
    assert_eq!(
        n.text,
        "locked 60 B of 100 B requested (chunk activation failed: requested size must be non-zero)"
    );

    let complete = AllocOutcome { requested: 1, achieved: 1, stop: StopReason::Completed };
    assert!(report_alloc_outcome(&PlainUnits, &complete, SizeSpec::Max).is_none());
}

#[test]
fn sieve_sweeps_are_reported() {
    let n = report_sieve(&PlainUnits, &SieveOutcome { swept: 9, held: 4, released: 5 });
    assert_eq!(n.level, LogLevel::Info);
    assert_eq!(
        n.text,
        "sieve: swept 9 B, holding 4 B previously-covered memory hostage, released 5 B for the test buffer"
    );
}

#[test]
fn resolver_errors_are_reported_by_kind() {
    let denied = PhysResolverError::from_open(PhysError::OpenPagemap {
        source: IoFailure {
            kind: IoKind::PermissionDenied,
            message: "Permission denied".to_owned(),
        },
    });
    let notices = report_resolver_error(&denied);
    assert_eq!(notices.len(), 2);
    assert_eq!(notices[0].level, LogLevel::Warn);
    assert_eq!(notices[0].text, "failed to open /proc/self/pagemap: Permission denied");
    assert!(notices[1].text.contains("cap_sys_admin"));

    let unavailable = PhysResolverError::from_open(PhysError::PageNotPresent { vaddr: 0x10 });
    let notices = report_resolver_error(&unavailable);
    assert_eq!(notices.len(), 1);
    assert_eq!(notices[0].level, LogLevel::Info);

    let unread = PhysResolverError::from_build(PhysError::PageNotPresent { vaddr: 0x10 });
    let notices = report_resolver_error(&unread);
    assert_eq!(notices.len(), 1);
    assert_eq!(notices[0].level, LogLevel::Warn);
}

#[test]
fn capabilities_need_a_readable_status() {
    let status = "Name:\tferrite\nCapEff:\t0000000000200000\n";
    assert!(has_capability(Some(status), 21));
    assert!(!has_capability(Some(status), 14));
    assert!(!has_capability(None, 21));
}
