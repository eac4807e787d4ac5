//! What the command line means: sizes, seeds, thread counts, and the
//! privileges that a run will need.

use crate::allocation::{AllocError, AllocOutcome, StopReason};
use crate::events::{self, LogLevel, Notice};
use crate::failure;
use crate::physmem::phys::PhysResolverError;
use crate::physmem::sieve::SieveOutcome;
use crate::units::Units;
use crate::pattern::PatternConfig;
use crate::text::{
    self, chars_of, copy_range, decimal_string, eq_ignoring_case, parse_number, parse_size_number,
    split_lines, string_of, strip_prefix, trim,
};
use vstd::prelude::*;
use vstd::string::StringExecFns;

verus! {

/// Whether the full-screen display is used.
#[derive(Debug, Clone, Copy, PartialEq, Eq, Structural)]
pub enum TuiMode {
    /// When the output is a terminal.
    Auto,
    /// In any case.
    Always,
    /// Not at all.
    Never,
}

/// How live output and results are written.
#[derive(Debug, Clone, Copy, PartialEq, Eq, Structural)]
pub enum OutputFormat {
    /// Text with a results table.
    Table,
    /// A stream of JSON events.
    Json,
}

impl Default for OutputFormat {
    fn default() -> (format: Self)
        ensures
            format == OutputFormat::Table,
    {
        OutputFormat::Table
    }
}

/// Whether output is colored.
#[derive(Debug, Clone, Copy, PartialEq, Eq, Structural)]
pub enum ColorMode {
    /// When the terminal supports it.
    Auto,
    /// In any case.
    Always,
    /// Not at all.
    Never,
}

/// The number of worker threads.
#[derive(Debug, Clone, Copy, PartialEq, Eq, Structural)]
pub enum Parallelism {
    /// One for each core.
    Auto,
    /// Exactly this many.
    Fixed(usize),
}

impl Parallelism {
    /// The number of threads, given how many cores there are; one if that is not
    /// known.
    #[must_use]
    pub fn resolve(self, cores: Option<usize>) -> (n: usize)
        ensures
            n == match self {
                Parallelism::Fixed(n) => n,
                Parallelism::Auto => match cores {
                    Some(n) => n,
                    None => 1,
                },
            },
    {
        match self {
            Parallelism::Fixed(n) => n,
            Parallelism::Auto => match cores {
                Some(n) => n,
                None => 1,
            },
        }
    }
}

/// How many threads `--parallel` asks for, or what is wrong with it.
pub open spec fn parallel_in(s: Seq<char>) -> Result<Parallelism, Seq<char>> {
    if text::same_ignoring_case(s, "auto"@) {
        Ok(Parallelism::Auto)
    } else {
        match text::number_up_to(s, 10, usize::MAX as int) {
            Some(n) => if n == 0 {
                Err("--parallel must be at least 1"@)
            } else {
                Ok(Parallelism::Fixed(n as usize))
            },
            None => Err(
                "invalid --parallel value: "@ + s
                    + " (expected \"auto\" or a positive integer)"@,
            ),
        }
    }
}

/// Read `--parallel`: `auto` or a positive integer.
pub fn parse_parallel(s: &str) -> (r: Result<Parallelism, String>)
    ensures
        r matches Ok(p) ==> parallel_in(s@) == Ok::<Parallelism, Seq<char>>(p),
        r matches Err(e) ==> parallel_in(s@) == Err::<Parallelism, Seq<char>>(e@),
{
    let chars = chars_of(s);
    if eq_ignoring_case(&chars, &chars_of("auto")) {
        return Ok(Parallelism::Auto);
    }
    match parse_size_number(&chars, 10) {
        Some(n) => if n == 0 {
            Err("--parallel must be at least 1".to_owned())
        } else {
            Ok(Parallelism::Fixed(n))
        },
        None => {
            let mut e = String::new();
            e.append("invalid --parallel value: ");
            e.append(s);
            e.append(" (expected \"auto\" or a positive integer)");
            assert(e@ =~= "invalid --parallel value: "@ + s@
                + " (expected \"auto\" or a positive integer)"@);
            Err(e)
        },
    }
}

/// The number that a text stands for: hexadecimal behind a `0x`, decimal
/// otherwise.
pub open spec fn hex_or_decimal(t: Seq<char>) -> Option<int> {
    if text::begins_with(t, "0x"@) || text::begins_with(t, "0X"@) {
        text::number_up_to(t.skip(2), 16, u64::MAX as int)
    } else {
        text::number_up_to(t, 10, u64::MAX as int)
    }
}

/// The seed that `--seed` gives, or what is wrong with it.
pub open spec fn seed_in(s: Seq<char>) -> Result<int, Seq<char>> {
    match hex_or_decimal(text::trimmed(s)) {
        Some(n) => Ok(n),
        None => Err(
            "invalid --seed value: "@ + s + " (expected hex like 0xDEADBEEF or a decimal u64)"@,
        ),
    }
}

/// Read `--seed`: hexadecimal behind a `0x`, or decimal.
pub fn parse_seed(s: &str) -> (r: Result<u64, String>)
    ensures
        r matches Ok(n) ==> seed_in(s@) == Ok::<int, Seq<char>>(n as int),
        r matches Err(e) ==> seed_in(s@) == Err::<int, Seq<char>>(e@),
{
    let t = trim(&chars_of(s));
    proof {
        reveal_strlit("0x");
        reveal_strlit("0X");
    }
    let parsed = match strip_prefix(&t, "0x") {
        Some(digits) => parse_number(&digits, 16),
        None => match strip_prefix(&t, "0X") {
            Some(digits) => parse_number(&digits, 16),
            None => parse_number(&t, 10),
        },
    };
    match parsed {
        Some(n) => Ok(n),
        None => {
            let mut e = String::new();
            e.append("invalid --seed value: ");
            e.append(s);
            e.append(" (expected hex like 0xDEADBEEF or a decimal u64)");
            assert(e@ =~= "invalid --seed value: "@ + s@
                + " (expected hex like 0xDEADBEEF or a decimal u64)"@);
            Err(e)
        },
    }
}

/// The number of rounds that `--random-passes` gives, or what is wrong with it.
pub open spec fn random_passes_in(s: Seq<char>) -> Result<int, Seq<char>> {
    match text::number_up_to(s, 10, usize::MAX as int) {
        Some(n) => if n == 0 {
            Err("--random-passes must be at least 1"@)
        } else {
            Ok(n)
        },
        None => Err("invalid --random-passes value: "@ + s + " (expected a positive integer)"@),
    }
}

/// Read `--random-passes`: a positive integer.
pub fn parse_random_passes(s: &str) -> (r: Result<usize, String>)
    ensures
        r matches Ok(n) ==> random_passes_in(s@) == Ok::<int, Seq<char>>(n as int),
        r matches Err(e) ==> random_passes_in(s@) == Err::<int, Seq<char>>(e@),
{
    match parse_size_number(&chars_of(s), 10) {
        Some(n) => if n == 0 {
            Err("--random-passes must be at least 1".to_owned())
        } else {
            Ok(n)
        },
        None => {
            let mut e = String::new();
            e.append("invalid --random-passes value: ");
            e.append(s);
            e.append(" (expected a positive integer)");
            assert(e@ =~= "invalid --random-passes value: "@ + s@
                + " (expected a positive integer)"@);
            Err(e)
        },
    }
}

/// What the seeded pattern runs with: the seed that was given, or `fresh`.
#[must_use]
pub fn pattern_config(seed: Option<u64>, fresh: u64, random_passes: usize) -> (config: PatternConfig)
    ensures
        config.random_seed == match seed {
            Some(n) => n,
            None => fresh,
        },
        config.random_passes == random_passes,
{
    let random_seed: u64 = match seed {
        Some(n) => n,
        None => fresh,
    };
    PatternConfig { random_seed, random_passes }
}

/// How output is written, after the flags have been weighed against each other.
#[derive(Debug)]
pub struct OutputConfig {
    pub format: OutputFormat,
    /// Where the event stream is saved, if anywhere.
    pub events_file: Option<String>,
    pub color_enabled: bool,
}

/// Weigh the output flags against each other: a JSON stream is never colored,
/// and `auto` follows what the terminal supports.
pub fn resolve_output(
    format: Option<OutputFormat>,
    events_file: Option<String>,
    color: ColorMode,
    terminal_has_color: bool,
) -> (config: OutputConfig)
    ensures
        config.format == match format {
            Some(f) => f,
            None => OutputFormat::Table,
        },
        config.events_file == events_file,
        config.color_enabled == (config.format == OutputFormat::Table && match color {
            ColorMode::Always => true,
            ColorMode::Never => false,
            ColorMode::Auto => terminal_has_color,
        }),
{
    let format = match format {
        Some(f) => f,
        None => OutputFormat::default(),
    };
    let color_enabled = match format {
        OutputFormat::Json => false,
        OutputFormat::Table => match color {
            ColorMode::Always => true,
            ColorMode::Never => false,
            ColorMode::Auto => terminal_has_color,
        },
    };
    OutputConfig { format, events_file, color_enabled }
}

/// How much memory a test is to take.
#[derive(Debug, Clone, Copy, PartialEq, Eq, Structural)]
pub enum SizeSpec {
    /// This many bytes.
    Bytes(usize),
    /// All that there is.
    Max,
}

impl SizeSpec {
    /// The bytes that will be asked for at most, given the memory of the machine
    /// if it is known.
    #[must_use]
    pub fn bytes_estimate(self, mem_total: Option<u64>) -> (n: usize)
        ensures
            n == match self {
                SizeSpec::Bytes(n) => n,
                SizeSpec::Max => match mem_total {
                    Some(total) => total as usize,
                    None => usize::MAX,
                },
            },
    {
        match self {
            SizeSpec::Bytes(n) => n,
            SizeSpec::Max => match mem_total {
                Some(total) => total as usize,
                None => usize::MAX,
            },
        }
    }

    /// The bytes to ask for, given the memory of the machine if it is known; an
    /// error when all of it is wanted and it is not known.
    pub fn resolve(self, mem_total: Option<u64>) -> (r: Result<usize, &'static str>)
        ensures
            r is Err <==> self == SizeSpec::Max && mem_total is None,
            r matches Ok(n) ==> n == match self {
                SizeSpec::Bytes(n) => n,
                SizeSpec::Max => mem_total->0 as usize,
            },
            r matches Err(e) ==> e@ == "cannot resolve --size max: /proc/meminfo is unreadable"@,
    {
        match self {
            SizeSpec::Bytes(n) => Ok(n),
            SizeSpec::Max => match mem_total {
                Some(total) => Ok(total as usize),
                None => Err("cannot resolve --size max: /proc/meminfo is unreadable"),
            },
        }
    }
}

/// How many bytes the unit at the end of a text stands for; one without a unit.
pub open spec fn unit_of(t: Seq<char>) -> int {
    if t.len() == 0 {
        1
    } else if t.last() == 'G' || t.last() == 'g' {
        1_073_741_824
    } else if t.last() == 'M' || t.last() == 'm' {
        1_048_576
    } else if t.last() == 'K' || t.last() == 'k' {
        1024
    } else {
        1
    }
}

/// The size that a text gives, or what is wrong with it.
pub open spec fn size_in(s: Seq<char>) -> Result<int, Seq<char>> {
    let t = text::trimmed(s);
    let unit = unit_of(t);
    let body = if unit > 1 {
        t.drop_last()
    } else {
        t
    };
    match text::number_up_to(body, 10, usize::MAX as int) {
        Some(n) => if n * unit > usize::MAX {
            Err("size overflow: "@ + t)
        } else {
            Ok(n * unit)
        },
        None => Err("invalid size: "@ + t),
    }
}

/// Read a size: an integer, with a unit of `K`, `M` or `G` behind it or none.
pub fn parse_size(s: &str) -> (r: Result<usize, String>)
    ensures
        r matches Ok(n) ==> size_in(s@) == Ok::<int, Seq<char>>(n as int),
        r matches Err(e) ==> size_in(s@) == Err::<int, Seq<char>>(e@),
{
    let t = trim(&chars_of(s));
    let unit: usize = if t.len() == 0 {
        1
    } else {
        let last = t[t.len() - 1];
        if last == 'G' || last == 'g' {
            1_073_741_824
        } else if last == 'M' || last == 'm' {
            1_048_576
        } else if last == 'K' || last == 'k' {
            1024
        } else {
            1
        }
    };
    let end: usize = if unit > 1 {
        t.len() - 1
    } else {
        t.len()
    };
    let body = copy_range(&t, 0, end);
    assert(body@ =~= if unit > 1 {
        t@.drop_last()
    } else {
        t@
    });
    match parse_size_number(&body, 10) {
        Some(n) => match n.checked_mul(unit) {
            Some(size) => Ok(size),
            None => {
                let mut e = String::new();
                e.append("size overflow: ");
                e.append(&string_of(&t));
                assert(e@ =~= "size overflow: "@ + t@);
                Err(e)
            },
        },
        None => {
            let mut e = String::new();
            e.append("invalid size: ");
            e.append(&string_of(&t));
            assert(e@ =~= "invalid size: "@ + t@);
            Err(e)
        },
    }
}

/// Read `--size`: a size, or `max`.
pub fn parse_size_spec(s: &str) -> (r: Result<SizeSpec, String>)
    ensures
        text::same_ignoring_case(text::trimmed(s@), "max"@) ==> r == Ok::<SizeSpec, String>(
            SizeSpec::Max,
        ),
        !text::same_ignoring_case(text::trimmed(s@), "max"@) ==> match r {
            Ok(SizeSpec::Bytes(n)) => size_in(s@) == Ok::<int, Seq<char>>(n as int),
            Ok(SizeSpec::Max) => false,
            Err(e) => size_in(s@) == Err::<int, Seq<char>>(e@),
        },
{
    if eq_ignoring_case(&trim(&chars_of(s)), &chars_of("max")) {
        return Ok(SizeSpec::Max);
    }
    match parse_size(s) {
        Ok(n) => Ok(SizeSpec::Bytes(n)),
        Err(e) => Err(e),
    }
}

/// What the operator should know about missing privileges.
#[derive(Debug, PartialEq, Eq)]
pub enum PrivilegeWarning {
    /// Physical addresses cannot be read.
    NoSysAdmin,
    /// Less memory may be locked than was asked for.
    MlockLimitExceeded { soft: u64, requested: u64 },
    /// The limit could not be read.
    MlockQueryFailed(String),
}

/// A privilege warning, with its text as a sequence of characters.
pub enum WarningView {
    NoSysAdmin,
    MlockLimitExceeded { soft: int, requested: int },
    MlockQueryFailed(Seq<char>),
}

impl View for PrivilegeWarning {
    type V = WarningView;

    open spec fn view(&self) -> WarningView {
        match *self {
            PrivilegeWarning::NoSysAdmin => WarningView::NoSysAdmin,
            PrivilegeWarning::MlockLimitExceeded { soft, requested } =>
                WarningView::MlockLimitExceeded { soft: soft as int, requested: requested as int },
            PrivilegeWarning::MlockQueryFailed(e) => WarningView::MlockQueryFailed(e@),
        }
    }
}

impl PrivilegeWarning {
    /// The warning in words.
    pub open spec fn shown(&self) -> Seq<char> {
        match self@ {
            WarningView::NoSysAdmin =>
                "CAP_SYS_ADMIN not detected -- physical addresses will be unavailable. Run as root (sudo ferrite) or grant the capability (sudo setcap cap_sys_admin+ep $(which ferrite))"@,
            WarningView::MlockLimitExceeded { soft, requested } => "RLIMIT_MEMLOCK is "@
                + text::decimal(soft) + " bytes, but "@ + text::decimal(requested)
                + " bytes requested. mlock will likely fail. Run as root (sudo ferrite), raise the limit (ulimit -l unlimited), or grant the capability (sudo setcap cap_ipc_lock+ep $(which ferrite))"@,
            WarningView::MlockQueryFailed(e) => "could not query RLIMIT_MEMLOCK: "@ + e,
        }
    }

    /// The warning in words.
    pub fn to_string(&self) -> (s: String)
        ensures
            s@ == self.shown(),
    {
        let mut s = String::new();
        match self {
            PrivilegeWarning::NoSysAdmin => {
                s.append(
                    "CAP_SYS_ADMIN not detected -- physical addresses will be unavailable. Run as root (sudo ferrite) or grant the capability (sudo setcap cap_sys_admin+ep $(which ferrite))",
                );
            },
            PrivilegeWarning::MlockLimitExceeded { soft, requested } => {
                s.append("RLIMIT_MEMLOCK is ");
                s.append(&decimal_string(*soft));
                s.append(" bytes, but ");
                s.append(&decimal_string(*requested));
                s.append(
                    " bytes requested. mlock will likely fail. Run as root (sudo ferrite), raise the limit (ulimit -l unlimited), or grant the capability (sudo setcap cap_ipc_lock+ep $(which ferrite))",
                );
            },
            PrivilegeWarning::MlockQueryFailed(e) => {
                s.append("could not query RLIMIT_MEMLOCK: ");
                s.append(e);
            },
        }
        assert(s@ =~= self.shown());
        s
    }
}

/// What a list of warnings says.
pub open spec fn warning_views(warnings: Seq<PrivilegeWarning>) -> Seq<WarningView> {
    Seq::new(warnings.len(), |i: int| warnings[i]@)
}

/// The privileges of the process, and what it is about to do.
pub struct PrivilegeContext {
    pub is_root: bool,
    pub has_ipc_lock: bool,
    pub has_sys_admin: bool,
    pub need_phys: bool,
    /// How many bytes may be locked, or why that could not be read.
    pub memlock_result: Result<u64, String>,
    pub requested_bytes: usize,
}

impl PrivilegeContext {
    /// The warning about reading physical addresses, if it is due.
    pub open spec fn address_warning(&self) -> Seq<WarningView> {
        if self.need_phys && !self.is_root && !self.has_sys_admin {
            seq![WarningView::NoSysAdmin]
        } else {
            seq![]
        }
    }

    /// The warning about locking memory, if it is due.
    pub open spec fn lock_warning(&self) -> Seq<WarningView> {
        if self.is_root || self.has_ipc_lock {
            seq![]
        } else {
            match self.memlock_result {
                Ok(soft) => if soft != u64::MAX && self.requested_bytes > soft {
                    seq![
                        WarningView::MlockLimitExceeded {
                            soft: soft as int,
                            requested: self.requested_bytes as int,
                        },
                    ]
                } else {
                    seq![]
                },
                Err(e) => seq![WarningView::MlockQueryFailed(e@)],
            }
        }
    }

    /// The warnings that apply.
    pub fn warnings(&self) -> (warnings: Vec<PrivilegeWarning>)
        ensures
            warning_views(warnings@) == self.address_warning() + self.lock_warning(),
    {
        let mut out: Vec<PrivilegeWarning> = Vec::new();
        if self.need_phys && !self.is_root && !self.has_sys_admin {
            out.push(PrivilegeWarning::NoSysAdmin);
        }
        assert(warning_views(out@) =~= self.address_warning());
        if !(self.is_root || self.has_ipc_lock) {
            match &self.memlock_result {
                Ok(soft) => {
                    if *soft != u64::MAX && (self.requested_bytes as u64) > *soft {
                        out.push(
                            PrivilegeWarning::MlockLimitExceeded {
                                soft: *soft,
                                requested: self.requested_bytes as u64,
                            },
                        );
                    }
                },
                Err(e) => {
                    out.push(PrivilegeWarning::MlockQueryFailed(string_of(&chars_of(e))));
                },
            }
        }
        assert(warning_views(out@) =~= self.address_warning() + self.lock_warning());
        out
    }
}

/// What several warnings read.
pub open spec fn warning_texts(warnings: Seq<PrivilegeWarning>) -> Seq<Seq<char>> {
    Seq::new(warnings.len(), |i: int| warnings[i].shown())
}

/// The warnings about missing privileges, in words.
pub fn check_privileges(context: &PrivilegeContext) -> (texts: Vec<String>)
    ensures
        exists|warnings: Seq<PrivilegeWarning>| #[trigger]
            warning_views(warnings) == context.address_warning() + context.lock_warning()
                && text::string_texts(texts@) == warning_texts(warnings),
{
    let warnings = context.warnings();
    let mut texts: Vec<String> = Vec::new();
    let mut i: usize = 0;
    while i < warnings.len()
        invariant
            i <= warnings@.len(),
            texts@.len() == i,
            forall|k: int| 0 <= k < i ==> (#[trigger] texts@[k])@ == warnings@[k].shown(),
        decreases warnings@.len() - i,
    {
        texts.push(warnings[i].to_string());
        i = i + 1;
    }
    assert(text::string_texts(texts@) =~= warning_texts(warnings@));
    texts
}

/// The effective capabilities that a line gives, if it does.
pub open spec fn capabilities_in(line: Seq<char>) -> Option<int> {
    if text::begins_with(line, "CapEff:\t"@) {
        text::number_up_to(
            text::trimmed(line.skip("CapEff:\t"@.len() as int)),
            16,
            u64::MAX as int,
        )
    } else {
        None
    }
}

/// The effective capabilities that the first line to do so gives, from `from` on.
pub open spec fn first_capabilities(lines: Seq<Seq<char>>, from: int) -> Option<int>
    decreases lines.len() - from,
{
    if from >= lines.len() {
        None
    } else {
        match capabilities_in(lines[from]) {
            Some(bits) => Some(bits),
            None => first_capabilities(lines, from + 1),
        }
    }
}

/// Whether a process whose status reads so has the given capability.
pub fn parse_capability_from_status(status: &str, cap_bit: u32) -> (has: bool)
    requires
        cap_bit < 64,
    ensures
        has == match first_capabilities(text::lines_of(status@), 0) {
            Some(bits) => failure::bit(bits as u64, cap_bit as int),
            None => false,
        },
{
    let lines = split_lines(&chars_of(status));
    let ghost all = text::lines_of(status@);
    let mut i: usize = 0;
    while i < lines.len()
        invariant
            i <= lines@.len(),
            cap_bit < 64,
            text::texts(lines@) == all,
            all == text::lines_of(status@),
            first_capabilities(all, 0) == first_capabilities(all, i as int),
        decreases lines@.len() - i,
    {
        assert(all[i as int] == lines@[i as int]@);
        if let Some(rest) = strip_prefix(&lines[i], "CapEff:\t") {
            if let Some(bits) = parse_number(&trim(&rest), 16) {
                return (bits >> cap_bit) & 1 == 1;
            }
        }
        i = i + 1;
    }
    false
}

/// Whether this process has the given capability, by its status; not if that cannot
/// be read.
pub fn has_capability(status: Option<&str>, cap_bit: u32) -> (has: bool)
    requires
        cap_bit < 64,
    ensures
        has == match status {
            Some(s) => match first_capabilities(text::lines_of(s@), 0) {
                Some(bits) => failure::bit(bits as u64, cap_bit as int),
                None => false,
            },
            None => false,
        },
{
    match status {
        Some(s) => parse_capability_from_status(s, cap_bit),
        None => false,
    }
}

/// Whether a failed allocation means that everything within reach has been
/// tested: the sieve holds back what is covered, and nothing else is left.
pub fn is_cull_ceiling(sieve_active: bool, err: &AllocError) -> (ceiling: bool)
    ensures
        ceiling == (sieve_active && *err is Exhausted),
{
    sieve_active && matches!(err, AllocError::Exhausted { .. })
}

/// What is said of an allocation that met less than was asked for.
pub open spec fn outcome_text<U: Units>(units: U, outcome: AllocOutcome) -> Seq<char> {
    let head = "locked "@ + units.size_text(outcome.achieved as u64) + " of "@ + units.size_text(
        outcome.requested as u64,
    ) + " requested ("@;
    match outcome.stop {
        StopReason::Completed => Seq::empty(),
        StopReason::HeadroomFloor { available } => head + "stopped at headroom floor, "@
            + units.size_text(available) + " available)"@,
        StopReason::ChunkFailed(e) => head + "chunk activation failed: "@ + e.shown() + ")"@,
    }
}

/// What to tell the operator of an allocation: nothing if all was met. Stopping at
/// the floor is what a request for everything expects, and a warning otherwise.
pub fn report_alloc_outcome<U: Units>(units: &U, outcome: &AllocOutcome, size: SizeSpec) -> (
    notice: Option<Notice>)
    ensures
        notice is None <==> outcome.stop is Completed,
        notice matches Some(n) ==> n@ == (
            if outcome.stop is HeadroomFloor && size == SizeSpec::Max {
                LogLevel::Info
            } else {
                LogLevel::Warn
            },
            outcome_text(*units, *outcome),
        ),
{
    let mut s = String::new();
    s.append("locked ");
    s.append(&units.size(outcome.achieved as u64));
    s.append(" of ");
    s.append(&units.size(outcome.requested as u64));
    s.append(" requested (");
    match &outcome.stop {
        StopReason::Completed => None,
        StopReason::HeadroomFloor { available } => {
            s.append("stopped at headroom floor, ");
            s.append(&units.size(*available));
            s.append(" available)");
            assert(s@ =~= outcome_text(*units, *outcome));
            let level = match size {
                SizeSpec::Max => LogLevel::Info,
                SizeSpec::Bytes(_) => LogLevel::Warn,
            };
            Some(Notice { level, text: s })
        },
        StopReason::ChunkFailed(e) => {
            s.append("chunk activation failed: ");
            s.append(&e.to_string());
            s.append(")");
            assert(s@ =~= outcome_text(*units, *outcome));
            Some(Notice { level: LogLevel::Warn, text: s })
        },
    }
}

/// What is said of a sweep for covered frames.
pub open spec fn sieve_text<U: Units>(units: U, outcome: SieveOutcome) -> Seq<char> {
    "sieve: swept "@ + units.size_text(outcome.swept as u64) + ", holding "@ + units.size_text(
        outcome.held as u64,
    ) + " previously-covered memory hostage, released "@ + units.size_text(
        outcome.released as u64,
    ) + " for the test buffer"@
}

/// What to tell the operator of a sweep for covered frames.
pub fn report_sieve<U: Units>(units: &U, outcome: &SieveOutcome) -> (notice: Notice)
    ensures
        notice@ == (LogLevel::Info, sieve_text(*units, *outcome)),
{
    let mut s = String::new();
    s.append("sieve: swept ");
    s.append(&units.size(outcome.swept as u64));
    s.append(", holding ");
    s.append(&units.size(outcome.held as u64));
    s.append(" previously-covered memory hostage, released ");
    s.append(&units.size(outcome.released as u64));
    s.append(" for the test buffer");
    assert(s@ =~= sieve_text(*units, *outcome));
    Notice { level: LogLevel::Info, text: s }
}

/// What to tell the operator when addresses cannot be resolved: a missing
/// privilege comes with advice, and a system without the interface is no fault.
pub fn report_resolver_error(error: &PhysResolverError) -> (notices: Vec<Notice>)
    ensures
        notice_views_of(*error) == events::notice_views(notices@),
{
    let mut notices: Vec<Notice> = Vec::new();
    match error {
        PhysResolverError::PermissionDenied { source } => {
            notices.push(Notice { level: LogLevel::Warn, text: source.to_string() });
            notices.push(
                Notice {
                    level: LogLevel::Warn,
                    text: "run as root or grant the capability: sudo setcap cap_sys_admin+ep $(which ferrite)".to_owned(),
                },
            );
        },
        PhysResolverError::Unavailable { source } => {
            notices.push(Notice { level: LogLevel::Info, text: source.to_string() });
        },
        PhysResolverError::ReadError { source } => {
            notices.push(Notice { level: LogLevel::Warn, text: source.to_string() });
        },
    }
    assert(events::notice_views(notices@) =~= notice_views_of(*error));
    notices
}

/// What is said when addresses cannot be resolved.
pub open spec fn notice_views_of(error: PhysResolverError) -> Seq<(LogLevel, Seq<char>)> {
    match error {
        PhysResolverError::PermissionDenied { source } => seq![
            (LogLevel::Warn, source.shown()),
            (
                LogLevel::Warn,
                "run as root or grant the capability: sudo setcap cap_sys_admin+ep $(which ferrite)"@,
            ),
        ],
        PhysResolverError::Unavailable { source } => seq![(LogLevel::Info, source.shown())],
        PhysResolverError::ReadError { source } => seq![(LogLevel::Warn, source.shown())],
    }
}

/// A size that is written with a unit reads back as that many units.
pub proof fn law_written_size_reads_back(n: int, suffix: char)
    requires
        n >= 0,
        suffix == 'K' || suffix == 'M' || suffix == 'G',
        n * unit_of(seq![suffix]) <= usize::MAX,
    ensures
        size_in(text::decimal(n).push(suffix)) == Ok::<int, Seq<char>>(
            n * unit_of(seq![suffix]),
        ),
{
    let unit = unit_of(seq![suffix]);
    let t = text::decimal(n).push(suffix);
    lemma_number_reads_back(n);
    text::lemma_trimmed_whole(t);
    assert(t.drop_last() =~= text::decimal(n));
    assert(n <= n * unit) by (nonlinear_arith)
        requires
            n >= 0,
            unit >= 1,
    ;
}

/// A size that is written as a plain number reads back as itself.
pub proof fn law_written_number_reads_back(n: int)
    requires
        0 <= n <= usize::MAX,
    ensures
        size_in(text::decimal(n)) == Ok::<int, Seq<char>>(n),
{
    lemma_number_reads_back(n);
    let t = text::decimal(n);
    text::lemma_trimmed_whole(t);
    assert(n * 1 == n);
}

/// Decimal digits stand for the number that they were made of.
proof fn lemma_number_reads_back(n: int)
    requires
        n >= 0,
    ensures
        text::number_in(text::decimal(n), 10) == Some(n),
        text::decimal(n).len() > 0,
        forall|i: int| 0 <= i < text::decimal(n).len() ==> 48 <= #[trigger] text::decimal(n)[i] as int
            <= 57,
{
    text::law_digits_read_back(n, 10);
    text::lemma_decimal_digits(n);
}

/// A size with a unit is so many times 1024 bytes, 1024 times that, or 1024 times that
/// again, with a letter of either case; it is refused exactly if it cannot be represented.
pub proof fn law_units_are_binary(n: int, suffix: char)
    requires
        0 <= n <= usize::MAX,
    ensures
        suffix == 'K' || suffix == 'k' ==> (size_in(text::decimal(n).push(suffix)) is Ok <==> n
            * 1024 <= usize::MAX) && (size_in(text::decimal(n).push(suffix)) matches Ok(size) ==> size
            == n * 1024),
        suffix == 'M' || suffix == 'm' ==> (size_in(text::decimal(n).push(suffix)) is Ok <==> n
            * 1_048_576 <= usize::MAX) && (size_in(text::decimal(n).push(suffix)) matches Ok(size)
            ==> size == n * 1_048_576),
        suffix == 'G' || suffix == 'g' ==> (size_in(text::decimal(n).push(suffix)) is Ok <==> n
            * 1_073_741_824 <= usize::MAX) && (size_in(text::decimal(n).push(suffix)) matches Ok(
            size,
        ) ==> size == n * 1_073_741_824),
{
    lemma_number_reads_back(n);
    let t = text::decimal(n).push(suffix);
    assert(t.drop_last() =~= text::decimal(n));
    assert(48 <= text::decimal(n)[0] as int <= 57);
    assert(t[0] == text::decimal(n)[0]);
    if suffix == 'K' || suffix == 'k' || suffix == 'M' || suffix == 'm' || suffix == 'G' || suffix
        == 'g' {
        text::lemma_trimmed_whole(t);
    }
}

/// A number of threads that is written in decimal reads back as itself, and zero is refused;
/// `auto` asks for one per core.
pub proof fn law_written_parallelism_reads_back(n: int)
    requires
        0 <= n <= usize::MAX,
    ensures
        n > 0 ==> parallel_in(text::decimal(n)) == Ok::<Parallelism, Seq<char>>(
            Parallelism::Fixed(n as usize),
        ),
        n == 0 ==> parallel_in(text::decimal(n)) is Err,
        parallel_in("auto"@) == Ok::<Parallelism, Seq<char>>(Parallelism::Auto),
        parallel_in("AUTO"@) == Ok::<Parallelism, Seq<char>>(Parallelism::Auto),
{
    reveal_strlit("auto");
    reveal_strlit("AUTO");
    lemma_number_reads_back(n);
    let s = text::decimal(n);
    assert(48 <= s[0] as int <= 57);
    assert(text::lower_char(s[0]) == s[0]);
    assert(text::lower_char("auto"@[0]) == 'a');
    assert(!text::same_ignoring_case(s, "auto"@));
    assert(text::same_ignoring_case("auto"@, "auto"@));
    assert(text::same_ignoring_case("AUTO"@, "auto"@));
}

/// A seed reads back as itself, written in decimal or, behind `0x`, in hexadecimal.
pub proof fn law_written_seed_reads_back(n: u64)
    ensures
        seed_in(text::decimal(n as int)) == Ok::<int, Seq<char>>(n as int),
        seed_in("0x"@ + text::hex(n as int)) == Ok::<int, Seq<char>>(n as int),
{
    reveal_strlit("0x");
    reveal_strlit("0X");
    lemma_number_reads_back(n as int);
    let s = text::decimal(n as int);
    assert(48 <= s[0] as int <= 57);
    assert(48 <= s[s.len() - 1] as int <= 57);
    text::lemma_trimmed_whole(s);
    if s.len() >= 2 {
        assert(48 <= s[1] as int <= 57);
        assert(s.take(2)[1] != "0x"@[1]);
        assert(s.take(2)[1] != "0X"@[1]);
    }
    crate::physmem::law_hex_reads_back(n, true);
    let h = "0x"@ + text::hex(n as int);
    assert(h.take(2) =~= "0x"@);
    assert(h.skip(2) =~= text::hex(n as int));
    assert(seed_in(h) == Ok::<int, Seq<char>>(n as int)) by {
        text::lemma_hex_digits(n as int);
        text::law_digits_read_back(n as int, 16);
        assert(48 <= text::hex(n as int)[0] as int <= 57 || 97 <= text::hex(n as int)[0] as int
            <= 102);
    }
}

/// A number of rounds that is written in decimal reads back as itself, and zero is refused.
pub proof fn law_written_rounds_read_back(n: int)
    requires
        0 <= n <= usize::MAX,
    ensures
        random_passes_in(text::decimal(n)) is Ok <==> n > 0,
        n > 0 ==> random_passes_in(text::decimal(n)) == Ok::<int, Seq<char>>(n),
{
    lemma_number_reads_back(n);
}

/// The capabilities that a status tells are the number on their line, in hexadecimal.
pub proof fn law_capabilities_read_back(bits: u64)
    ensures
        capabilities_in("CapEff:\t"@ + text::hex16(bits as int)) == Some(bits as int),
{
    reveal_strlit("CapEff:\t");
    text::law_hex16_reads_back(bits);
    text::lemma_hex16_digits(bits);
    let s = text::hex16(bits as int);
    let line = "CapEff:\t"@ + s;
    assert(line.take(8) =~= "CapEff:\t"@);
    assert(line.skip(8) =~= s);
    assert(48 <= s[0] as int <= 57 || 97 <= s[0] as int <= 102);
    assert(48 <= s[15] as int <= 57 || 97 <= s[15] as int <= 102);
    text::lemma_trimmed_whole(s);
}

/// A privileged process is not warned. Another is warned about addresses if it needs them,
/// and about locking exactly if it asks for more than the limit, or if the limit is not
/// known; no limit at all is never exceeded.
pub proof fn law_warnings_follow_the_privileges(context: PrivilegeContext, soft: u64)
    ensures
        context.is_root ==> context.address_warning().len() == 0 && context.lock_warning().len()
            == 0,
        context.has_sys_admin || !context.need_phys ==> context.address_warning().len() == 0,
        context.need_phys && !context.is_root && !context.has_sys_admin
            ==> context.address_warning() == seq![WarningView::NoSysAdmin],
        context.has_ipc_lock ==> context.lock_warning().len() == 0,
        !context.is_root && !context.has_ipc_lock && context.memlock_result is Err
            ==> context.lock_warning().len() == 1,
        !context.is_root && !context.has_ipc_lock && (context.memlock_result matches Ok(limit)
            && limit == soft) ==> {
            &&& context.requested_bytes <= soft ==> context.lock_warning().len() == 0
            &&& soft == u64::MAX ==> context.lock_warning().len() == 0
            &&& context.requested_bytes > soft && soft < u64::MAX ==> context.lock_warning()
                == seq![
                WarningView::MlockLimitExceeded {
                    soft: soft as int,
                    requested: context.requested_bytes as int,
                },
            ]
        },
{
}

/// The capabilities are those of the first line that gives any.
pub proof fn law_first_capabilities_count(lines: Seq<Seq<char>>, from: int, at: int)
    requires
        0 <= from <= at < lines.len(),
        forall|i: int| from <= i < at ==> capabilities_in(#[trigger] lines[i]) is None,
        capabilities_in(lines[at]) is Some,
    ensures
        first_capabilities(lines, from) == capabilities_in(lines[at]),
    decreases at - from,
{
    if from < at {
        assert(capabilities_in(lines[from]) is None);
        law_first_capabilities_count(lines, from + 1, at);
    }
}

/// What is said of an allocation tells how much was locked, how much was asked for, and
/// why it stopped.
pub proof fn law_outcome_text_tells_the_outcome<U: Units>(units: U, outcome: AllocOutcome)
    ensures
        !(outcome.stop is Completed) ==> text::holds_text(
            outcome_text(units, outcome),
            "locked "@ + units.size_text(outcome.achieved as u64),
        ),
        !(outcome.stop is Completed) ==> text::holds_text(
            outcome_text(units, outcome),
            " of "@ + units.size_text(outcome.requested as u64) + " requested ("@,
        ),
        outcome.stop matches StopReason::HeadroomFloor { available } ==> text::holds_text(
            outcome_text(units, outcome),
            units.size_text(available) + " available)"@,
        ),
        outcome.stop matches StopReason::ChunkFailed(e) ==> text::holds_text(
            outcome_text(units, outcome),
            e.shown(),
        ),
{
    let none = Seq::<char>::empty();
    let met = units.size_text(outcome.achieved as u64);
    let asked = units.size_text(outcome.requested as u64);
    let l0 = "locked "@ + met;
    let head = l0 + " of "@ + asked + " requested ("@;
    text::lemma_text_grows(l0, " of "@);
    text::lemma_text_grows(l0 + " of "@, asked);
    text::lemma_text_grows(l0 + " of "@ + asked, " requested ("@);
    text::lemma_holds_pieces(l0, " of "@, asked, " requested ("@);
    match outcome.stop {
        StopReason::Completed => {},
        StopReason::HeadroomFloor { available } => {
            let why = "stopped at headroom floor, "@;
            let left = units.size_text(available);
            text::lemma_text_grows(head, why);
            text::lemma_text_grows(head + why, left);
            text::lemma_text_grows(head + why + left, " available)"@);
            text::lemma_holds_pieces(head + why, left, " available)"@, none);
        },
        StopReason::ChunkFailed(e) => {
            let why = "chunk activation failed: "@;
            text::lemma_text_grows(head, why);
            text::lemma_text_grows(head + why, e.shown());
            text::lemma_text_grows(head + why + e.shown(), ")"@);
        },
    }
}

/// What is said of a sweep tells how much was swept, held and released.
pub proof fn law_sieve_text_tells_the_outcome<U: Units>(units: U, outcome: SieveOutcome)
    ensures
        text::holds_text(
            sieve_text(units, outcome),
            "sieve: swept "@ + units.size_text(outcome.swept as u64),
        ),
        text::holds_text(
            sieve_text(units, outcome),
            ", holding "@ + units.size_text(outcome.held as u64),
        ),
        text::holds_text(
            sieve_text(units, outcome),
            " previously-covered memory hostage, released "@ + units.size_text(
                outcome.released as u64,
            ) + " for the test buffer"@,
        ),
{
    let none = Seq::<char>::empty();
    let held = units.size_text(outcome.held as u64);
    let released = units.size_text(outcome.released as u64);
    let l0 = "sieve: swept "@ + units.size_text(outcome.swept as u64);
    let l1 = l0 + ", holding "@ + held;
    let what = " previously-covered memory hostage, released "@;
    text::lemma_text_grows(l0, ", holding "@);
    text::lemma_text_grows(l0 + ", holding "@, held);
    text::lemma_holds_pieces(l0, ", holding "@, held, none);
    text::lemma_text_grows(l1, what);
    text::lemma_text_grows(l1 + what, released);
    text::lemma_text_grows(l1 + what + released, " for the test buffer"@);
    text::lemma_holds_pieces(l1, what, released, " for the test buffer"@);
}

/// Blanks around a size or a seed do not matter.
pub proof fn law_blanks_around_do_not_matter(s: Seq<char>, other: Seq<char>)
    requires
        text::trimmed(s) == text::trimmed(other),
    ensures
        size_in(s) == size_in(other),
        seed_in(s) is Ok <==> seed_in(other) is Ok,
        seed_in(s) matches Ok(n) ==> seed_in(other) == Ok::<int, Seq<char>>(n),
{
}

/// Hexadecimal numbers are marked by `0x` or `0X` alike, and read without the mark; any
/// other number is decimal.
pub proof fn law_hex_marks_are_alike(t: Seq<char>)
    ensures
        hex_or_decimal("0x"@ + t) == text::number_up_to(t, 16, u64::MAX as int),
        hex_or_decimal("0X"@ + t) == text::number_up_to(t, 16, u64::MAX as int),
        crate::physmem::hex_in("0x"@ + t, true) == crate::physmem::hex_in(t, false),
        crate::physmem::hex_in("0X"@ + t, true) == crate::physmem::hex_in(t, false),
        !text::begins_with(t, "0x"@) && !text::begins_with(t, "0X"@) ==> hex_or_decimal(t)
            == text::number_up_to(t, 10, u64::MAX as int),
{
    reveal_strlit("0x");
    reveal_strlit("0X");
    let low = "0x"@ + t;
    let high = "0X"@ + t;
    assert(low.take(2) =~= "0x"@);
    assert(low.skip(2) =~= t);
    assert(high.take(2) =~= "0X"@);
    assert(high.skip(2) =~= t);
}

/// The warning about the limit tells the limit and what was asked for; the one about a
/// failed query tells why it failed.
pub proof fn law_warning_tells_the_limit(warning: PrivilegeWarning)
    ensures
        warning matches PrivilegeWarning::MlockLimitExceeded { soft, requested } ==> {
            &&& text::holds_text(
                warning.shown(),
                "RLIMIT_MEMLOCK is "@ + text::decimal(soft as int),
            )
            &&& text::holds_text(
                warning.shown(),
                " bytes, but "@ + text::decimal(requested as int),
            )
        },
        warning matches PrivilegeWarning::MlockQueryFailed(e) ==> text::holds_text(
            warning.shown(),
            e@,
        ),
{
    match warning {
        PrivilegeWarning::NoSysAdmin => {},
        PrivilegeWarning::MlockLimitExceeded { soft, requested } => {
            let none = Seq::<char>::empty();
            let l0 = "RLIMIT_MEMLOCK is "@ + text::decimal(soft as int);
            let asked = text::decimal(requested as int);
            let advice =
                " bytes requested. mlock will likely fail. Run as root (sudo ferrite), raise the limit (ulimit -l unlimited), or grant the capability (sudo setcap cap_ipc_lock+ep $(which ferrite))"@;
            text::lemma_text_grows(l0, " bytes, but "@);
            text::lemma_text_grows(l0 + " bytes, but "@, asked);
            text::lemma_holds_pieces(l0, " bytes, but "@, asked, none);
            text::lemma_text_grows(l0 + " bytes, but "@ + asked, advice);
        },
        PrivilegeWarning::MlockQueryFailed(e) => {
            text::lemma_text_grows("could not query RLIMIT_MEMLOCK: "@, e@);
        },
    }
}

} // verus!
