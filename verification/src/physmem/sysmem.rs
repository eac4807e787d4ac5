//! How much memory is installed, and how much of it was tested.

use crate::physmem::gap::GapReport;
use crate::physmem::parse_hex_range;
use crate::physmem::phys::MapStats;
use crate::physmem::PAGE_BYTES;
use crate::text::{
    self, chars_of, parse_number, same_chars, split_lines, split_once, split_words, string_of,
    strip_prefix, trim,
};
use vstd::prelude::*;

verus! {

/// Where the number of installed bytes comes from.
#[derive(Debug, Clone, Copy, PartialEq, Eq, Structural)]
pub enum RamSource {
    /// The kernel's map of physical memory.
    ProcIomem,
    /// The kernel's own total, which leaves out what it keeps for itself.
    MemTotal,
}

/// What was covered over several runs.
#[derive(Debug, Clone, Copy, PartialEq, Eq, Structural)]
pub struct Cumulative {
    /// Bytes that no run before had covered.
    pub new_bytes: u64,
    /// Bytes that some run covered.
    pub cumulative_bytes: u64,
    /// How many runs there were.
    pub runs: u64,
}

/// How much of the installed memory a run tested.
#[derive(Debug, Clone, Copy, PartialEq, Eq, Structural)]
pub enum Coverage {
    Measured {
        tested_bytes: u64,
        total_bytes: u64,
        source: RamSource,
        cumulative: Option<Cumulative>,
        gap: Option<GapReport>,
    },
    /// Physical addresses could not be resolved.
    Unavailable,
}

impl Coverage {
    /// The same coverage with what was covered over several runs.
    pub open spec fn with_cumulative(self, c: Cumulative) -> Coverage {
        match self {
            Coverage::Measured { tested_bytes, total_bytes, source, gap, .. } => Coverage::Measured {
                tested_bytes,
                total_bytes,
                source,
                cumulative: Some(c),
                gap,
            },
            Coverage::Unavailable => Coverage::Unavailable,
        }
    }

    /// The same coverage with what the untested memory is.
    pub open spec fn with_gap(self, report: GapReport) -> Coverage {
        match self {
            Coverage::Measured { tested_bytes, total_bytes, source, cumulative, .. } =>
                Coverage::Measured {
                tested_bytes,
                total_bytes,
                source,
                cumulative,
                gap: Some(report),
            },
            Coverage::Unavailable => Coverage::Unavailable,
        }
    }

    /// Add what was covered over several runs. Without a measurement there is
    /// nothing to add it to.
    pub fn attach_cumulative(&mut self, c: Cumulative)
        ensures
            *final(self) == old(self).with_cumulative(c),
    {
        if let Coverage::Measured { tested_bytes, total_bytes, source, gap, .. } = *self {
            *self = Coverage::Measured { tested_bytes, total_bytes, source, cumulative: Some(c), gap };
        }
    }

    /// Add what the untested memory is. Without a measurement there is nothing to
    /// add it to.
    pub fn attach_gap(&mut self, report: GapReport)
        ensures
            *final(self) == old(self).with_gap(report),
    {
        if let Coverage::Measured { tested_bytes, total_bytes, source, cumulative, .. } = *self {
            *self = Coverage::Measured {
                tested_bytes,
                total_bytes,
                source,
                cumulative,
                gap: Some(report),
            };
        }
    }
}

/// The range of System RAM that a line of the kernel's map gives, if it does.
pub open spec fn ram_in(line: Seq<char>) -> Option<(int, int)> {
    match text::split_at_first(line, ':') {
        Some((range, name)) => if text::trimmed(name) == "System RAM"@ {
            crate::physmem::hex_range_in(text::trimmed(range), false)
        } else {
            None
        },
        None => None,
    }
}

/// The ranges of System RAM that the first `n` lines give.
pub open spec fn ram_ranges(lines: Seq<Seq<char>>, n: int) -> Seq<(u64, u64)>
    decreases n,
{
    if n <= 0 {
        Seq::empty()
    } else {
        let rest = ram_ranges(lines, n - 1);
        match ram_in(lines[n - 1]) {
            Some((start, end)) => rest.push((start as u64, end as u64)),
            None => rest,
        }
    }
}

/// The ranges of System RAM in the kernel's map of physical memory, the last byte
/// of each included.
pub fn system_ram_ranges(iomem: &str) -> (ranges: Vec<(u64, u64)>)
    ensures
        ranges@ == ram_ranges(text::lines_of(iomem@), text::lines_of(iomem@).len() as int),
{
    let lines = split_lines(&chars_of(iomem));
    let ghost all = text::lines_of(iomem@);
    let wanted = chars_of("System RAM");
    let mut ranges: Vec<(u64, u64)> = Vec::new();
    let mut i: usize = 0;
    while i < lines.len()
        invariant
            i <= lines@.len(),
            text::texts(lines@) == all,
            wanted@ == "System RAM"@,
            ranges@ == ram_ranges(all, i as int),
        decreases lines@.len() - i,
    {
        assert(all[i as int] == lines@[i as int]@);
        if let Some((range, name)) = split_once(&lines[i], ':') {
            if same_chars(&trim(&name), &wanted) {
                if let Some(r) = parse_hex_range(&string_of(&trim(&range)), false) {
                    ranges.push(r);
                }
            }
        }
        i = i + 1;
    }
    assert(all.len() == lines@.len());
    ranges
}

/// The kibibytes that a line gives for `key`, if it does.
pub open spec fn kibibytes_in(line: Seq<char>, key: Seq<char>) -> Option<int> {
    if text::begins_with(line, key) {
        let words = text::words_from(line.skip(key.len() as int), 0);
        if words.len() > 0 {
            text::number_up_to(words[0], 10, u64::MAX as int)
        } else {
            None
        }
    } else {
        None
    }
}

/// The bytes that the first line to do so gives for `key`, from line `from` on;
/// `None` if they cannot be represented.
pub open spec fn bytes_for(lines: Seq<Seq<char>>, key: Seq<char>, from: int) -> Option<int>
    decreases lines.len() - from,
{
    if from >= lines.len() {
        None
    } else {
        match kibibytes_in(lines[from], key) {
            Some(k) => if k * 1024 <= u64::MAX {
                Some(k * 1024)
            } else {
                None
            },
            None => bytes_for(lines, key, from + 1),
        }
    }
}

/// The bytes that the kernel's summary of memory gives for `key`, such as
/// `MemTotal:`.
pub fn meminfo_bytes(meminfo: &str, key: &str) -> (bytes: Option<u64>)
    ensures
        bytes is Some <==> bytes_for(text::lines_of(meminfo@), key@, 0) is Some,
        bytes matches Some(n) ==> bytes_for(text::lines_of(meminfo@), key@, 0) == Some(n as int),
{
    let lines = split_lines(&chars_of(meminfo));
    let ghost all = text::lines_of(meminfo@);
    let mut i: usize = 0;
    while i < lines.len()
        invariant
            i <= lines@.len(),
            text::texts(lines@) == all,
            all == text::lines_of(meminfo@),
            bytes_for(all, key@, i as int) == bytes_for(all, key@, 0),
        decreases lines@.len() - i,
    {
        assert(all[i as int] == lines@[i as int]@);
        if let Some(rest) = strip_prefix(&lines[i], key) {
            let words = split_words(&rest);
            let ghost shown = text::words_from(rest@, 0);
            assert(shown.len() == words@.len());
            if words.len() > 0 {
                assert(shown[0] == words@[0]@);
                if let Some(k) = parse_number(&words[0], 10) {
                    return k.checked_mul(1024);
                }
            }
        }
        i = i + 1;
    }
    assert(all.len() == lines@.len());
    None
}

/// How much memory is installed.
#[derive(Debug, Clone, Copy, PartialEq, Eq, Structural)]
pub struct InstalledRam {
    /// How many bytes.
    pub bytes: u64,
    /// Where that number comes from.
    pub source: RamSource,
}

/// The bytes in the first `n` ranges, the last byte of each included. An
/// unprivileged reader sees every range from zero to zero: such a one says
/// nothing.
pub open spec fn ram_total(ranges: Seq<(u64, u64)>, n: int) -> int
    decreases n,
{
    if n <= 0 {
        0
    } else {
        ram_total(ranges, n - 1) + if ranges[n - 1].0 < ranges[n - 1].1 {
            ranges[n - 1].1 - ranges[n - 1].0 + 1
        } else {
            0
        }
    }
}

/// More ranges hold no fewer bytes.
proof fn lemma_ram_total_grows(ranges: Seq<(u64, u64)>, n: int, m: int)
    requires
        0 <= n <= m,
    ensures
        0 <= ram_total(ranges, n) <= ram_total(ranges, m),
    decreases m,
{
    if n < m {
        lemma_ram_total_grows(ranges, n, m - 1);
    } else if n > 0 {
        lemma_ram_total_grows(ranges, n - 1, n - 1);
    }
}

/// The installed memory that the kernel's map of physical memory gives, or else
/// its summary of memory.
pub open spec fn installed_in(iomem: Seq<char>, meminfo: Seq<char>) -> Option<InstalledRam> {
    let lines = text::lines_of(iomem);
    let ranges = ram_ranges(lines, lines.len() as int);
    let mapped = ram_total(ranges, ranges.len() as int);
    if 0 < mapped <= u64::MAX {
        Some(InstalledRam { bytes: mapped as u64, source: RamSource::ProcIomem })
    } else {
        match bytes_for(text::lines_of(meminfo), "MemTotal:"@, 0) {
            Some(n) => Some(InstalledRam { bytes: n as u64, source: RamSource::MemTotal }),
            None => None,
        }
    }
}

/// How much memory is installed, by the kernel's map of physical memory where it
/// can be read, by its summary of memory where it cannot.
pub fn installed_ram(iomem: &str, meminfo: &str) -> (installed: Option<InstalledRam>)
    ensures
        installed == installed_in(iomem@, meminfo@),
{
    let ranges = system_ram_ranges(iomem);
    let mut mapped: Option<u64> = Some(0);
    let mut i: usize = 0;
    while i < ranges.len()
        invariant
            i <= ranges@.len(),
            mapped matches Some(n) ==> n == ram_total(ranges@, i as int),
            mapped is None ==> ram_total(ranges@, i as int) > u64::MAX,
        decreases ranges@.len() - i,
    {
        let (start, end) = ranges[i];
        proof {
            lemma_ram_total_grows(ranges@, i as int, i + 1);
        }
        if start < end {
            mapped = match mapped {
                Some(n) => match n.checked_add(end - start) {
                    Some(sum) => sum.checked_add(1),
                    None => None,
                },
                None => None,
            };
        }
        i = i + 1;
    }
    match mapped {
        Some(n) if n > 0 => Some(InstalledRam { bytes: n, source: RamSource::ProcIomem }),
        _ => match meminfo_bytes(meminfo, "MemTotal:") {
            Some(n) => Some(InstalledRam { bytes: n, source: RamSource::MemTotal }),
            None => None,
        },
    }
}

/// The coverage of a run on memory whose pages resolved as `stats` says.
pub open spec fn coverage_of(stats: Option<MapStats>, installed: Option<InstalledRam>) -> Coverage {
    match (stats, installed) {
        (Some(s), Some(ram)) => Coverage::Measured {
            tested_bytes: (s.resolved_pages * PAGE_BYTES) as u64,
            total_bytes: ram.bytes,
            source: ram.source,
            cumulative: None,
            gap: None,
        },
        _ => Coverage::Unavailable,
    }
}

/// The coverage of a run on memory whose pages resolved as `stats` says, out of
/// what is installed.
pub fn coverage_for(stats: Option<&MapStats>, installed: Option<InstalledRam>) -> (coverage: Coverage)
    requires
        stats matches Some(s) ==> s.resolved_pages * PAGE_BYTES <= u64::MAX,
    ensures
        coverage == coverage_of(
            match stats {
                Some(s) => Some(*s),
                None => None,
            },
            installed,
        ),
{
    match (stats, installed) {
        (Some(s), Some(ram)) => Coverage::Measured {
            tested_bytes: s.tested_bytes(),
            total_bytes: ram.bytes,
            source: ram.source,
            cumulative: None,
            gap: None,
        },
        _ => Coverage::Unavailable,
    }
}

/// A line of the kernel's map gives its range if and only if the range is named System RAM:
/// the first and the last byte, in hexadecimal, whatever blanks stand in front.
pub proof fn law_ram_line_reads_back(start: u64, end: u64, name: Seq<char>)
    requires
        name.len() > 0,
        !text::is_blank(name[0]),
        !text::is_blank(name.last()),
    ensures
        ram_in(
            text::hex(start as int) + seq!['-'] + text::hex(end as int) + " "@ + seq![':'] + (" "@
                + name),
        ) == if name == "System RAM"@ {
            Some((start as int, end as int))
        } else {
            None
        },
{
    reveal_strlit(" ");
    let range = text::hex(start as int) + seq!['-'] + text::hex(end as int);
    let a = text::hex(start as int);
    let b = text::hex(end as int);
    text::lemma_hex_digits(start as int);
    text::lemma_hex_digits(end as int);
    assert(48 <= a[0] as int <= 57 || 97 <= a[0] as int <= 102);
    assert(48 <= b[b.len() - 1] as int <= 57 || 97 <= b[b.len() - 1] as int <= 102);
    let head = range + " "@;
    assert forall|i: int| 0 <= i < head.len() implies #[trigger] head[i] != ':' by {
        if i < a.len() {
            assert(head[i] == a[i]);
        } else if a.len() < i < range.len() {
            assert(head[i] == b[i - a.len() - 1]);
        }
    }
    text::law_split_at_first(head, ':', " "@ + name);
    text::lemma_trimmed_before_blanks(range, " "@);
    let tail = " "@ + name;
    assert(tail.skip(1) =~= name);
    assert(text::trimmed_start(tail) == text::trimmed_start(name));
    text::lemma_trimmed_whole(name);
    assert(text::trimmed(tail) == text::trimmed(name));
    crate::physmem::law_hex_range_reads_back(start, end, false);
}

/// One range more adds its bytes, the first and the last of them included, unless it says
/// nothing because both its ends are the same.
pub proof fn law_each_range_adds_its_bytes(ranges: Seq<(u64, u64)>, start: u64, end: u64)
    ensures
        ram_total(ranges.push((start, end)), (ranges.len() + 1) as int) == ram_total(
            ranges,
            ranges.len() as int,
        ) + if start < end {
            end + 1 - start
        } else {
            0
        },
        ram_total(Seq::empty(), 0) == 0,
{
    lemma_ram_total_of_prefix(ranges, (start, end), ranges.len() as int);
}

proof fn lemma_ram_total_of_prefix(ranges: Seq<(u64, u64)>, more: (u64, u64), n: int)
    requires
        n <= ranges.len(),
    ensures
        ram_total(ranges.push(more), n) == ram_total(ranges, n),
    decreases n,
{
    if n > 0 {
        lemma_ram_total_of_prefix(ranges, more, n - 1);
    }
}

/// A line of the kernel's summary gives kibibytes: what is read for its key are 1024 bytes
/// for each, whatever the unit behind the number.
pub proof fn law_summary_line_reads_back(lines: Seq<Seq<char>>, key: Seq<char>, n: int, at: int)
    requires
        0 <= n,
        n * 1024 <= u64::MAX,
        0 <= at < lines.len(),
        lines[at] == key + "       "@ + text::decimal(n) + " kB"@,
        forall|i: int| 0 <= i < at ==> !text::begins_with(#[trigger] lines[i], key),
    ensures
        bytes_for(lines, key, 0) == Some(n * 1024),
{
    lemma_summary_line(lines, key, n, at, 0);
}

proof fn lemma_summary_line(lines: Seq<Seq<char>>, key: Seq<char>, n: int, at: int, from: int)
    requires
        0 <= n,
        n * 1024 <= u64::MAX,
        0 <= from <= at < lines.len(),
        lines[at] == key + "       "@ + text::decimal(n) + " kB"@,
        forall|i: int| 0 <= i < at ==> !text::begins_with(#[trigger] lines[i], key),
    ensures
        bytes_for(lines, key, from) == Some(n * 1024),
    decreases at - from,
{
    if from < at {
        assert(!text::begins_with(lines[from], key));
        lemma_summary_line(lines, key, n, at, from + 1);
    } else {
        reveal_strlit("       ");
        reveal_strlit(" kB");
        let line = lines[at];
        let digits = text::decimal(n);
        let rest = "       "@ + digits + " kB"@;
        assert(line.take(key.len() as int) =~= key);
        assert(line.skip(key.len() as int) =~= rest);
        text::lemma_decimal_digits(n);
        text::law_number_on_a_line_reads_back(n, u64::MAX as int);
        text::lemma_first_word(rest, 7, 7 + digits.len() as int);
        assert(rest.subrange(7, 7 + digits.len() as int) =~= digits);
    }
}

/// The tested part of a coverage is 4096 bytes for each page that resolved, out of the bytes
/// that are installed; without either number there is none.
pub proof fn law_coverage_counts_resolved_pages(
    stats: Option<MapStats>,
    installed: Option<InstalledRam>,
)
    requires
        stats matches Some(s) ==> s.resolved_pages * 4096 <= u64::MAX,
    ensures
        coverage_of(stats, installed) is Measured <==> stats is Some && installed is Some,
        coverage_of(stats, installed) matches Coverage::Measured {
            tested_bytes,
            total_bytes,
            source,
            cumulative,
            gap,
        } ==> {
            &&& tested_bytes == 4096 * stats->0.resolved_pages
            &&& total_bytes == installed->0.bytes
            &&& source == installed->0.source
            &&& cumulative is None
            &&& gap is None
        },
{
}

/// What is added to a measurement leaves what was measured as it was, and one addition
/// leaves the other; without a measurement nothing is added.
pub proof fn law_additions_keep_the_measurement(
    coverage: Coverage,
    c: Cumulative,
    report: GapReport,
)
    ensures
        coverage.with_cumulative(c).with_gap(report) == coverage.with_gap(report).with_cumulative(
            c,
        ),
        coverage is Unavailable ==> coverage.with_cumulative(c) == coverage && coverage.with_gap(
            report,
        ) == coverage,
        coverage matches Coverage::Measured { tested_bytes, total_bytes, source, .. } ==> (
        coverage.with_cumulative(c).with_gap(report) matches Coverage::Measured {
            tested_bytes: tested,
            total_bytes: total,
            source: from,
            cumulative: Some(several),
            gap: Some(rest),
        } && tested == tested_bytes && total == total_bytes && from == source && several == c
            && rest == report),
{
}

/// Every line about System RAM gives its range, once and in order, and no other line
/// does: the ranges are those of the lines returned, which are all that give one.
pub proof fn law_every_ram_line_is_taken(lines: Seq<Seq<char>>, n: int) -> (at: Seq<int>)
    requires
        0 <= n <= lines.len(),
    ensures
        at.len() == ram_ranges(lines, n).len(),
        forall|k: int|
            0 <= k < at.len() ==> 0 <= #[trigger] at[k] < n && (ram_in(lines[at[k]]) matches Some(
                bounds,
            ) && ram_ranges(lines, n)[k] == (bounds.0 as u64, bounds.1 as u64)),
        forall|j: int, k: int| 0 <= j < k < at.len() ==> #[trigger] at[j] < #[trigger] at[k],
        forall|i: int| 0 <= i < n && ram_in(#[trigger] lines[i]) is Some ==> at.contains(i),
    decreases n,
{
    if n <= 0 {
        Seq::empty()
    } else {
        let before = law_every_ram_line_is_taken(lines, n - 1);
        if ram_in(lines[n - 1]) is Some {
            let at = before.push(n - 1);
            assert(at[before.len() as int] == n - 1);
            assert forall|i: int| 0 <= i < n && ram_in(#[trigger] lines[i]) is Some implies
                at.contains(i) by {
                if i < n - 1 {
                    let k = choose|k: int| 0 <= k < before.len() && before[k] == i;
                    assert(at[k] == i);
                }
            }
            at
        } else {
            before
        }
    }
}

/// The map of physical memory decides how much is installed, whatever the summary says;
/// the summary decides only where the map gives no ranges.
pub proof fn law_map_comes_before_the_summary(
    iomem: Seq<char>,
    meminfo: Seq<char>,
    other: Seq<char>,
)
    ensures
        installed_in(iomem, meminfo) matches Some(ram) ==> (ram.source is ProcIomem ==> ram.bytes
            > 0 && installed_in(iomem, other) == Some(ram)),
        installed_in(iomem, meminfo) matches Some(ram) ==> (ram.source is MemTotal ==> (bytes_for(
            text::lines_of(meminfo),
            "MemTotal:"@,
            0,
        ) matches Some(n) && ram.bytes == n as u64)),
        installed_in(Seq::empty(), meminfo) is Some <==> bytes_for(
            text::lines_of(meminfo),
            "MemTotal:"@,
            0,
        ) is Some,
{
    assert(text::lines_of(Seq::<char>::empty()).len() == 0);
}

} // verus!
