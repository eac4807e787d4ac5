//! Testing chosen physical ranges through `/dev/mem`.
//!
//! Writing to memory that the kernel uses corrupts it at once, so every range is
//! classed before it is touched: a region that the kernel was told to leave
//! alone may be written, live System RAM only on an explicit override, and
//! anything else (firmware, devices) never.

use crate::bytes::{self, read_le_word};
use crate::events::{self, LogLevel, Notice};
use crate::physmem::kpageflags::KPageFlags;
use crate::physmem::phys::{MapStats, PhysAddr, PhysError, PhysResolver};
use crate::physmem::{self, hex_of, PAGE_BYTES, PAGE_BYTES_USIZE};
use crate::text::{
    self, chars_of, copy_range, eq_ignoring_case, hex16_string, hex_string, parse_number,
    split_once, split_words, string_of, strip_prefix, trim,
};
use vstd::prelude::*;
use vstd::string::StringExecFns;

verus! {

/// What is to be tested.
#[derive(Debug, Clone, Copy, PartialEq, Eq, Structural)]
pub enum DevMemTarget {
    /// The bytes from `start` to `end`, both of them included.
    Range { start: u64, end: u64 },
    /// Every region that the kernel command line reserves.
    Reserved,
}

/// How dangerous it is to write to a range.
#[derive(Debug, Clone, Copy, PartialEq, Eq, Structural)]
pub enum Safety {
    /// Reserved: the kernel does not touch it.
    Reserved,
    /// Live System RAM.
    SystemRam,
    /// Firmware tables or devices.
    FirmwareOrMmio,
}

/// A physical range to map.
#[derive(Debug, Clone, Copy, PartialEq, Eq, Structural)]
pub struct Mapping {
    pub phys_start: u64,
    pub len: usize,
    pub safety: Safety,
}

/// Why a target cannot be mapped.
#[derive(Debug, Clone, Copy, PartialEq, Eq, Structural)]
pub enum DevMemError {
    NoReservedRegions,
    Unaligned { start: u64, len: usize },
}

impl DevMemError {
    /// The message of the error.
    pub open spec fn shown(&self) -> Seq<char> {
        match *self {
            DevMemError::NoReservedRegions =>
                "--devmem reserved: no memmap= reservations found on the kernel cmdline"@,
            DevMemError::Unaligned { start, len } =>
                "--devmem range must be page-aligned (start 0x"@ + text::hex(start as int)
                + ", len 0x"@ + text::hex(len as int) + ")"@,
        }
    }

    /// The message of the error.
    pub fn to_string(&self) -> (s: String)
        ensures
            s@ == self.shown(),
    {
        let mut s = String::new();
        match self {
            DevMemError::NoReservedRegions => {
                s.append("--devmem reserved: no memmap= reservations found on the kernel cmdline");
            },
            DevMemError::Unaligned { start, len } => {
                s.append("--devmem range must be page-aligned (start 0x");
                s.append(&hex_string(*start));
                s.append(", len 0x");
                s.append(&hex_string(*len as u64));
                s.append(")");
            },
        }
        assert(s@ =~= self.shown());
        s
    }
}

/// The target that `--devmem` gives, or what is wrong with it.
pub open spec fn target_in(s: Seq<char>) -> Result<DevMemTarget, Seq<char>> {
    if text::same_ignoring_case(s, "reserved"@) {
        Ok(DevMemTarget::Reserved)
    } else {
        match text::split_at_first(s, '-') {
            None => Err(
                "invalid --devmem value: "@ + s
                    + " (expected \"reserved\" or START-END, e.g. 0x39400000-0x395fffff)"@,
            ),
            Some((before, behind)) => {
                let first = text::trimmed(before);
                let last = text::trimmed(behind);
                match (physmem::hex_in(first, true), physmem::hex_in(last, true)) {
                    (None, _) => Err("invalid physical address: "@ + first),
                    (Some(_), None) => Err("invalid physical address: "@ + last),
                    (Some(start), Some(end)) => if end < start {
                        Err(
                            "invalid --devmem range: end 0x"@ + text::hex(end)
                                + " is below start 0x"@ + text::hex(start),
                        )
                    } else {
                        Ok(DevMemTarget::Range { start: start as u64, end: end as u64 })
                    },
                }
            },
        }
    }
}

/// Read a physical address.
fn parse_addr(s: &[char]) -> (r: Result<u64, String>)
    ensures
        r is Ok <==> physmem::hex_in(s@, true) is Some,
        r matches Ok(n) ==> physmem::hex_in(s@, true) == Some(n as int),
        r matches Err(e) ==> e@ == "invalid physical address: "@ + s@,
{
    match hex_of(s, true) {
        Some(n) => Ok(n),
        None => {
            let mut e = String::new();
            e.append("invalid physical address: ");
            e.append(&string_of(s));
            assert(e@ =~= "invalid physical address: "@ + s@);
            Err(e)
        },
    }
}

/// Read `--devmem`: `reserved`, or two hexadecimal addresses with a hyphen
/// between them, the last byte included.
pub fn parse_target(s: &str) -> (r: Result<DevMemTarget, String>)
    ensures
        r matches Ok(t) ==> target_in(s@) == Ok::<DevMemTarget, Seq<char>>(t),
        r matches Err(e) ==> target_in(s@) == Err::<DevMemTarget, Seq<char>>(e@),
{
    let chars = chars_of(s);
    if eq_ignoring_case(&chars, &chars_of("reserved")) {
        return Ok(DevMemTarget::Reserved);
    }
    match split_once(&chars, '-') {
        None => {
            let mut e = String::new();
            e.append("invalid --devmem value: ");
            e.append(s);
            e.append(" (expected \"reserved\" or START-END, e.g. 0x39400000-0x395fffff)");
            assert(e@ =~= "invalid --devmem value: "@ + s@
                + " (expected \"reserved\" or START-END, e.g. 0x39400000-0x395fffff)"@);
            Err(e)
        },
        Some((before, behind)) => {
            let start = match parse_addr(&trim(&before)) {
                Ok(n) => n,
                Err(e) => {
                    return Err(e);
                },
            };
            let end = match parse_addr(&trim(&behind)) {
                Ok(n) => n,
                Err(e) => {
                    return Err(e);
                },
            };
            if end < start {
                let mut e = String::new();
                e.append("invalid --devmem range: end 0x");
                e.append(&hex_string(end));
                e.append(" is below start 0x");
                e.append(&hex_string(start));
                assert(e@ =~= "invalid --devmem range: end 0x"@ + text::hex(end as int)
                    + " is below start 0x"@ + text::hex(start as int));
                return Err(e);
            }
            Ok(DevMemTarget::Range { start, end })
        },
    }
}

/// The size of a reservation: a decimal count with a unit or none. The product
/// is not bounded here.
pub open spec fn reservation_size(s: Seq<char>) -> Option<int> {
    let t = text::trimmed(s);
    let unit = crate::cli::unit_of(t);
    let digits = if unit > 1 {
        t.drop_last()
    } else {
        t
    };
    match text::number_up_to(digits, 10, u64::MAX as int) {
        Some(n) => Some(n * unit),
        None => None,
    }
}

/// Where a reservation begins and how many bytes it has: a size, a dollar sign
/// and an address. A reservation of nothing is none.
pub open spec fn reservation_in(body: Seq<char>) -> Option<(int, int)> {
    match text::split_at_first(body, '$') {
        Some((size, addr)) => match (
            reservation_size(size),
            physmem::hex_in(text::trimmed(addr), true),
        ) {
            (Some(n), Some(a)) => if n == 0 {
                None
            } else {
                Some((a, n))
            },
            _ => None,
        },
        None => None,
    }
}

/// What a word of the command line reserves, if anything.
pub open spec fn reserved_by(word: Seq<char>) -> Option<(int, int)> {
    if text::begins_with(word, "memmap="@) {
        reservation_in(word.skip("memmap="@.len() as int))
    } else {
        None
    }
}

/// Whether the size of a reservation, and where it ends, are representable.
pub open spec fn reservation_fits(word: Seq<char>) -> bool {
    text::begins_with(word, "memmap="@) ==> match text::split_at_first(
        word.skip("memmap="@.len() as int),
        '$',
    ) {
        Some((size, addr)) => {
            &&& reservation_size(size) matches Some(n) ==> n <= u64::MAX
            &&& reserved_by(word) matches Some((a, n)) ==> a + n <= u64::MAX
        },
        None => true,
    }
}

/// Whether every reservation of a command line is representable.
pub open spec fn reservations_fit(words: Seq<Seq<char>>) -> bool {
    forall|i: int| 0 <= i < words.len() ==> reservation_fits(#[trigger] words[i])
}

/// The inclusive byte ranges that the first `n` words reserve, in order.
pub open spec fn reserved_ranges(words: Seq<Seq<char>>, n: int) -> Seq<(u64, u64)>
    decreases n,
{
    if n <= 0 {
        Seq::empty()
    } else {
        let rest = reserved_ranges(words, n - 1);
        match reserved_by(words[n - 1]) {
            Some((addr, size)) => rest.push((addr as u64, (addr + size - 1) as u64)),
            None => rest,
        }
    }
}

/// The inclusive byte ranges that a command line reserves, in order.
pub open spec fn reserved_on(cmdline: Seq<char>) -> Seq<(u64, u64)> {
    let words = text::words_from(cmdline, 0);
    reserved_ranges(words, words.len() as int)
}

/// Read the size of a reservation, wide enough for any that can be written.
fn parse_memmap_size(s: &[char]) -> (n: Option<u128>)
    ensures
        n is Some <==> reservation_size(s@) is Some,
        n matches Some(v) ==> reservation_size(s@) == Some(v as int) && v <= u64::MAX * 1_073_741_824,
{
    let t = trim(s);
    let unit: u64 = if t.len() == 0 {
        1
    } else {
        let last = t[t.len() - 1];
        if last == 'G' || last == 'g' {
            1_073_741_824
        } else if last == 'M' || last == 'm' {
            1_048_576
        } else if last == 'K' || last == 'k' {
            1024
        } else {
            1
        }
    };
    let end: usize = if unit > 1 {
        t.len() - 1
    } else {
        t.len()
    };
    let digits = copy_range(&t, 0, end);
    assert(digits@ =~= if unit > 1 {
        t@.drop_last()
    } else {
        t@
    });
    match parse_number(&digits, 10) {
        Some(n) => {
            assert(n * unit <= u64::MAX * 1_073_741_824) by (nonlinear_arith)
                requires
                    0 <= n <= u64::MAX,
                    0 <= unit <= 1_073_741_824,
            ;
            Some(n as u128 * unit as u128)
        },
        None => None,
    }
}

/// Where a reservation begins and how many bytes it has.
fn parse_reservation(body: &[char]) -> (r: Option<(u64, u128)>)
    ensures
        r is Some <==> reservation_in(body@) is Some,
        r matches Some(p) ==> reservation_in(body@) == Some((p.0 as int, p.1 as int)) && p.1
            <= u64::MAX * 1_073_741_824,
{
    match split_once(body, '$') {
        Some((size, addr)) => {
            let n = parse_memmap_size(&size);
            let a = hex_of(&trim(&addr), true);
            match (a, n) {
                (Some(a), Some(n)) => if n == 0 {
                    None
                } else {
                    Some((a, n))
                },
                _ => None,
            }
        },
        None => None,
    }
}

/// Whether every reservation of a command line is representable: no size or end
/// is beyond the address space.
pub fn memmap_fits(cmdline: &str) -> (fits: bool)
    ensures
        fits == reservations_fit(text::words_from(cmdline@, 0)),
{
    let words = split_words(&chars_of(cmdline));
    let ghost all = text::words_from(cmdline@, 0);
    let mut i: usize = 0;
    while i < words.len()
        invariant
            i <= words@.len(),
            text::texts(words@) == all,
            all == text::words_from(cmdline@, 0),
            forall|k: int| 0 <= k < i ==> reservation_fits(#[trigger] all[k]),
        decreases words@.len() - i,
    {
        assert(all[i as int] == words@[i as int]@);
        if let Some(body) = strip_prefix(&words[i], "memmap=") {
            if let Some((size, _)) = split_once(&body, '$') {
                if let Some(n) = parse_memmap_size(&size) {
                    if n > u64::MAX as u128 {
                        assert(!reservation_fits(all[i as int]));
                        return false;
                    }
                }
            }
            if let Some((a, n)) = parse_reservation(&body) {
                if a as u128 + n > u64::MAX as u128 {
                    assert(!reservation_fits(all[i as int]));
                    return false;
                }
            }
        }
        i = i + 1;
    }
    true
}

/// The inclusive byte ranges that a kernel command line reserves, with
/// `memmap=SIZE$ADDR`. The other forms of `memmap=` reserve nothing.
#[must_use]
pub fn parse_memmap_reserved(cmdline: &str) -> (ranges: Vec<(u64, u64)>)
    requires
        reservations_fit(text::words_from(cmdline@, 0)),
    ensures
        ranges@ == reserved_on(cmdline@),
        forall|i: int| 0 <= i < ranges@.len() ==> (#[trigger] ranges@[i]).0 <= ranges@[i].1
            < u64::MAX,
{
    let words = split_words(&chars_of(cmdline));
    let ghost all = text::words_from(cmdline@, 0);
    let mut ranges: Vec<(u64, u64)> = Vec::new();
    let mut i: usize = 0;
    while i < words.len()
        invariant
            i <= words@.len(),
            text::texts(words@) == all,
            reservations_fit(all),
            ranges@ == reserved_ranges(all, i as int),
            forall|k: int| 0 <= k < ranges@.len() ==> (#[trigger] ranges@[k]).0 <= ranges@[k].1
                < u64::MAX,
        decreases words@.len() - i,
    {
        assert(all[i as int] == words@[i as int]@);
        assert(reservation_fits(all[i as int]));
        if let Some(body) = strip_prefix(&words[i], "memmap=") {
            if let Some((a, n)) = parse_reservation(&body) {
                assert(a + n <= u64::MAX);
                ranges.push((a, a + (n as u64 - 1)));
            }
        }
        i = i + 1;
    }
    ranges
}

/// Whether `[start, end]` lies inside one of the ranges.
pub open spec fn inside_one(start: u64, end: u64, ranges: Seq<(u64, u64)>) -> bool {
    exists|i: int|
        0 <= i < ranges.len() && (#[trigger] ranges[i]).0 <= start && end <= ranges[i].1
}

/// Whether `[start, end]` shares a byte with one of the ranges.
pub open spec fn overlaps_one(start: u64, end: u64, ranges: Seq<(u64, u64)>) -> bool {
    exists|i: int|
        0 <= i < ranges.len() && start <= (#[trigger] ranges[i]).1 && ranges[i].0 <= end
}

/// How dangerous it is to write to `[start, end]`.
pub open spec fn safety_of(
    start: u64,
    end: u64,
    reserved: Seq<(u64, u64)>,
    system_ram: Seq<(u64, u64)>,
) -> Safety {
    if inside_one(start, end, reserved) {
        Safety::Reserved
    } else if overlaps_one(start, end, system_ram) {
        Safety::SystemRam
    } else {
        Safety::FirmwareOrMmio
    }
}

/// Class the range `[start, end]`: reserved if it lies within one reserved
/// region, else System RAM if any byte of it is, else firmware or devices.
#[must_use]
pub fn classify(start: u64, end: u64, reserved: &[(u64, u64)], system_ram: &[(u64, u64)]) -> (safety:
    Safety)
    ensures
        safety == safety_of(start, end, reserved@, system_ram@),
{
    let mut i: usize = 0;
    while i < reserved.len()
        invariant
            i <= reserved@.len(),
            forall|k: int|
                0 <= k < i ==> !((#[trigger] reserved@[k]).0 <= start && end <= reserved@[k].1),
        decreases reserved@.len() - i,
    {
        let range = reserved[i];
        if range.0 <= start && end <= range.1 {
            assert(reserved@[i as int].0 <= start);
            return Safety::Reserved;
        }
        i = i + 1;
    }
    let mut j: usize = 0;
    while j < system_ram.len()
        invariant
            j <= system_ram@.len(),
            !inside_one(start, end, reserved@),
            forall|k: int|
                0 <= k < j ==> !(start <= (#[trigger] system_ram@[k]).1 && system_ram@[k].0 <= end),
        decreases system_ram@.len() - j,
    {
        let range = system_ram[j];
        if start <= range.1 && range.0 <= end {
            assert(start <= system_ram@[j as int].1);
            return Safety::SystemRam;
        }
        j = j + 1;
    }
    Safety::FirmwareOrMmio
}

/// Whether a range of this class may be written.
pub open spec fn may_write(safety: Safety, unsafe_override: bool) -> bool {
    match safety {
        Safety::Reserved => true,
        Safety::SystemRam => unsafe_override,
        Safety::FirmwareOrMmio => false,
    }
}

/// Whether a range of this class may be written, given the override.
#[must_use]
pub fn write_allowed(safety: Safety, unsafe_override: bool) -> (allowed: bool)
    ensures
        allowed == may_write(safety, unsafe_override),
{
    match safety {
        Safety::Reserved => true,
        Safety::SystemRam => unsafe_override,
        Safety::FirmwareOrMmio => false,
    }
}

/// A range may be written without the override only if it lies within a region
/// that the kernel was told to leave alone, and with it only if it also may be
/// System RAM.
pub proof fn law_writes_are_confined(
    start: u64,
    end: u64,
    reserved: Seq<(u64, u64)>,
    system_ram: Seq<(u64, u64)>,
    unsafe_override: bool,
)
    requires
        may_write(safety_of(start, end, reserved, system_ram), unsafe_override),
    ensures
        inside_one(start, end, reserved) || (unsafe_override && overlaps_one(
            start,
            end,
            system_ram,
        )),
{
}

/// The mapping of one reserved range.
pub open spec fn reserved_mapping(range: (u64, u64)) -> Mapping {
    Mapping {
        phys_start: range.0,
        len: (range.1 - range.0 + 1) as usize,
        safety: Safety::Reserved,
    }
}

/// What a target comes to.
pub open spec fn mappings_of(
    target: DevMemTarget,
    reserved: Seq<(u64, u64)>,
    system_ram: Seq<(u64, u64)>,
) -> Result<Seq<Mapping>, DevMemError> {
    match target {
        DevMemTarget::Range { start, end } => {
            let len = (end - start + 1) as usize;
            if start as int % PAGE_BYTES as int != 0 || len as int % PAGE_BYTES as int != 0 {
                Err(DevMemError::Unaligned { start, len })
            } else {
                Ok(
                    seq![
                        Mapping {
                            phys_start: start,
                            len,
                            safety: safety_of(start, end, reserved, system_ram),
                        },
                    ],
                )
            }
        },
        DevMemTarget::Reserved => if reserved.len() == 0 {
            Err(DevMemError::NoReservedRegions)
        } else {
            Ok(Seq::new(reserved.len(), |i: int| reserved_mapping(reserved[i])))
        },
    }
}

/// Turn a target into the physical ranges to map, each with its class. An
/// explicit range has to be whole pages; `reserved` has to find a reservation.
pub fn resolve_mappings(target: DevMemTarget, cmdline: &str, system_ram: &[(u64, u64)]) -> (r: Result<
    Vec<Mapping>,
    DevMemError,
>)
    requires
        reservations_fit(text::words_from(cmdline@, 0)),
        target matches DevMemTarget::Range { start, end } ==> start <= end && end - start
            < u64::MAX,
    ensures
        r matches Ok(mappings) ==> mappings_of(target, reserved_on(cmdline@), system_ram@) == Ok::<
            Seq<Mapping>,
            DevMemError,
        >(mappings@),
        r matches Err(e) ==> mappings_of(target, reserved_on(cmdline@), system_ram@) == Err::<
            Seq<Mapping>,
            DevMemError,
        >(e),
{
    let reserved = parse_memmap_reserved(cmdline);
    match target {
        DevMemTarget::Range { start, end } => {
            let len: usize = (end - start + 1) as usize;
            if start % PAGE_BYTES != 0 || len % PAGE_BYTES_USIZE != 0 {
                return Err(DevMemError::Unaligned { start, len });
            }
            let safety = classify(start, end, &reserved, system_ram);
            let mappings = vec![Mapping { phys_start: start, len, safety }];
            assert(mappings@ =~= seq![Mapping { phys_start: start, len, safety }]);
            Ok(mappings)
        },
        DevMemTarget::Reserved => {
            if reserved.len() == 0 {
                return Err(DevMemError::NoReservedRegions);
            }
            let mut mappings: Vec<Mapping> = Vec::new();
            let mut i: usize = 0;
            while i < reserved.len()
                invariant
                    i <= reserved@.len(),
                    mappings@.len() == i,
                    forall|k: int|
                        0 <= k < i ==> #[trigger] mappings@[k] == reserved_mapping(reserved@[k]),
                    forall|k: int|
                        0 <= k < reserved@.len() ==> (#[trigger] reserved@[k]).0 <= reserved@[k].1
                            < u64::MAX,
                decreases reserved@.len() - i,
            {
                let range = reserved[i];
                assert(reserved@[i as int].0 <= reserved@[i as int].1);
                mappings.push(
                    Mapping {
                        phys_start: range.0,
                        len: (range.1 - range.0 + 1) as usize,
                        safety: Safety::Reserved,
                    },
                );
                i = i + 1;
            }
            assert(mappings@ =~= Seq::new(
                reserved@.len(),
                |i: int| reserved_mapping(reserved@[i]),
            ));
            Ok(mappings)
        },
    }
}

/// What is done with a mapping.
#[derive(Debug, Clone, Copy, PartialEq, Eq, Structural)]
pub enum MappingAction {
    /// It is not touched.
    Refuse,
    /// It is read, and not written.
    Probe,
    /// Test patterns are written to it.
    WriteTest,
}

impl Mapping {
    /// The name of the mapping's class.
    pub fn label(&self) -> (label: &'static str)
        ensures
            label@ == class_name(self.safety),
    {
        match self.safety {
            Safety::Reserved => "reserved",
            Safety::SystemRam => "System RAM",
            Safety::FirmwareOrMmio => "firmware/MMIO",
        }
    }

    /// What is done with the mapping: firmware and devices are refused, what may
    /// be written is tested, the rest is only read.
    pub fn action(&self, unsafe_override: bool) -> (action: MappingAction)
        ensures
            action == MappingAction::Refuse <==> self.safety == Safety::FirmwareOrMmio,
            action == MappingAction::WriteTest <==> may_write(self.safety, unsafe_override),
    {
        match self.safety {
            Safety::FirmwareOrMmio => MappingAction::Refuse,
            _ => if write_allowed(self.safety, unsafe_override) {
                MappingAction::WriteTest
            } else {
                MappingAction::Probe
            },
        }
    }

    /// What to say when the mapping fails.
    pub fn map_context(&self) -> (message: &'static str)
        ensures
            message@ == if self.safety == Safety::SystemRam {
                "failed to map /dev/mem: the kernel blocks mapping live System RAM that is already in its direct map. Fence the range with memmap= at boot, or offline its memory block, then retest through /dev/mem"@
            } else {
                "failed to map physical range through /dev/mem"@
            },
    {
        match self.safety {
            Safety::SystemRam =>
                "failed to map /dev/mem: the kernel blocks mapping live System RAM that is already in its direct map. Fence the range with memmap= at boot, or offline its memory block, then retest through /dev/mem",
            _ => "failed to map physical range through /dev/mem",
        }
    }
}

/// A mapping's first and last byte, in hexadecimal.
pub open spec fn extent_text(mapping: Mapping) -> Seq<char> {
    "0x"@ + text::hex(mapping.phys_start as int) + "-0x"@ + text::hex(
        mapping.phys_start + mapping.len - 1,
    )
}

/// The name of a class.
pub open spec fn class_name(safety: Safety) -> Seq<char> {
    match safety {
        Safety::Reserved => "reserved"@,
        Safety::SystemRam => "System RAM"@,
        Safety::FirmwareOrMmio => "firmware/MMIO"@,
    }
}

/// What is said before a mapping is tested, probed or refused.
pub open spec fn mapping_notices(mapping: Mapping, unsafe_override: bool) -> Seq<
    (LogLevel, Seq<char>),
> {
    let extent = extent_text(mapping);
    let class = class_name(mapping.safety);
    match mapping.safety {
        Safety::FirmwareOrMmio => seq![
            (
                LogLevel::Warn,
                "devmem: refusing "@ + extent + " ("@ + class + ") -- never safe to touch"@,
            ),
        ],
        _ => if may_write(mapping.safety, unsafe_override) {
            let testing = (
                LogLevel::Info,
                "devmem: write-testing physical "@ + extent + " ("@ + class + ")"@,
            );
            if mapping.safety == Safety::SystemRam {
                seq![
                    (
                        LogLevel::Warn,
                        "devmem: --devmem-unsafe write-testing LIVE System RAM "@ + extent
                            + " -- this can corrupt the kernel and crash the machine"@,
                    ),
                    testing,
                ]
            } else {
                seq![testing]
            }
        } else {
            seq![
                (
                    LogLevel::Info,
                    "devmem: read-only probe of physical "@ + extent + " ("@ + class
                        + "); pass --devmem-unsafe to write-test (DANGEROUS)"@,
                ),
            ]
        },
    }
}

fn notice(level: LogLevel, head: &str, mapping: &Mapping, class: &str, tail: &str) -> (n: Notice)
    requires
        mapping.phys_start + mapping.len <= u64::MAX,
        mapping.len > 0,
    ensures
        n@ == (level, head@ + extent_text(*mapping) + class@ + tail@),
{
    let end: u64 = mapping.phys_start + (mapping.len as u64 - 1);
    let mut s = String::new();
    s.append(head);
    s.append("0x");
    s.append(&hex_string(mapping.phys_start));
    s.append("-0x");
    s.append(&hex_string(end));
    s.append(class);
    s.append(tail);
    assert(s@ =~= head@ + extent_text(*mapping) + class@ + tail@);
    Notice { level, text: s }
}

/// What to tell the operator before a mapping is tested, probed or refused.
pub fn announce(mapping: &Mapping, unsafe_override: bool) -> (notices: Vec<Notice>)
    requires
        mapping.phys_start + mapping.len <= u64::MAX,
        mapping.len > 0,
    ensures
        events::notice_views(notices@) == mapping_notices(*mapping, unsafe_override),
{
    let mut class = String::new();
    class.append(" (");
    class.append(mapping.label());
    let mut notices: Vec<Notice> = Vec::new();
    match mapping.action(unsafe_override) {
        MappingAction::Refuse => {
            notices.push(
                notice(
                    LogLevel::Warn,
                    "devmem: refusing ",
                    mapping,
                    &class,
                    ") -- never safe to touch",
                ),
            );
            assert(notices@[0].text@ =~= "devmem: refusing "@ + extent_text(*mapping) + " ("@
                + class_name(mapping.safety) + ") -- never safe to touch"@);
        },
        MappingAction::WriteTest => {
            if matches!(mapping.safety, Safety::SystemRam) {
                notices.push(
                    notice(
                        LogLevel::Warn,
                        "devmem: --devmem-unsafe write-testing LIVE System RAM ",
                        mapping,
                        "",
                        " -- this can corrupt the kernel and crash the machine",
                    ),
                );
                proof {
                    reveal_strlit("");
                    assert(notices@[0].text@
                        =~= "devmem: --devmem-unsafe write-testing LIVE System RAM "@ + extent_text(
                        *mapping,
                    ) + " -- this can corrupt the kernel and crash the machine"@);
                }
            }
            let testing = notice(
                LogLevel::Info,
                "devmem: write-testing physical ",
                mapping,
                &class,
                ")",
            );
            assert(testing.text@ =~= "devmem: write-testing physical "@ + extent_text(*mapping)
                + " ("@ + class_name(mapping.safety) + ")"@);
            notices.push(testing);
        },
        MappingAction::Probe => {
            notices.push(
                notice(
                    LogLevel::Info,
                    "devmem: read-only probe of physical ",
                    mapping,
                    &class,
                    "); pass --devmem-unsafe to write-test (DANGEROUS)",
                ),
            );
            assert(notices@[0].text@ =~= "devmem: read-only probe of physical "@ + extent_text(
                *mapping,
            ) + " ("@ + class_name(mapping.safety)
                + "); pass --devmem-unsafe to write-test (DANGEROUS)"@);
        },
    }
    assert(events::notice_views(notices@) =~= mapping_notices(*mapping, unsafe_override));
    notices
}

/// What a reading of a physical range showed.
#[derive(Debug, Clone, Copy, PartialEq, Eq, Structural)]
pub struct ProbeStats {
    pub words_read: usize,
    pub nonzero_words: usize,
    pub xor_checksum: u64,
}

impl Default for ProbeStats {
    fn default() -> (stats: Self)
        ensures
            stats == (ProbeStats { words_read: 0, nonzero_words: 0, xor_checksum: 0 }),
    {
        ProbeStats { words_read: 0, nonzero_words: 0, xor_checksum: 0 }
    }
}

/// How many of the words are not zero.
pub open spec fn nonzero_count(words: Seq<u64>) -> int
    decreases words.len(),
{
    if words.len() == 0 {
        0
    } else {
        nonzero_count(words.drop_last()) + if words.last() != 0 {
            1int
        } else {
            0
        }
    }
}

/// The exclusive or of all the words.
pub open spec fn xor_of(words: Seq<u64>) -> u64
    decreases words.len(),
{
    if words.len() == 0 {
        0
    } else {
        xor_of(words.drop_last()) ^ words.last()
    }
}

/// Words that are not zero are among the words.
proof fn lemma_nonzero_count(words: Seq<u64>)
    ensures
        0 <= nonzero_count(words) <= words.len(),
    decreases words.len(),
{
    if words.len() > 0 {
        lemma_nonzero_count(words.drop_last());
    }
}

impl ProbeStats {
    /// Whether these are the statistics of `words`.
    pub open spec fn describes(&self, words: Seq<u64>) -> bool {
        &&& self.words_read == words.len()
        &&& self.nonzero_words == nonzero_count(words)
        &&& self.xor_checksum == xor_of(words)
    }

    /// The statistics of two readings together.
    #[must_use]
    pub fn merge(self, other: Self) -> (merged: Self)
        requires
            self.words_read + other.words_read <= usize::MAX,
            self.nonzero_words + other.nonzero_words <= usize::MAX,
        ensures
            merged.words_read == self.words_read + other.words_read,
            merged.nonzero_words == self.nonzero_words + other.nonzero_words,
            merged.xor_checksum == self.xor_checksum ^ other.xor_checksum,
    {
        ProbeStats {
            words_read: self.words_read + other.words_read,
            nonzero_words: self.nonzero_words + other.nonzero_words,
            xor_checksum: self.xor_checksum ^ other.xor_checksum,
        }
    }
}

/// The statistics of the whole little-endian words in `bytes`; bytes after the
/// last whole word are passed over.
#[must_use]
pub fn probe_bytes(bytes: &[u8]) -> (stats: ProbeStats)
    ensures
        stats.describes(bytes::le_words(bytes@)),
{
    let len: usize = bytes.len();
    let count: usize = len / 8;
    let ghost words = bytes::le_words(bytes@);
    let mut stats = ProbeStats::default();
    let mut i: usize = 0;
    assert(words.take(0) =~= Seq::empty());
    while i < count
        invariant
            i <= count,
            len == bytes@.len(),
            count == len / 8,
            words == bytes::le_words(bytes@),
            stats.describes(words.take(i as int)),
        decreases count - i,
    {
        let word = read_le_word(bytes, i * 8);
        proof {
            assert(words[i as int] == word);
            assert(words.take(i + 1).drop_last() =~= words.take(i as int));
            lemma_nonzero_count(words.take(i as int));
        }
        stats.words_read = stats.words_read + 1;
        if word != 0 {
            stats.nonzero_words = stats.nonzero_words + 1;
        }
        stats.xor_checksum = stats.xor_checksum ^ word;
        i = i + 1;
    }
    assert(words.take(count as int) =~= words);
    stats
}

/// The statistics of two readings, merged, are those of the words of both.
pub proof fn law_merged_probes(
    a: Seq<u64>,
    b: Seq<u64>,
    first: ProbeStats,
    second: ProbeStats,
    merged: ProbeStats,
)
    requires
        first.describes(a),
        second.describes(b),
        merged.words_read == first.words_read + second.words_read,
        merged.nonzero_words == first.nonzero_words + second.nonzero_words,
        merged.xor_checksum == first.xor_checksum ^ second.xor_checksum,
    ensures
        merged.describes(a + b),
{
    lemma_stats_of_both(a, b);
}

proof fn lemma_stats_of_both(a: Seq<u64>, b: Seq<u64>)
    ensures
        nonzero_count(a + b) == nonzero_count(a) + nonzero_count(b),
        xor_of(a + b) == xor_of(a) ^ xor_of(b),
    decreases b.len(),
{
    if b.len() == 0 {
        assert(a + b =~= a);
        let x = xor_of(a);
        assert(x ^ 0 == x) by (bit_vector);
    } else {
        assert((a + b).drop_last() =~= a + b.drop_last());
        lemma_stats_of_both(a, b.drop_last());
        let x = xor_of(a);
        let y = xor_of(b.drop_last());
        let z = b.last();
        assert((x ^ y) ^ z == x ^ (y ^ z)) by (bit_vector);
    }
}

/// How many bytes a probe reads at a time.
pub const PROBE_CHUNK: usize = 4_194_304;

/// A probe under way: what was read, and what is still to read.
pub struct ProbeCursor {
    pub offset: u64,
    pub end: u64,
    pub stats: ProbeStats,
}

impl ProbeCursor {
    /// How many bytes are still to be read.
    pub open spec fn left(&self) -> int {
        self.end - self.offset
    }

    /// Whether the statistics stay countable to the end.
    pub open spec fn well_formed(&self) -> bool {
        &&& self.offset <= self.end
        &&& self.stats.nonzero_words <= self.stats.words_read
        &&& self.stats.words_read + self.left() <= usize::MAX
    }

    /// A probe of a mapping that has not begun.
    pub fn new(mapping: &Mapping) -> (cursor: Self)
        requires
            mapping.phys_start + mapping.len <= u64::MAX,
        ensures
            cursor.well_formed(),
            cursor.offset == mapping.phys_start,
            cursor.left() == mapping.len,
            cursor.stats.describes(Seq::empty()),
    {
        ProbeCursor {
            offset: mapping.phys_start,
            end: mapping.phys_start + mapping.len as u64,
            stats: ProbeStats::default(),
        }
    }

    /// Where to read next and how many bytes, or `None` at the end.
    pub fn next_read(&self) -> (read: Option<(u64, usize)>)
        requires
            self.well_formed(),
        ensures
            read is None <==> self.left() == 0,
            read matches Some(r) ==> r.0 == self.offset && r.1 == if self.left() < PROBE_CHUNK {
                self.left()
            } else {
                PROBE_CHUNK as int
            },
    {
        if self.offset == self.end {
            return None;
        }
        let left: u64 = self.end - self.offset;
        let n: usize = if left < PROBE_CHUNK as u64 {
            left as usize
        } else {
            PROBE_CHUNK
        };
        Some((self.offset, n))
    }

    /// Take in the bytes that the next read gave.
    pub fn absorb(&mut self, bytes: &[u8])
        requires
            old(self).well_formed(),
            bytes@.len() <= old(self).left(),
        ensures
            final(self).well_formed(),
            final(self).offset == old(self).offset + bytes@.len(),
            final(self).end == old(self).end,
            forall|words: Seq<u64>| #[trigger]
                old(self).stats.describes(words) ==> final(self).stats.describes(
                    words + bytes::le_words(bytes@),
                ),
    {
        let part = probe_bytes(bytes);
        proof {
            lemma_nonzero_count(bytes::le_words(bytes@));
        }
        let merged = self.stats.merge(part);
        proof {
            assert forall|words: Seq<u64>| #[trigger]
                self.stats.describes(words) implies merged.describes(
                words + bytes::le_words(bytes@),
            ) by {
                law_merged_probes(words, bytes::le_words(bytes@), self.stats, part, merged);
            }
        }
        self.stats = merged;
        self.offset = self.offset + bytes.len() as u64;
    }
}

/// The summary of a finished probe of memory whose size reads `size`.
pub open spec fn probe_line(size: Seq<char>, stats: ProbeStats) -> Seq<char> {
    "probe: "@ + size + " readable ("@ + text::decimal(stats.words_read as int) + " words, "@
        + text::decimal(stats.nonzero_words as int) + " nonzero, checksum 0x"@ + text::hex16(
        stats.xor_checksum as int,
    ) + ")"@
}

/// The summary of a finished probe of memory whose size reads `size`.
pub fn probe_summary(size: &str, stats: &ProbeStats) -> (line: String)
    ensures
        line@ == probe_line(size@, *stats),
{
    let mut s = String::new();
    s.append("probe: ");
    s.append(size);
    s.append(" readable (");
    s.append(&text::decimal_string(stats.words_read as u64));
    s.append(" words, ");
    s.append(&text::decimal_string(stats.nonzero_words as u64));
    s.append(" nonzero, checksum 0x");
    s.append(&hex16_string(stats.xor_checksum));
    s.append(")");
    assert(s@ =~= probe_line(size@, *stats));
    s
}

/// The addresses of a direct mapping: physical addresses follow from virtual
/// ones without a lookup, and never change.
pub struct DevMemResolver {
    pub virt_base: usize,
    pub phys_base: u64,
    pub len: usize,
}

impl DevMemResolver {
    /// A mapping of `len` bytes from `phys_base` on, seen at `virt_base`.
    #[must_use]
    pub fn new(virt_base: usize, phys_base: u64, len: usize) -> (resolver: Self)
        ensures
            resolver == (DevMemResolver { virt_base, phys_base, len }),
    {
        DevMemResolver { virt_base, phys_base, len }
    }

    /// Whether an address is inside the mapping, and what it maps to is within the
    /// physical address space.
    pub open spec fn maps(&self, vaddr: usize) -> bool {
        &&& self.virt_base <= vaddr < self.virt_base + self.len
        &&& self.phys_base + (vaddr - self.virt_base) <= u64::MAX
    }
}

impl PhysResolver for DevMemResolver {
    fn build_map(&mut self, base: usize, len: usize) -> (r: Result<MapStats, PhysError>)
        ensures
            *final(self) == (DevMemResolver { virt_base: base, phys_base: old(self).phys_base, len }),
            r matches Ok(stats) && stats.total_pages == len as int / PAGE_BYTES as int
                && stats.resolved_pages == stats.total_pages && stats.huge_pages == 0
                && stats.thp_pages == 0 && stats.hwpoison_pages == 0 && stats.unevictable_pages
                == 0,
    {
        self.virt_base = base;
        self.len = len;
        let pages: usize = len / PAGE_BYTES_USIZE;
        Ok(
            MapStats {
                total_pages: pages,
                resolved_pages: pages,
                huge_pages: 0,
                thp_pages: 0,
                hwpoison_pages: 0,
                unevictable_pages: 0,
            },
        )
    }

    fn resolve(&self, vaddr: usize) -> (r: Result<PhysAddr, PhysError>)
        ensures
            self.maps(vaddr) ==> r == Ok::<PhysAddr, PhysError>(
                PhysAddr((self.phys_base + (vaddr - self.virt_base)) as u64),
            ),
            !self.maps(vaddr) ==> r == Err::<PhysAddr, PhysError>(
                PhysError::PageNotPresent { vaddr },
            ),
    {
        if vaddr < self.virt_base || vaddr - self.virt_base >= self.len {
            return Err(PhysError::PageNotPresent { vaddr });
        }
        match self.phys_base.checked_add((vaddr - self.virt_base) as u64) {
            Some(addr) => Ok(PhysAddr(addr)),
            None => Err(PhysError::PageNotPresent { vaddr }),
        }
    }

    fn page_flags(&self, pfn: u64) -> (r: Result<KPageFlags, PhysError>)
        ensures
            r == Err::<KPageFlags, PhysError>(PhysError::PfnUnavailable { vaddr: 0 }),
    {
        Err(PhysError::PfnUnavailable { vaddr: 0 })
    }

    fn verify_stability(&self, base: usize, len: usize) -> (r: Result<usize, PhysError>)
        ensures
            r == Ok::<usize, PhysError>(0),
    {
        Ok(0)
    }
}

/// A range of addresses that is written out reads back as itself, with or without `0x` in
/// front of them, if it does not end before it starts; otherwise it is refused.
pub proof fn law_written_target_reads_back(start: u64, end: u64)
    ensures
        ({
            let plain = text::hex(start as int) + seq!['-'] + text::hex(end as int);
            let prefixed = "0x"@ + text::hex(start as int) + seq!['-'] + ("0x"@ + text::hex(
                end as int,
            ));
            &&& start <= end ==> target_in(plain) == Ok::<DevMemTarget, Seq<char>>(
                DevMemTarget::Range { start, end },
            ) && target_in(prefixed) == Ok::<DevMemTarget, Seq<char>>(
                DevMemTarget::Range { start, end },
            )
            &&& end < start ==> target_in(plain) is Err && target_in(prefixed) is Err
        }),
        target_in("reserved"@) == Ok::<DevMemTarget, Seq<char>>(DevMemTarget::Reserved),
{
    reveal_strlit("0x");
    reveal_strlit("reserved");
    let a = text::hex(start as int);
    let b = text::hex(end as int);
    text::lemma_hex_digits(start as int);
    physmem::law_hex_reads_back(start, true);
    physmem::law_hex_reads_back(end, true);
    text::law_split_at_first(a, '-', b);
    let prefixed = "0x"@ + a;
    assert forall|i: int| 0 <= i < prefixed.len() implies #[trigger] prefixed[i] != '-' by {
        if i >= 2 {
            assert(prefixed[i] == a[i - 2]);
        }
    }
    text::law_split_at_first(prefixed, '-', "0x"@ + b);
    let plain = a + seq!['-'] + b;
    let long = prefixed + seq!['-'] + ("0x"@ + b);
    lemma_hyphen_is_not_reserved(plain, a.len() as int);
    lemma_hyphen_is_not_reserved(long, prefixed.len() as int);
    assert(text::same_ignoring_case("reserved"@, "reserved"@));
}

/// A text with a hyphen is not the word for all reservations.
proof fn lemma_hyphen_is_not_reserved(s: Seq<char>, at: int)
    requires
        0 <= at < s.len(),
        s[at] == '-',
    ensures
        !text::same_ignoring_case(s, "reserved"@),
{
    reveal_strlit("reserved");
    if s.len() == "reserved"@.len() {
        assert(text::lower_char(s[at]) != text::lower_char("reserved"@[at]));
    }
}

/// A reservation on the command line, such as `memmap=64M$0x39400000`, reads back as the
/// bytes from its address on: so many times 1024 times 1024 of them.
pub proof fn law_written_reservation_reads_back(n: int, addr: u64)
    requires
        0 < n <= u64::MAX,
    ensures
        reserved_by(
            "memmap="@ + (text::decimal(n).push('M') + seq!['$'] + ("0x"@ + text::hex(
                addr as int,
            ))),
        ) == Some((addr as int, n * 1_048_576)),
        reserved_by(
            "memmap="@ + (text::decimal(n).push('K') + seq!['$'] + ("0x"@ + text::hex(
                addr as int,
            ))),
        ) == Some((addr as int, n * 1024)),
        reserved_by(
            "memmap="@ + (text::decimal(n).push('G') + seq!['$'] + ("0x"@ + text::hex(
                addr as int,
            ))),
        ) == Some((addr as int, n * 1_073_741_824)),
{
    lemma_reservation(n, addr, 'M');
    lemma_reservation(n, addr, 'K');
    lemma_reservation(n, addr, 'G');
}

proof fn lemma_reservation(n: int, addr: u64, suffix: char)
    requires
        0 < n <= u64::MAX,
        suffix == 'K' || suffix == 'M' || suffix == 'G',
    ensures
        reserved_by(
            "memmap="@ + (text::decimal(n).push(suffix) + seq!['$'] + ("0x"@ + text::hex(
                addr as int,
            ))),
        ) == Some((addr as int, n * crate::cli::unit_of(seq![suffix]))),
{
    reveal_strlit("memmap=");
    let size = text::decimal(n).push(suffix);
    let place = "0x"@ + text::hex(addr as int);
    let body = size + seq!['$'] + place;
    let word = "memmap="@ + body;
    assert(word.take(7) =~= "memmap="@);
    assert(word.skip(7) =~= body);
    text::lemma_decimal_digits(n);
    text::law_number_on_a_line_reads_back(n, u64::MAX as int);
    assert(48 <= text::decimal(n)[0] as int <= 57);
    assert(size[0] == text::decimal(n)[0]);
    text::lemma_trimmed_whole(size);
    assert(size.drop_last() =~= text::decimal(n));
    assert forall|i: int| 0 <= i < size.len() implies #[trigger] size[i] != '$' by {
        if i < size.len() - 1 {
            assert(size[i] == text::decimal(n)[i]);
        }
    }
    text::law_split_at_first(size, '$', place);
    physmem::law_hex_reads_back(addr, true);
    let unit = crate::cli::unit_of(size);
    assert(unit == crate::cli::unit_of(seq![suffix]));
    assert(n * unit > 0) by (nonlinear_arith)
        requires
            n > 0,
            unit > 0,
    ;
}

/// The reservations of a command line are those of its words, in order, each from its address
/// to the last byte of its size.
pub proof fn law_reservations_are_inclusive(words: Seq<Seq<char>>, n: int)
    requires
        0 < n <= words.len(),
        reservation_fits(words[n - 1]),
    ensures
        reserved_by(words[n - 1]) is None ==> reserved_ranges(words, n) == reserved_ranges(
            words,
            n - 1,
        ),
        reserved_by(words[n - 1]) matches Some((addr, size)) ==> {
            &&& size > 0
            &&& reserved_ranges(words, n).drop_last() == reserved_ranges(words, n - 1)
            &&& reserved_ranges(words, n).last().0 == addr
            &&& reserved_ranges(words, n).last().1 + 1 == addr + size
        },
{
    let word = words[n - 1];
    if let Some((addr, size)) = reserved_by(word) {
        let rest = reserved_ranges(words, n - 1);
        assert(reserved_ranges(words, n).drop_last() =~= rest);
        lemma_reserved_is_positive(word);
    }
}

proof fn lemma_reserved_is_positive(word: Seq<char>)
    ensures
        reserved_by(word) matches Some((addr, size)) ==> 0 <= addr && 0 < size,
{
    if let Some((addr, size)) = reserved_by(word) {
        let body = word.skip("memmap="@.len() as int);
        let (written, place) = text::split_at_first(body, '$')->0;
        let t = text::trimmed(written);
        let unit = crate::cli::unit_of(t);
        let digits = if unit > 1 {
            t.drop_last()
        } else {
            t
        };
        let count = text::number_up_to(digits, 10, u64::MAX as int)->0;
        lemma_number_is_natural(digits, 10);
        assert(count * unit >= 0) by (nonlinear_arith)
            requires
                count >= 0,
                unit >= 1,
        ;
        let at = text::trimmed(place);
        lemma_number_is_natural(at, 16);
        lemma_number_is_natural(at.skip(2), 16);
    }
}

proof fn lemma_number_is_natural(s: Seq<char>, radix: int)
    requires
        radix >= 2,
    ensures
        text::number_in(s, radix) matches Some(n) ==> n >= 0,
{
    text::lemma_digits_value_nonnegative(s, radix);
    text::lemma_digits_value_nonnegative(s.skip(1), radix);
}

/// The address of a byte.
pub open spec fn byte(p: int) -> int {
    p
}

/// Whether a region has all the bytes from `start` to `end`.
pub open spec fn has_all(region: (u64, u64), start: u64, end: u64) -> bool {
    forall|p: int| start <= p <= end ==> region.0 <= #[trigger] byte(p) <= region.1
}

/// The class of a range, byte by byte. It is reserved if and only if one region that the
/// kernel was told to leave alone has all its bytes. Otherwise it is System RAM if and only
/// if one of its bytes is, and firmware or devices if none is.
pub proof fn law_range_is_classed_by_its_bytes(
    start: u64,
    end: u64,
    reserved: Seq<(u64, u64)>,
    system_ram: Seq<(u64, u64)>,
)
    requires
        start <= end,
        forall|i: int| 0 <= i < system_ram.len() ==> (#[trigger] system_ram[i]).0 <= system_ram[i].1,
    ensures
        safety_of(start, end, reserved, system_ram) == Safety::Reserved <==> exists|i: int|
            0 <= i < reserved.len() && has_all(#[trigger] reserved[i], start, end),
        safety_of(start, end, reserved, system_ram) == Safety::SystemRam ==> exists|i: int, p: int|
            0 <= i < system_ram.len() && start <= p <= end && (#[trigger] system_ram[i]).0
                <= #[trigger] byte(p) <= system_ram[i].1,
        safety_of(start, end, reserved, system_ram) == Safety::FirmwareOrMmio ==> forall|
            i: int,
            p: int,
        |
            0 <= i < system_ram.len() && start <= p <= end ==> !((#[trigger] system_ram[i]).0
                <= #[trigger] byte(p) <= system_ram[i].1),
{
    if inside_one(start, end, reserved) {
        let i = choose|i: int|
            0 <= i < reserved.len() && (#[trigger] reserved[i]).0 <= start && end <= reserved[i].1;
        assert(has_all(reserved[i], start, end));
    }
    if exists|i: int| 0 <= i < reserved.len() && has_all(#[trigger] reserved[i], start, end) {
        let i = choose|i: int|
            0 <= i < reserved.len() && has_all(#[trigger] reserved[i], start, end);
        assert(reserved[i].0 <= byte(start as int) <= reserved[i].1);
        assert(reserved[i].0 <= byte(end as int) <= reserved[i].1);
    }
    if overlaps_one(start, end, system_ram) {
        let i = choose|i: int|
            0 <= i < system_ram.len() && start <= (#[trigger] system_ram[i]).1 && system_ram[i].0
                <= end;
        let p: int = if system_ram[i].0 <= start {
            start as int
        } else {
            system_ram[i].0 as int
        };
        assert(system_ram[i].0 <= byte(p) <= system_ram[i].1);
    }
}

/// What may be written, and when: a reserved range always, System RAM with the override only,
/// and firmware or devices never.
pub proof fn law_override_opens_ram_only(unsafe_override: bool)
    ensures
        may_write(Safety::Reserved, unsafe_override),
        may_write(Safety::SystemRam, unsafe_override) <==> unsafe_override,
        !may_write(Safety::FirmwareOrMmio, unsafe_override),
{
}

/// What is mapped is what was asked for: a range from its first byte to its last, if these
/// are whole pages, and otherwise none; or each reserved range, as reserved.
pub proof fn law_mapping_is_the_range(
    target: DevMemTarget,
    reserved: Seq<(u64, u64)>,
    system_ram: Seq<(u64, u64)>,
)
    requires
        target matches DevMemTarget::Range { start, end } ==> start <= end && end - start
            < usize::MAX,
        forall|i: int|
            0 <= i < reserved.len() ==> (#[trigger] reserved[i]).0 <= reserved[i].1
                && reserved[i].1 - reserved[i].0 < usize::MAX,
    ensures
        target matches DevMemTarget::Range { start, end } ==> {
            &&& mappings_of(target, reserved, system_ram) is Ok <==> start as int % 4096 == 0 && (end
                + 1) % 4096 == 0
            &&& mappings_of(target, reserved, system_ram) matches Ok(mappings) ==> mappings.len()
                == 1 && mappings[0].phys_start == start && mappings[0].phys_start + mappings[0].len
                == end + 1 && mappings[0].safety == safety_of(start, end, reserved, system_ram)
        },
        target == DevMemTarget::Reserved ==> {
            &&& mappings_of(target, reserved, system_ram) is Ok <==> reserved.len() > 0
            &&& mappings_of(target, reserved, system_ram) matches Ok(mappings) ==> mappings.len()
                == reserved.len() && forall|i: int|
                0 <= i < reserved.len() ==> (#[trigger] mappings[i]).phys_start == reserved[i].0
                    && mappings[i].phys_start + mappings[i].len == reserved[i].1 + 1
                    && mappings[i].safety == Safety::Reserved
        },
{
}

/// The words that are not zero, counted one by one.
pub proof fn law_nonzero_words_are_counted(words: Seq<u64>)
    ensures
        nonzero_count(words) == words.filter(|w: u64| w != 0).len(),
    decreases words.len(),
{
    reveal(Seq::filter);
    if words.len() > 0 {
        law_nonzero_words_are_counted(words.drop_last());
    }
}

/// What is said of a mapping warns exactly if it is refused or if memory in use is to be
/// written, and names its first and last byte each time.
pub proof fn law_danger_is_warned_of(mapping: Mapping, unsafe_override: bool)
    ensures
        ({
            let said = mapping_notices(mapping, unsafe_override);
            &&& said.len() > 0
            &&& said[0].0 == LogLevel::Warn <==> mapping.safety == Safety::FirmwareOrMmio || (
            mapping.safety == Safety::SystemRam && unsafe_override)
            &&& forall|i: int|
                0 <= i < said.len() ==> text::holds_text(
                    (#[trigger] said[i]).1,
                    "0x"@ + text::hex(mapping.phys_start as int) + "-0x"@ + text::hex(
                        mapping.phys_start + mapping.len - 1,
                    ),
                )
        }),
{
    let said = mapping_notices(mapping, unsafe_override);
    let extent = extent_text(mapping);
    let class = class_name(mapping.safety);
    assert forall|i: int| 0 <= i < said.len() implies text::holds_text(
        (#[trigger] said[i]).1,
        extent,
    ) by {
        let refused = "devmem: refusing "@;
        let testing = "devmem: write-testing physical "@;
        let live = "devmem: --devmem-unsafe write-testing LIVE System RAM "@;
        let probing = "devmem: read-only probe of physical "@;
        text::lemma_text_grows(refused, extent);
        text::lemma_text_grows(refused + extent, " ("@);
        text::lemma_text_grows(refused + extent + " ("@, class);
        text::lemma_text_grows(refused + extent + " ("@ + class, ") -- never safe to touch"@);
        text::lemma_text_grows(testing, extent);
        text::lemma_text_grows(testing + extent, " ("@);
        text::lemma_text_grows(testing + extent + " ("@, class);
        text::lemma_text_grows(testing + extent + " ("@ + class, ")"@);
        text::lemma_text_grows(live, extent);
        text::lemma_text_grows(
            live + extent,
            " -- this can corrupt the kernel and crash the machine"@,
        );
        text::lemma_text_grows(probing, extent);
        text::lemma_text_grows(probing + extent, " ("@);
        text::lemma_text_grows(probing + extent + " ("@, class);
        text::lemma_text_grows(
            probing + extent + " ("@ + class,
            "); pass --devmem-unsafe to write-test (DANGEROUS)"@,
        );
    }
}

/// The summary of a probe tells its size, how many words were read and how many of them
/// were not zero, and the checksum.
pub proof fn law_probe_line_tells_the_probe(size: Seq<char>, stats: ProbeStats)
    ensures
        text::holds_text(probe_line(size, stats), "probe: "@ + size),
        text::holds_text(
            probe_line(size, stats),
            text::decimal(stats.words_read as int) + " words, "@,
        ),
        text::holds_text(
            probe_line(size, stats),
            text::decimal(stats.nonzero_words as int) + " nonzero, checksum 0x"@ + text::hex16(
                stats.xor_checksum as int,
            ),
        ),
{
    let none = Seq::<char>::empty();
    let read = text::decimal(stats.words_read as int);
    let nonzero = text::decimal(stats.nonzero_words as int);
    let sum = text::hex16(stats.xor_checksum as int);
    let l0 = "probe: "@ + size;
    let l1 = l0 + " readable ("@;
    let l2 = l1 + read;
    let l3 = l2 + " words, "@;
    let l4 = l3 + nonzero;
    let l5 = l4 + " nonzero, checksum 0x"@;
    let l6 = l5 + sum;
    text::lemma_text_grows(l0, " readable ("@);
    text::lemma_text_grows(l1, read);
    text::lemma_text_grows(l2, " words, "@);
    text::lemma_holds_pieces(l1, read, " words, "@, none);
    text::lemma_text_grows(l3, nonzero);
    text::lemma_text_grows(l4, " nonzero, checksum 0x"@);
    text::lemma_text_grows(l5, sum);
    text::lemma_holds_pieces(l3, nonzero, " nonzero, checksum 0x"@, sum);
    text::lemma_text_grows(l6, ")"@);
}

/// A reservation without a unit is so many bytes, from one on; none at all is no
/// reservation.
pub proof fn law_reservations_count_bytes(n: int, addr: u64)
    requires
        0 <= n <= u64::MAX,
    ensures
        n > 0 ==> reserved_by(
            "memmap="@ + (text::decimal(n) + seq!['$'] + ("0x"@ + text::hex(addr as int))),
        ) == Some((addr as int, n)),
        n == 0 ==> reserved_by(
            "memmap="@ + (text::decimal(n) + seq!['$'] + ("0x"@ + text::hex(addr as int))),
        ) is None,
{
    reveal_strlit("memmap=");
    let size = text::decimal(n);
    let place = "0x"@ + text::hex(addr as int);
    let body = size + seq!['$'] + place;
    let word = "memmap="@ + body;
    assert(word.take(7) =~= "memmap="@);
    assert(word.skip(7) =~= body);
    text::lemma_decimal_digits(n);
    text::law_number_on_a_line_reads_back(n, u64::MAX as int);
    assert(48 <= size[0] as int <= 57);
    assert(48 <= size[size.len() - 1] as int <= 57);
    text::lemma_trimmed_whole(size);
    assert forall|i: int| 0 <= i < size.len() implies #[trigger] size[i] != '$' by {
        assert(48 <= size[i] as int <= 57);
    }
    text::law_split_at_first(size, '$', place);
    physmem::law_hex_reads_back(addr, true);
}

/// The checksum of a single word is the word, and words that come twice cancel out.
pub proof fn law_checksum_cancels(words: Seq<u64>, word: u64)
    ensures
        xor_of(seq![word]) == word,
        xor_of(words + words) == 0,
{
    assert(seq![word].drop_last() =~= Seq::empty());
    let none = xor_of(Seq::<u64>::empty());
    let x = xor_of(words);
    assert(0 ^ word == word && x ^ x == 0) by (bit_vector);
    lemma_stats_of_both(words, words);
}

/// The error about a range that is not aligned tells its start and its length.
pub proof fn law_error_tells_the_range(start: u64, len: usize)
    ensures
        text::holds_text(
            (DevMemError::Unaligned { start, len }).shown(),
            text::hex(start as int) + ", len 0x"@ + text::hex(len as int),
        ),
{
    let head = "--devmem range must be page-aligned (start 0x"@;
    let from = text::hex(start as int);
    let size = text::hex(len as int);
    text::lemma_holds_pieces(head, from, ", len 0x"@, size);
    text::lemma_text_grows(head + from + ", len 0x"@ + size, ")"@);
}

} // verus!
