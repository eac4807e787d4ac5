//! Physical addresses, and how virtual ones resolve to them through
//! `/proc/self/pagemap`.

use vstd::prelude::*;
use vstd::string::StringExecFns;

use crate::bytes::{self, read_le_word};
use crate::failure;
use crate::physmem::kpageflags::{self, KPageFlags};
use crate::physmem::{self, PAGE_BYTES, PAGE_BYTES_USIZE};
use crate::text::{self, hex_string};

verus! {

/// A physical address. Newtype to prevent mixing with virtual addresses.
#[derive(Debug, Clone, Copy, PartialEq, Eq, PartialOrd, Ord, Hash, Structural)]
pub struct PhysAddr(pub u64);

impl PhysAddr {
    /// The page frame number.
    pub fn pfn(self) -> (pfn: u64)
        ensures
            pfn == self.0 / PAGE_BYTES,
    {
        let addr: u64 = self.0;
        assert(addr >> 12u64 == addr / 4096) by (bit_vector);
        addr >> 12
    }

    /// The offset within the page.
    pub fn page_offset(self) -> (offset: u64)
        ensures
            offset == self.0 % PAGE_BYTES,
    {
        let addr: u64 = self.0;
        assert(addr & 0xFFF == addr % 4096) by (bit_vector);
        addr & 0xFFF
    }

    /// How the address is written: hexadecimal with its prefix.
    pub open spec fn shown(self) -> Seq<char> {
        "0x"@ + text::hex(self.0 as int)
    }

    /// The address in hexadecimal, with its prefix.
    pub fn to_string(&self) -> (s: String)
        ensures
            s@ == self.shown(),
    {
        let mut s = String::new();
        s.append("0x");
        s.append(&hex_string(self.0));
        assert(s@ =~= self.shown());
        s
    }

    /// The address in hexadecimal with capital letters, without a prefix.
    pub fn upper_hex(&self) -> (s: String)
        ensures
            s@ == text::upper(text::hex(self.0 as int)),
    {
        text::upper_string(&hex_string(self.0))
    }
}

/// Frame number and offset make up the address.
pub proof fn law_pfn_and_offset_make_the_address(addr: PhysAddr)
    ensures
        (addr.0 / PAGE_BYTES) * PAGE_BYTES + addr.0 % PAGE_BYTES == addr.0,
{
}

/// What kind of I/O failure it was, as far as it matters here.
#[derive(Debug, Clone, Copy, PartialEq, Eq, Structural)]
pub enum IoKind {
    /// The file does not exist.
    NotFound,
    /// The operation lacks a privilege.
    PermissionDenied,
    /// The file ended too early.
    UnexpectedEof,
    /// A parameter was not valid.
    InvalidInput,
    /// What was read makes no sense.
    InvalidData,
    /// Anything else.
    Other,
}

/// An I/O failure.
#[derive(Debug, PartialEq, Eq)]
pub struct IoFailure {
    /// What kind it was.
    pub kind: IoKind,
    /// What the system says of it.
    pub message: String,
}

/// Why a page could not be resolved.
#[derive(Debug, PartialEq, Eq)]
pub enum PhysError {
    /// `/proc/self/pagemap` could not be opened.
    OpenPagemap {
        /// Why.
        source: IoFailure,
    },
    /// Pagemap entries could not be read.
    ReadPagemap {
        /// Why.
        source: IoFailure,
    },
    /// The page is not part of the mapped region.
    PageNotPresent {
        /// Virtual address asked for.
        vaddr: usize,
    },
    /// The kernel does not disclose the frame.
    PfnUnavailable {
        /// Virtual address asked for.
        vaddr: usize,
    },
    /// `/proc/kpageflags` could not be opened.
    OpenKpageflags {
        /// Why.
        source: IoFailure,
    },
    /// Flag words could not be read.
    ReadKpageflags {
        /// Why.
        source: IoFailure,
    },
}

impl PhysError {
    /// How the error reads.
    pub open spec fn shown(&self) -> Seq<char> {
        match self {
            PhysError::OpenPagemap { source } => "failed to open /proc/self/pagemap: "@
                + source.message@,
            PhysError::ReadPagemap { source } => "failed to read pagemap entries: "@
                + source.message@,
            PhysError::PageNotPresent { vaddr } => "page not present at virtual address 0x"@
                + text::hex(*vaddr as int),
            PhysError::PfnUnavailable { vaddr } =>
                "PFN not available (requires CAP_SYS_ADMIN) at virtual address 0x"@ + text::hex(
                *vaddr as int,
            ),
            PhysError::OpenKpageflags { source } => "failed to open /proc/kpageflags: "@
                + source.message@,
            PhysError::ReadKpageflags { source } => "failed to read kpageflags: "@
                + source.message@,
        }
    }

    /// How the error reads.
    pub fn to_string(&self) -> (s: String)
        ensures
            s@ == self.shown(),
    {
        let mut s = String::new();
        match self {
            PhysError::OpenPagemap { source } => {
                s.append("failed to open /proc/self/pagemap: ");
                s.append(&source.message);
            },
            PhysError::ReadPagemap { source } => {
                s.append("failed to read pagemap entries: ");
                s.append(&source.message);
            },
            PhysError::PageNotPresent { vaddr } => {
                s.append("page not present at virtual address 0x");
                s.append(&hex_string(*vaddr as u64));
            },
            PhysError::PfnUnavailable { vaddr } => {
                s.append("PFN not available (requires CAP_SYS_ADMIN) at virtual address 0x");
                s.append(&hex_string(*vaddr as u64));
            },
            PhysError::OpenKpageflags { source } => {
                s.append("failed to open /proc/kpageflags: ");
                s.append(&source.message);
            },
            PhysError::ReadKpageflags { source } => {
                s.append("failed to read kpageflags: ");
                s.append(&source.message);
            },
        }
        assert(s@ =~= self.shown());
        s
    }
}

/// Why physical address resolution could not be set up.
///
/// `PermissionDenied` is actionable, `Unavailable` is informational, and
/// `ReadError` is unexpected.
#[derive(Debug, PartialEq, Eq)]
pub enum PhysResolverError {
    /// The process lacks the privilege to open `/proc/self/pagemap`.
    PermissionDenied {
        /// What happened.
        source: PhysError,
    },
    /// `/proc/self/pagemap` is not available on this system.
    Unavailable {
        /// What happened.
        source: PhysError,
    },
    /// An unexpected I/O failure while building the page map.
    ReadError {
        /// What happened.
        source: PhysError,
    },
}

impl PhysResolverError {
    /// Classify an error from opening `/proc/self/pagemap`: a lacking privilege,
    /// or anything else.
    pub fn from_open(e: PhysError) -> (r: Self)
        ensures
            (e matches PhysError::OpenPagemap { source } && source.kind
                == IoKind::PermissionDenied) ==> r == (PhysResolverError::PermissionDenied {
                source: e,
            }),
            !(e matches PhysError::OpenPagemap { source } && source.kind
                == IoKind::PermissionDenied) ==> r == (PhysResolverError::Unavailable {
                source: e,
            }),
    {
        let denied: bool = match &e {
            PhysError::OpenPagemap { source } => source.kind == IoKind::PermissionDenied,
            _ => false,
        };
        if denied {
            PhysResolverError::PermissionDenied { source: e }
        } else {
            PhysResolverError::Unavailable { source: e }
        }
    }

    /// Classify an error from building the page map.
    pub fn from_build(e: PhysError) -> (r: Self)
        ensures
            r == (PhysResolverError::ReadError { source: e }),
    {
        PhysResolverError::ReadError { source: e }
    }

    /// How the error reads.
    pub open spec fn shown(&self) -> Seq<char> {
        match self {
            PhysResolverError::PermissionDenied { source } =>
                "pagemap access denied (requires CAP_SYS_ADMIN or root): "@ + source.shown(),
            PhysResolverError::Unavailable { source } => "pagemap unavailable: "@ + source.shown(),
            PhysResolverError::ReadError { source } => "failed to build page map: "@
                + source.shown(),
        }
    }

    /// How the error reads.
    pub fn to_string(&self) -> (s: String)
        ensures
            s@ == self.shown(),
    {
        let mut s = String::new();
        match self {
            PhysResolverError::PermissionDenied { source } => {
                s.append("pagemap access denied (requires CAP_SYS_ADMIN or root): ");
                s.append(&source.to_string());
            },
            PhysResolverError::Unavailable { source } => {
                s.append("pagemap unavailable: ");
                s.append(&source.to_string());
            },
            PhysResolverError::ReadError { source } => {
                s.append("failed to build page map: ");
                s.append(&source.to_string());
            },
        }
        assert(s@ =~= self.shown());
        s
    }
}

/// The frame in a pagemap entry: bit 63 says that the page is present, bit 62
/// that it is swapped out, and the low 55 bits hold the frame. A present page
/// with frame zero means that the kernel does not disclose it.
pub open spec fn frame_in(entry: u64) -> Option<u64> {
    let pfn = entry % 0x80_0000_0000_0000;
    if !failure::bit(entry, 63) || failure::bit(entry, 62) || pfn == 0 {
        None
    } else {
        Some(pfn)
    }
}

/// The frame in a pagemap entry, if the page is present.
pub fn parse_pagemap_entry(entry: u64) -> (pfn: Option<u64>)
    ensures
        pfn == frame_in(entry),
{
    assert((entry & 0x8000_0000_0000_0000 == 0) == !((entry >> 63) & 1 == 1)) by (bit_vector);
    assert((entry & 0x4000_0000_0000_0000 != 0) == ((entry >> 62) & 1 == 1)) by (bit_vector);
    assert(entry & 0x7f_ffff_ffff_ffff == entry % 0x80_0000_0000_0000) by (bit_vector);
    if entry & 0x8000_0000_0000_0000 == 0 {
        return None;
    }
    if entry & 0x4000_0000_0000_0000 != 0 {
        return None;
    }
    let pfn: u64 = entry & 0x7f_ffff_ffff_ffff;
    if pfn == 0 {
        return None;
    }
    Some(pfn)
}

/// The entry of a present page gives back its frame: of any frame number above zero
/// that fits in 55 bits, put in the low bits, with bit 63 set and bit 62 clear, whatever
/// the seven bits between say.
pub proof fn law_frame_round_trip(entry: u64, pfn: u64, between: u64)
    requires
        0 < pfn < 0x80_0000_0000_0000,
        between < 128,
        entry == 0x8000_0000_0000_0000 + between * 0x80_0000_0000_0000 + pfn,
    ensures
        frame_in(entry) == Some(pfn),
{
    lemma_top_bits(entry);
}

/// No frame comes of an entry whose bit 63 is clear, whose bit 62 is set, or whose low 55
/// bits are all clear; one comes of every other.
pub proof fn law_absent_page_has_no_frame(entry: u64)
    ensures
        frame_in(entry) is None <==> entry < 0x8000_0000_0000_0000 || entry
            >= 0xC000_0000_0000_0000 || entry as int % 0x80_0000_0000_0000 == 0,
{
    lemma_top_bits(entry);
}

/// Entries that differ in their low 55 bits have different frames, and others have the
/// same.
pub proof fn law_frames_are_told_apart(a: u64, b: u64)
    requires
        frame_in(a) is Some,
        frame_in(b) is Some,
    ensures
        frame_in(a) == frame_in(b) <==> (a - b) % 0x80_0000_0000_0000 == 0,
{
}

/// The two top bits of a word, by its size.
proof fn lemma_top_bits(entry: u64)
    ensures
        failure::bit(entry, 63) <==> entry >= 0x8000_0000_0000_0000,
        failure::bit(entry, 62) <==> (0x4000_0000_0000_0000 <= entry < 0x8000_0000_0000_0000
            || entry >= 0xC000_0000_0000_0000),
{
    assert((((entry >> 63u64) & 1 == 1) <==> entry >= 0x8000_0000_0000_0000) && (((entry >> 62u64)
        & 1 == 1) <==> ((0x4000_0000_0000_0000 <= entry && entry < 0x8000_0000_0000_0000) || entry
        >= 0xC000_0000_0000_0000))) by (bit_vector);
}

/// The frame in a pagemap entry, zero where there is none.
pub open spec fn frame_or_zero(entry: u64) -> u64 {
    match frame_in(entry) {
        Some(pfn) => pfn,
        None => 0,
    }
}

/// The frames in a run of pagemap entries, zero where there is none.
pub open spec fn frames_in(entries: Seq<u8>) -> Seq<u64> {
    Seq::new(entries.len() / 8, |i: int| frame_or_zero(bytes::le_word(entries, i * 8)))
}

/// The frames in a run of pagemap entries, one per page in virtual order, zero
/// where there is none.
pub fn parse_pagemap(entries: &[u8]) -> (pfns: Vec<u64>)
    ensures
        pfns@ == frames_in(entries@),
{
    let len: usize = entries.len();
    let count: usize = len / 8;
    let mut pfns: Vec<u64> = Vec::new();
    let mut i: usize = 0;
    while i < count
        invariant
            i <= count,
            len == entries@.len(),
            count == len / 8,
            pfns@.len() == i,
            forall|k: int|
                0 <= k < i ==> #[trigger] pfns@[k] == frame_or_zero(
                    bytes::le_word(entries@, k * 8),
                ),
        decreases count - i,
    {
        let pfn: u64 = match parse_pagemap_entry(read_le_word(entries, i * 8)) {
            Some(pfn) => pfn,
            None => 0,
        };
        pfns.push(pfn);
        i = i + 1;
    }
    assert(pfns@ =~= frames_in(entries@));
    pfns
}

/// Where the pagemap entries of a virtual region stand, and how many bytes they
/// take: eight bytes for each whole page.
pub fn pagemap_extent(base: usize, len: usize) -> (extent: (u64, usize))
    ensures
        extent.0 == (base / PAGE_BYTES_USIZE) * 8,
        extent.1 == (len / PAGE_BYTES_USIZE) * 8,
{
    let start_vpn: usize = base / PAGE_BYTES_USIZE;
    let page_count: usize = len / PAGE_BYTES_USIZE;
    (start_vpn as u64 * 8, page_count * 8)
}

/// Statistics from building the page map.
#[derive(Debug, Clone, Copy, PartialEq, Eq, Structural)]
pub struct MapStats {
    /// Pages in the region.
    pub total_pages: usize,
    /// Pages that resolved to a frame: the memory actually tested.
    pub resolved_pages: usize,
    /// Pages that are part of a huge page.
    pub huge_pages: usize,
    /// Pages that are part of a transparent huge page.
    pub thp_pages: usize,
    /// Pages marked as corrupted by the hardware.
    pub hwpoison_pages: usize,
    /// Pages that cannot be evicted.
    pub unevictable_pages: usize,
}

impl MapStats {
    /// Physical bytes backed by resolved frames: the numerator of coverage.
    pub fn tested_bytes(&self) -> (bytes: u64)
        requires
            self.resolved_pages * PAGE_BYTES <= u64::MAX,
        ensures
            bytes == self.resolved_pages * PAGE_BYTES,
    {
        self.resolved_pages as u64 * PAGE_BYTES
    }
}

/// How many of the first `n` frames are resolved.
pub open spec fn resolved_among(pfns: Seq<u64>, n: int) -> int
    decreases n,
{
    if n <= 0 {
        0
    } else {
        resolved_among(pfns, n - 1) + (if pfns[n - 1] != 0 {
            1int
        } else {
            0int
        })
    }
}

/// How many of the first `n` frames are resolved, have flags that could be read,
/// and have `mask` set in them.
pub open spec fn flagged_among(
    pfns: Seq<u64>,
    flags: Seq<Option<KPageFlags>>,
    mask: u64,
    n: int,
) -> int
    decreases n,
{
    if n <= 0 {
        0
    } else {
        flagged_among(pfns, flags, mask, n - 1) + (if pfns[n - 1] != 0 && (flags[n - 1] matches Some(
            f,
        ) && f.has(mask)) {
            1int
        } else {
            0int
        })
    }
}

/// Count the pages of a region by what the flags of their frames say. `flags`
/// holds those of each page, or `None` where they could not be read.
pub fn map_stats(pfns: &[u64], flags: &[Option<KPageFlags>]) -> (stats: MapStats)
    requires
        pfns@.len() == flags@.len(),
    ensures
        stats.total_pages == pfns@.len(),
        stats.resolved_pages == resolved_among(pfns@, pfns@.len() as int),
        stats.huge_pages == flagged_among(
            pfns@,
            flags@,
            kpageflags::KPF_HUGE,
            pfns@.len() as int,
        ),
        stats.thp_pages == flagged_among(pfns@, flags@, kpageflags::KPF_THP, pfns@.len() as int),
        stats.hwpoison_pages == flagged_among(
            pfns@,
            flags@,
            kpageflags::KPF_HWPOISON,
            pfns@.len() as int,
        ),
        stats.unevictable_pages == flagged_among(
            pfns@,
            flags@,
            kpageflags::KPF_UNEVICTABLE,
            pfns@.len() as int,
        ),
{
    let count: usize = pfns.len();
    let mut stats = MapStats {
        total_pages: count,
        resolved_pages: 0,
        huge_pages: 0,
        thp_pages: 0,
        hwpoison_pages: 0,
        unevictable_pages: 0,
    };
    let mut i: usize = 0;
    while i < count
        invariant
            i <= count,
            count == pfns@.len(),
            count == flags@.len(),
            stats.total_pages == count,
            stats.resolved_pages <= i,
            stats.huge_pages <= i,
            stats.thp_pages <= i,
            stats.hwpoison_pages <= i,
            stats.unevictable_pages <= i,
            stats.resolved_pages == resolved_among(pfns@, i as int),
            stats.huge_pages == flagged_among(pfns@, flags@, kpageflags::KPF_HUGE, i as int),
            stats.thp_pages == flagged_among(pfns@, flags@, kpageflags::KPF_THP, i as int),
            stats.hwpoison_pages == flagged_among(
                pfns@,
                flags@,
                kpageflags::KPF_HWPOISON,
                i as int,
            ),
            stats.unevictable_pages == flagged_among(
                pfns@,
                flags@,
                kpageflags::KPF_UNEVICTABLE,
                i as int,
            ),
        decreases count - i,
    {
        if pfns[i] != 0 {
            stats.resolved_pages = stats.resolved_pages + 1;
            if let Some(f) = flags[i] {
                if f.is_huge() {
                    stats.huge_pages = stats.huge_pages + 1;
                }
                if f.is_thp() {
                    stats.thp_pages = stats.thp_pages + 1;
                }
                if f.is_hwpoison() {
                    stats.hwpoison_pages = stats.hwpoison_pages + 1;
                }
                if f.is_unevictable() {
                    stats.unevictable_pages = stats.unevictable_pages + 1;
                }
            }
        }
        i = i + 1;
    }
    stats
}

/// Resolves virtual addresses within a locked region to physical addresses.
pub trait PhysResolver {
    /// Build the internal mapping for a contiguous virtual region. Called once
    /// after the region was locked and written.
    fn build_map(&mut self, base: usize, len: usize) -> Result<MapStats, PhysError>;

    /// Resolve a single virtual address to a physical address.
    fn resolve(&self, vaddr: usize) -> Result<PhysAddr, PhysError>;

    /// The flags of a frame.
    fn page_flags(&self, pfn: u64) -> Result<KPageFlags, PhysError>;

    /// Verify that the mapping has not changed since it was built. Returns the
    /// number of pages whose frame changed.
    fn verify_stability(&self, base: usize, len: usize) -> Result<usize, PhysError>;
}

/// The resolved frames of one virtual region.
#[derive(Debug)]
pub struct PageMap {
    /// Frame of each page in virtual order; zero where it is not known.
    pub pfns: Vec<u64>,
    /// Base virtual address of the region.
    pub region_base: usize,
}

/// How many of the first `n` pages have another frame than before.
pub open spec fn changed_among(before: Seq<u64>, now: Seq<u64>, n: int) -> int
    decreases n,
{
    if n <= 0 {
        0
    } else {
        changed_among(before, now, n - 1) + (if now[n - 1] != before[n - 1] {
            1int
        } else {
            0int
        })
    }
}

/// What a virtual address resolves to, given the frames of a region.
pub open spec fn resolved(
    pfns: Seq<u64>,
    region_base: usize,
    vaddr: usize,
) -> Result<PhysAddr, PhysError> {
    let page = (vaddr - region_base) / (PAGE_BYTES_USIZE as int);
    if vaddr < region_base || page >= pfns.len() {
        Err(PhysError::PageNotPresent { vaddr })
    } else if pfns[page] == 0 {
        Err(PhysError::PfnUnavailable { vaddr })
    } else {
        Ok(PhysAddr((pfns[page] << 12u64) | (vaddr as u64 & 0xFFF)))
    }
}

impl PageMap {
    /// No region mapped yet.
    pub fn new() -> (map: Self)
        ensures
            map.pfns@.len() == 0,
            map.region_base == 0,
    {
        PageMap { pfns: Vec::new(), region_base: 0 }
    }

    /// The map of the region at `base`, from its pagemap entries.
    pub fn from_entries(base: usize, entries: &[u8]) -> (map: Self)
        ensures
            map.pfns@ == frames_in(entries@),
            map.region_base == base,
    {
        PageMap { pfns: parse_pagemap(entries), region_base: base }
    }

    /// Frame numbers for each page of the region, in virtual order; zero where
    /// unresolved.
    pub fn pfns(&self) -> (pfns: &[u64])
        ensures
            pfns@ == self.pfns@,
    {
        self.pfns.as_slice()
    }

    /// Resolve a virtual address.
    pub fn resolve(&self, vaddr: usize) -> (r: Result<PhysAddr, PhysError>)
        ensures
            r == resolved(self.pfns@, self.region_base, vaddr),
    {
        if vaddr < self.region_base {
            return Err(PhysError::PageNotPresent { vaddr });
        }
        let page: usize = (vaddr - self.region_base) / PAGE_BYTES_USIZE;
        if page >= self.pfns.len() {
            return Err(PhysError::PageNotPresent { vaddr });
        }
        let pfn: u64 = self.pfns[page];
        if pfn == 0 {
            return Err(PhysError::PfnUnavailable { vaddr });
        }
        let offset: u64 = vaddr as u64 & 0xFFF;
        Ok(PhysAddr((pfn << 12u64) | offset))
    }

    /// How many pages have another frame now, given the pagemap entries read
    /// again.
    pub fn changed_pages(&self, entries: &[u8]) -> (changed: usize)
        requires
            entries@.len() / 8 <= self.pfns@.len(),
        ensures
            changed == changed_among(
                self.pfns@,
                frames_in(entries@),
                frames_in(entries@).len() as int,
            ),
    {
        let now = parse_pagemap(entries);
        let mut changed: usize = 0;
        let mut i: usize = 0;
        while i < now.len()
            invariant
                i <= now@.len(),
                now@ == frames_in(entries@),
                now@.len() <= self.pfns@.len(),
                changed <= i,
                changed == changed_among(self.pfns@, now@, i as int),
            decreases now@.len() - i,
        {
            if now[i] != self.pfns[i] {
                changed = changed + 1;
            }
            i = i + 1;
        }
        changed
    }
}

/// An address resolves to its frame's address plus its offset in the page, for
/// every frame that has an address.
pub proof fn law_resolved_address(pfns: Seq<u64>, region_base: usize, vaddr: usize)
    ensures
        resolved(pfns, region_base, vaddr) matches Ok(addr) ==> {
            let pfn = pfns[(vaddr - region_base) / (PAGE_BYTES_USIZE as int)];
            pfn < 0x10_0000_0000_0000 ==> addr.0 == pfn * PAGE_BYTES + vaddr % PAGE_BYTES_USIZE
        },
{
    let page = (vaddr - region_base) / (PAGE_BYTES_USIZE as int);
    if region_base <= vaddr && page < pfns.len() {
        let pfn = pfns[page];
        let v = vaddr as u64;
        assert(pfn < 0x10_0000_0000_0000 ==> (pfn << 12u64) | (v & 0xFFF) == pfn * 4096 + v % 4096)
            by (bit_vector);
    }
}

/// The way of an address through the pagemap: if the entry of its page, eight bytes with
/// the lowest first, says that the page is present in frame `pfn`, the address resolves to
/// the start of that frame plus the address's place in its page.
pub proof fn law_address_resolves_through_its_entry(
    entries: Seq<u8>,
    base: usize,
    vaddr: usize,
    page: int,
    pfn: u64,
    between: u64,
)
    requires
        0 < pfn < 0x10_0000_0000_0000,
        between < 128,
        0 <= page,
        base + 4096 * page <= vaddr < base + 4096 * (page + 1),
        8 * page + 8 <= entries.len(),
        entries[8 * page] + 256 * entries[8 * page + 1] + 65536 * entries[8 * page + 2] + 16777216
            * entries[8 * page + 3] + 4294967296 * entries[8 * page + 4] + 1099511627776
            * entries[8 * page + 5] + 281474976710656 * entries[8 * page + 6] + 72057594037927936
            * entries[8 * page + 7] == 0x8000_0000_0000_0000 + between * 0x80_0000_0000_0000 + pfn,
    ensures
        resolved(frames_in(entries), base, vaddr) == Ok::<PhysAddr, PhysError>(
            PhysAddr((4096 * pfn + vaddr % 4096) as u64),
        ),
        4096 * pfn + vaddr % 4096 <= u64::MAX,
{
    let entry = bytes::le_word(entries, page * 8);
    law_frame_round_trip(entry, pfn, between);
    let pfns = frames_in(entries);
    assert(page < entries.len() / 8);
    assert(pfns[page] == pfn);
    assert((vaddr - base) / 4096 == page);
    law_resolved_address(pfns, base, vaddr);
}

/// Pages that were read again count as changed, each once, where the frame is another.
pub proof fn law_changed_pages_are_counted(before: Seq<u64>, now: Seq<u64>)
    requires
        now.len() <= before.len(),
    ensures
        changed_among(before, now, now.len() as int) == Seq::new(
            now.len(),
            |i: int| i,
        ).filter(|i: int| before[i] != now[i]).len(),
{
    lemma_changed_are_filtered(before, now, now.len() as int);
}

proof fn lemma_changed_are_filtered(before: Seq<u64>, now: Seq<u64>, n: int)
    requires
        0 <= n <= now.len() <= before.len(),
    ensures
        changed_among(before, now, n) == Seq::new(n as nat, |i: int| i).filter(
            |i: int| before[i] != now[i],
        ).len(),
    decreases n,
{
    reveal(Seq::filter);
    let differs = |i: int| before[i] != now[i];
    let all = Seq::new(n as nat, |i: int| i);
    if n > 0 {
        lemma_changed_are_filtered(before, now, n - 1);
        assert(all.drop_last() =~= Seq::new((n - 1) as nat, |i: int| i));
        assert(all.last() == n - 1);
    }
}

/// Pages that were read again with the same entries have not changed.
pub proof fn law_same_entries_are_stable(pfns: Seq<u64>, n: int)
    ensures
        changed_among(pfns, pfns, n) == 0,
    decreases n,
{
    if n > 0 {
        law_same_entries_are_stable(pfns, n - 1);
    }
}

/// What a reader of exactly `len` bytes does next.
#[derive(Debug, PartialEq, Eq, Clone, Copy, Structural)]
pub enum ReadStep {
    /// Everything is there.
    Done,
    /// Read up to `want` bytes at file offset `at` into the buffer from `skip`.
    Read {
        /// File offset.
        at: i64,
        /// Bytes already there.
        skip: usize,
        /// Bytes still missing.
        want: usize,
    },
    /// The file offset would overflow.
    Overflow,
}

/// What a single read means to a reader of exactly `len` bytes.
#[derive(Debug, PartialEq, Eq, Clone, Copy, Structural)]
pub enum ReadResult {
    /// Some bytes came; go on.
    Progress,
    /// The file ended too early.
    Eof,
}

/// Reads exactly `len` bytes at a file offset, by reading on after short reads.
#[derive(Debug)]
pub struct ReadCursor {
    /// File offset of the first byte.
    pub offset: i64,
    /// Bytes wanted.
    pub len: usize,
    /// Bytes there so far.
    pub total: usize,
}

impl ReadCursor {
    /// Nothing read yet.
    pub fn new(offset: i64, len: usize) -> (cursor: Self)
        ensures
            cursor.offset == offset,
            cursor.len == len,
            cursor.total == 0,
    {
        ReadCursor { offset, len, total: 0 }
    }

    /// What to do next.
    pub fn next_step(&self) -> (step: ReadStep)
        requires
            self.total <= self.len,
        ensures
            step == (if self.total == self.len {
                ReadStep::Done
            } else if self.offset + self.total > i64::MAX {
                ReadStep::Overflow
            } else {
                ReadStep::Read {
                    at: (self.offset + self.total) as i64,
                    skip: self.total,
                    want: (self.len - self.total) as usize,
                }
            }),
    {
        if self.total >= self.len {
            return ReadStep::Done;
        }
        let sum: i128 = self.offset as i128 + self.total as i128;
        if sum > i64::MAX as i128 {
            return ReadStep::Overflow;
        }
        ReadStep::Read { at: sum as i64, skip: self.total, want: self.len - self.total }
    }

    /// Take note of a read that gave `n` bytes.
    pub fn advance(&mut self, n: usize) -> (result: ReadResult)
        requires
            old(self).total + n <= old(self).len,
        ensures
            final(self).offset == old(self).offset,
            final(self).len == old(self).len,
            final(self).total == old(self).total + n,
            result == (if n == 0 {
                ReadResult::Eof
            } else {
                ReadResult::Progress
            }),
    {
        if n == 0 {
            return ReadResult::Eof;
        }
        self.total = self.total + n;
        ReadResult::Progress
    }
}

/// The pages counted as resolved are those with a frame, and a page is counted for a flag
/// if it has a frame, its flags could be read, and the flag is set in them.
pub proof fn law_pages_are_counted(
    pfns: Seq<u64>,
    flags: Seq<Option<KPageFlags>>,
    mask: u64,
    n: int,
)
    requires
        0 <= n <= pfns.len(),
        pfns.len() == flags.len(),
    ensures
        resolved_among(pfns, n) == pfns.take(n).filter(|pfn: u64| pfn != 0).len(),
        flagged_among(pfns, flags, mask, n) == Seq::new(n as nat, |i: int| i).filter(
            |i: int| pfns[i] != 0 && flags[i] is Some && flags[i]->0.raw & mask == mask,
        ).len(),
    decreases n,
{
    reveal(Seq::filter);
    if n > 0 {
        law_pages_are_counted(pfns, flags, mask, n - 1);
        assert(pfns.take(n).drop_last() =~= pfns.take(n - 1));
        let all = Seq::new(n as nat, |i: int| i);
        assert(all.drop_last() =~= Seq::new((n - 1) as nat, |i: int| i));
        assert(all.last() == n - 1);
    }
}

/// The flags that pages are counted by stand where the kernel has them: bit 17 for huge
/// pages, 18 for pages that cannot be evicted, 19 for poisoned ones and 22 for transparent
/// huge pages.
pub proof fn law_flags_stand_where_the_kernel_has_them(flags: KPageFlags)
    ensures
        flags.has(kpageflags::KPF_HUGE) <==> failure::bit(flags.raw, 17),
        flags.has(kpageflags::KPF_UNEVICTABLE) <==> failure::bit(flags.raw, 18),
        flags.has(kpageflags::KPF_HWPOISON) <==> failure::bit(flags.raw, 19),
        flags.has(kpageflags::KPF_THP) <==> failure::bit(flags.raw, 22),
{
    let raw = flags.raw;
    assert((raw & 0x2_0000u64 == 0x2_0000u64 <==> (raw >> 17u64) & 1 == 1) && (raw & 0x4_0000u64
        == 0x4_0000u64 <==> (raw >> 18u64) & 1 == 1) && (raw & 0x8_0000u64 == 0x8_0000u64 <==> (raw
        >> 19u64) & 1 == 1) && (raw & 0x40_0000u64 == 0x40_0000u64 <==> (raw >> 22u64) & 1 == 1))
        by (bit_vector);
}

/// An address resolves if and only if it is in the region and its page has a frame: it is
/// not present outside the region, and its frame is not available if it is zero.
pub proof fn law_what_does_not_resolve(pfns: Seq<u64>, region_base: usize, vaddr: usize)
    ensures
        resolved(pfns, region_base, vaddr) == Err::<PhysAddr, PhysError>(
            PhysError::PageNotPresent { vaddr },
        ) <==> vaddr < region_base || vaddr >= region_base + 4096 * pfns.len(),
        resolved(pfns, region_base, vaddr) == Err::<PhysAddr, PhysError>(
            PhysError::PfnUnavailable { vaddr },
        ) <==> region_base <= vaddr < region_base + 4096 * pfns.len() && pfns[(vaddr - region_base)
            / 4096] == 0,
{
}

/// An address is shown in hexadecimal behind `0x`, without zeros in front, and reads back
/// as itself.
pub proof fn law_shown_address_reads_back(addr: PhysAddr)
    ensures
        physmem::hex_in(addr.shown(), true) == Some(addr.0 as int),
        addr.shown().take(2) == "0x"@,
        addr.0 > 0 ==> addr.shown()[2] != '0',
{
    reveal_strlit("0x");
    physmem::law_hex_reads_back(addr.0, true);
    assert(addr.shown().take(2) =~= "0x"@);
    if addr.0 > 0 {
        text::lemma_no_zero_in_front(addr.0 as int, 16);
        text::law_digits_read_back(addr.0 as int, 16);
        assert(addr.shown()[2] == text::hex(addr.0 as int)[0]);
    }
}

} // verus!
