//! The flag words of `/proc/kpageflags`: a flat array of 64-bit words indexed by
//! frame number.

use vstd::prelude::*;

use crate::bytes::{self, read_le_word, read_le_words};
use crate::physmem::pfn::PfnRange;

verus! {

/// Page is on a least-recently-used list.
pub const KPF_LRU: u64 = 0x20;

/// Page belongs to the slab allocator.
pub const KPF_SLAB: u64 = 0x80;

/// Page is free in the buddy allocator.
pub const KPF_BUDDY: u64 = 0x400;

/// Anonymous page.
pub const KPF_ANON: u64 = 0x1000;

/// Page is backed by swap.
pub const KPF_SWAPBACKED: u64 = 0x4000;

/// Part of a huge page.
pub const KPF_HUGE: u64 = 0x2_0000;

/// Page cannot be evicted.
pub const KPF_UNEVICTABLE: u64 = 0x4_0000;

/// Hardware detected memory corruption on this page.
pub const KPF_HWPOISON: u64 = 0x8_0000;

/// No page frame exists at this address.
pub const KPF_NOPAGE: u64 = 0x10_0000;

/// Part of a transparent huge page.
pub const KPF_THP: u64 = 0x40_0000;

/// Page is logically offline.
pub const KPF_OFFLINE: u64 = 0x80_0000;

/// Page holds a page table.
pub const KPF_PGTABLE: u64 = 0x400_0000;

/// Frames per batched read: 512 KiB of flag data.
pub const READ_BATCH_FRAMES: u64 = 65536;

/// The flags of one page frame. Bits without a name here are kept.
#[derive(Debug, Clone, Copy, PartialEq, Eq, Structural)]
pub struct KPageFlags {
    /// The flag word.
    pub raw: u64,
}

impl KPageFlags {
    /// No flag set.
    pub fn empty() -> (flags: Self)
        ensures
            flags.raw == 0,
    {
        KPageFlags { raw: 0 }
    }

    /// The flags of a raw word, unknown bits and all.
    pub fn from_bits_retain(word: u64) -> (flags: Self)
        ensures
            flags.raw == word,
    {
        KPageFlags { raw: word }
    }

    /// The raw word.
    pub fn bits(self) -> (word: u64)
        ensures
            word == self.raw,
    {
        self.raw
    }

    /// Whether no flag is set.
    pub fn is_empty(self) -> (b: bool)
        ensures
            b == (self.raw == 0),
    {
        self.raw == 0
    }

    /// Whether all bits of `mask` are set.
    pub open spec fn has(self, mask: u64) -> bool {
        self.raw & mask == mask
    }

    /// Whether some bit of `mask` is set.
    pub open spec fn has_any(self, mask: u64) -> bool {
        self.raw & mask != 0
    }

    /// Whether all bits of `mask` are set.
    pub fn contains(self, mask: u64) -> (b: bool)
        ensures
            b == self.has(mask),
    {
        self.raw & mask == mask
    }

    /// Whether some bit of `mask` is set.
    pub fn intersects(self, mask: u64) -> (b: bool)
        ensures
            b == self.has_any(mask),
    {
        self.raw & mask != 0
    }

    /// Part of a huge page.
    pub fn is_huge(self) -> (b: bool)
        ensures
            b == self.has(KPF_HUGE),
    {
        self.contains(KPF_HUGE)
    }

    /// Part of a transparent huge page.
    pub fn is_thp(self) -> (b: bool)
        ensures
            b == self.has(KPF_THP),
    {
        self.contains(KPF_THP)
    }

    /// Cannot be evicted.
    pub fn is_unevictable(self) -> (b: bool)
        ensures
            b == self.has(KPF_UNEVICTABLE),
    {
        self.contains(KPF_UNEVICTABLE)
    }

    /// Marked as corrupted by the hardware.
    pub fn is_hwpoison(self) -> (b: bool)
        ensures
            b == self.has(KPF_HWPOISON),
    {
        self.contains(KPF_HWPOISON)
    }
}

impl Default for KPageFlags {
    fn default() -> (flags: Self)
        ensures
            flags.raw == 0,
    {
        KPageFlags { raw: 0 }
    }
}

/// The flags in the eight bytes that were read for one frame.
pub fn parse_one(entry: &[u8]) -> (flags: KPageFlags)
    requires
        entry@.len() == 8,
    ensures
        flags.raw == bytes::le_word(entry@, 0),
{
    KPageFlags::from_bits_retain(read_le_word(entry, 0))
}

/// Where the flag words of `range` stand: byte offset and length. `None` if the
/// offset is not one that can be read at.
pub fn batch_extent(range: PfnRange) -> (extent: Option<(i64, usize)>)
    requires
        range.count * 8 <= u64::MAX,
        range.start.0 * 8 <= u64::MAX,
    ensures
        extent is Some <==> range.count * 8 <= usize::MAX && range.start.0 * 8 <= i64::MAX,
        extent matches Some((offset, len)) ==> offset == range.start.0 * 8 && len == range.count
            * 8,
{
    let len: u64 = range.count * 8;
    let offset: u64 = range.start.kpageflags_offset();
    if len > usize::MAX as u64 || offset > i64::MAX as u64 {
        None
    } else {
        Some((offset as i64, len as usize))
    }
}

/// The flag words in the bytes that were read for a range of frames.
pub fn parse_batch(scratch: &[u8]) -> (words: Vec<u64>)
    ensures
        words@ == bytes::le_words(scratch@),
{
    read_le_words(scratch)
}

} // verus!
