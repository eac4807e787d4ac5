//! Physical addresses and the flags of a page.

use crate::physmem::kpageflags::{KPF_HUGE, KPF_HWPOISON, KPF_THP, KPF_UNEVICTABLE};
use vstd::prelude::*;

pub use crate::physmem::phys::{
    parse_pagemap_entry, MapStats, PhysAddr, PhysError, PhysResolver,
};

verus! {

/// The flag word of one page, as the kernel gives it.
#[derive(Debug, Clone, Copy, PartialEq, Eq, Structural)]
pub struct PageFlags {
    pub raw: u64,
}

impl Default for PageFlags {
    fn default() -> (flags: Self)
        ensures
            flags.raw == 0,
    {
        PageFlags { raw: 0 }
    }
}

impl PageFlags {
    /// Whether the page is part of a huge page.
    pub fn is_huge(self) -> (b: bool)
        ensures
            b == (self.raw & KPF_HUGE != 0),
    {
        self.raw & KPF_HUGE != 0
    }

    /// Whether the page is part of a transparent huge page.
    pub fn is_thp(self) -> (b: bool)
        ensures
            b == (self.raw & KPF_THP != 0),
    {
        self.raw & KPF_THP != 0
    }

    /// Whether the page cannot be evicted.
    pub fn is_unevictable(self) -> (b: bool)
        ensures
            b == (self.raw & KPF_UNEVICTABLE != 0),
    {
        self.raw & KPF_UNEVICTABLE != 0
    }

    /// Whether the hardware marked the page as corrupted.
    pub fn is_hwpoison(self) -> (b: bool)
        ensures
            b == (self.raw & KPF_HWPOISON != 0),
    {
        self.raw & KPF_HWPOISON != 0
    }
}

} // verus!
