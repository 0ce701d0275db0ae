use crate::boot::mem::{lemma_first_usable, next_page, EarlyBootAllocator};
use crate::boot::phys::{PhysMem, mem_written, mem_zeroed};
use crate::mem::{MemoryRegion, PAGE_MASK};
use vstd::prelude::*;
use vstd::string::StringExecFns;

verus! {

/// Bits 12..52 of an entry: the page-aligned address of a 4 KiB frame or table.
pub const ADDR_MASK_4K: u64 = 0x000f_ffff_ffff_f000;

/// Bits 21..52 of an entry: the address of a 2 MiB page.
pub const ADDR_MASK_2M: u64 = 0x000f_ffff_ffe0_0000;

/// Bits 30..52 of an entry: the address of a 1 GiB page.
pub const ADDR_MASK_1G: u64 = 0x000f_ffff_c000_0000;

/// Physical addresses that an entry can hold lie below this bound.
pub const MAX_PHYS_ADDR: u64 = 0x10_0000_0000_0000;

pub const PAGE_1G_OFFSET: usize = 30;
pub const PAGE_1G_MASK: usize = 0x3fff_ffff;
pub const PAGE_2M_OFFSET: usize = 21;
pub const PAGE_2M_MASK: usize = 0x1f_ffff;

/// The present bit (bit 0).
pub open spec fn bit_present(e: u64) -> bool {
    e & 1 != 0
}

/// The page-size bit (bit 7).
pub open spec fn bit_huge(e: u64) -> bool {
    e & 0x80 != 0
}

/// The read/write bit (bit 1).
pub open spec fn bit_write(e: u64) -> bool {
    e & 2 != 0
}

/// The execute-disable bit (bit 63).
pub open spec fn bit_xd(e: u64) -> bool {
    e & 0x8000_0000_0000_0000 != 0
}

/// The address held in bits 12..52.
pub open spec fn addr_4k(e: u64) -> usize {
    (e & ADDR_MASK_4K) as usize
}

/// The address held in bits 21..52.
pub open spec fn addr_2m(e: u64) -> usize {
    (e & ADDR_MASK_2M) as usize
}

/// The address held in bits 30..52.
pub open spec fn addr_1g(e: u64) -> usize {
    (e & ADDR_MASK_1G) as usize
}

/// `e` with the bits of `mask` replaced by those of `v`.
pub open spec fn replace_bits(e: u64, mask: u64, v: u64) -> u64 {
    (e & !mask) | (v & mask)
}

/// `e` with bit `b` set to `on`.
pub open spec fn set_bit(e: u64, b: u64, on: bool) -> u64 {
    if on {
        e | b
    } else {
        e & !b
    }
}

/// Replacing the bits under a mask leaves every bit outside it alone and
/// puts the new value under it.
pub proof fn lemma_replace_bits(e: u64, mask: u64, v: u64, b: u64)
    by (bit_vector)
    ensures
        replace_bits(e, mask, v) & mask == v & mask,
        b & mask == 0 ==> replace_bits(e, mask, v) & b == e & b,
{
}

/// The all-zero entry is not present and references the null address.
pub proof fn lemma_zero_entry()
    by (bit_vector)
    ensures
        0u64 & 1 == 0,
        0u64 & ADDR_MASK_4K == 0,
{
}

/// Setting one bit leaves every other bit alone.
pub proof fn lemma_set_bit(e: u64, b: u64, on: bool, c: u64)
    by (bit_vector)
    ensures
        b != 0 ==> (set_bit(e, b, on) & b != 0) == on,
        b & c == 0 ==> set_bit(e, b, on) & c == e & c,
{
}

/// A page-aligned address below `MAX_PHYS_ADDR` is kept whole by each address mask
/// whose alignment it has.
pub proof fn lemma_aligned_addr(a: u64)
    by (bit_vector)
    ensures
        a & 0xfff == 0 && a < 0x10_0000_0000_0000 ==> a & ADDR_MASK_4K == a,
        a & 0x1f_ffff == 0 && a < 0x10_0000_0000_0000 ==> a & ADDR_MASK_2M == a,
        a & 0x3fff_ffff == 0 && a < 0x10_0000_0000_0000 ==> a & ADDR_MASK_1G == a,
        a & ADDR_MASK_4K & 0xfff == 0,
        a & ADDR_MASK_4K < 0x10_0000_0000_0000,
        a % 4096 == 0 && a < 0x10_0000_0000_0000 ==> a & ADDR_MASK_4K == a,
{
}

/// A raw PML4 entry that may not be present.
#[derive(Debug, Clone, Copy)]
pub struct PageMapLevel4EntryBare(pub u64);

impl PageMapLevel4EntryBare {
    pub fn from_bits(bits: u64) -> (r: Self)
        ensures
            r.0 == bits,
    {
        Self(bits)
    }

    pub fn into_bits(self) -> (bits: u64)
        ensures
            bits == self.0,
    {
        self.0
    }

    pub fn present(&self) -> (b: bool)
        ensures
            b == bit_present(self.0),
    {
        self.0 & 1 != 0
    }
}

/// A PML4 entry that is present: it references a page-directory-pointer table.
#[derive(Debug, Clone, Copy)]
pub struct PageMapLevel4Entry(pub u64);

impl PageMapLevel4Entry {
    /// An entry with only the present bit set.
    pub fn new() -> (r: Self)
        ensures
            r.0 == 1,
    {
        Self(1)
    }

    pub fn from_bits(bits: u64) -> (r: Self)
        ensures
            r.0 == bits,
    {
        Self(bits)
    }

    pub fn into_bits(self) -> (bits: u64)
        ensures
            bits == self.0,
    {
        self.0
    }

    pub fn write_enabled(&self) -> (b: bool)
        ensures
            b == bit_write(self.0),
    {
        self.0 & 2 != 0
    }

    pub fn with_write_enabled(self, on: bool) -> (r: Self)
        ensures
            r.0 == set_bit(self.0, 2, on),
    {
        if on {
            Self(self.0 | 2)
        } else {
            Self(self.0 & !2u64)
        }
    }

    pub fn execute_disabled(&self) -> (b: bool)
        ensures
            b == bit_xd(self.0),
    {
        self.0 & 0x8000_0000_0000_0000 != 0
    }

    pub fn with_execute_disabled(self, on: bool) -> (r: Self)
        ensures
            r.0 == set_bit(self.0, 0x8000_0000_0000_0000, on),
    {
        if on {
            Self(self.0 | 0x8000_0000_0000_0000)
        } else {
            Self(self.0 & !0x8000_0000_0000_0000u64)
        }
    }

    /// The table address held by the entry.
    pub fn addr(&self) -> (a: usize)
        ensures
            a == addr_4k(self.0),
    {
        (self.0 & ADDR_MASK_4K) as usize
    }

    /// The entry with its address field set to `a`; the bits of `a` below the
    /// field's alignment are dropped.
    pub fn with_addr(self, a: usize) -> (r: Self)
        requires
            a < MAX_PHYS_ADDR,
        ensures
            r.0 == replace_bits(self.0, ADDR_MASK_4K, a as u64),
    {
        Self((self.0 & !ADDR_MASK_4K) | ((a as u64) & ADDR_MASK_4K))
    }
}

/// A present page-directory-pointer entry that references a page directory.
#[derive(Debug, Clone, Copy)]
pub struct PageDirRef(pub u64);

impl PageDirRef {
    /// An entry with only the present bit set.
    pub fn new() -> (r: Self)
        ensures
            r.0 == 1,
    {
        Self(1)
    }

    pub fn from_bits(bits: u64) -> (r: Self)
        ensures
            r.0 == bits,
    {
        Self(bits)
    }

    pub fn into_bits(self) -> (bits: u64)
        ensures
            bits == self.0,
    {
        self.0
    }

    pub fn write_enabled(&self) -> (b: bool)
        ensures
            b == bit_write(self.0),
    {
        self.0 & 2 != 0
    }

    pub fn with_write_enabled(self, on: bool) -> (r: Self)
        ensures
            r.0 == set_bit(self.0, 2, on),
    {
        if on {
            Self(self.0 | 2)
        } else {
            Self(self.0 & !2u64)
        }
    }

    pub fn execute_disabled(&self) -> (b: bool)
        ensures
            b == bit_xd(self.0),
    {
        self.0 & 0x8000_0000_0000_0000 != 0
    }

    pub fn with_execute_disabled(self, on: bool) -> (r: Self)
        ensures
            r.0 == set_bit(self.0, 0x8000_0000_0000_0000, on),
    {
        if on {
            Self(self.0 | 0x8000_0000_0000_0000)
        } else {
            Self(self.0 & !0x8000_0000_0000_0000u64)
        }
    }

    /// The table address held by the entry.
    pub fn addr(&self) -> (a: usize)
        ensures
            a == addr_4k(self.0),
    {
        (self.0 & ADDR_MASK_4K) as usize
    }

    /// The entry with its address field set to `a`; the bits of `a` below the
    /// field's alignment are dropped.
    pub fn with_addr(self, a: usize) -> (r: Self)
        requires
            a < MAX_PHYS_ADDR,
        ensures
            r.0 == replace_bits(self.0, ADDR_MASK_4K, a as u64),
    {
        Self((self.0 & !ADDR_MASK_4K) | ((a as u64) & ADDR_MASK_4K))
    }
}

/// A present page-directory-pointer entry that maps a 1 GiB page.
#[derive(Debug, Clone, Copy)]
pub struct Huge1GPageRef(pub u64);

impl Huge1GPageRef {
    pub fn from_bits(bits: u64) -> (r: Self)
        ensures
            r.0 == bits,
    {
        Self(bits)
    }

    pub fn into_bits(self) -> (bits: u64)
        ensures
            bits == self.0,
    {
        self.0
    }

    pub fn write_enabled(&self) -> (b: bool)
        ensures
            b == bit_write(self.0),
    {
        self.0 & 2 != 0
    }

    pub fn with_write_enabled(self, on: bool) -> (r: Self)
        ensures
            r.0 == set_bit(self.0, 2, on),
    {
        if on {
            Self(self.0 | 2)
        } else {
            Self(self.0 & !2u64)
        }
    }

    pub fn execute_disabled(&self) -> (b: bool)
        ensures
            b == bit_xd(self.0),
    {
        self.0 & 0x8000_0000_0000_0000 != 0
    }

    pub fn with_execute_disabled(self, on: bool) -> (r: Self)
        ensures
            r.0 == set_bit(self.0, 0x8000_0000_0000_0000, on),
    {
        if on {
            Self(self.0 | 0x8000_0000_0000_0000)
        } else {
            Self(self.0 & !0x8000_0000_0000_0000u64)
        }
    }

    /// The page address held by the entry.
    pub fn addr(&self) -> (a: usize)
        ensures
            a == addr_1g(self.0),
    {
        (self.0 & ADDR_MASK_1G) as usize
    }

    /// The entry with its address field set to `a`; the bits of `a` below the
    /// field's alignment are dropped.
    pub fn with_addr(self, a: usize) -> (r: Self)
        requires
            a < MAX_PHYS_ADDR,
        ensures
            r.0 == replace_bits(self.0, ADDR_MASK_1G, a as u64),
    {
        Self((self.0 & !ADDR_MASK_1G) | ((a as u64) & ADDR_MASK_1G))
    }
}

/// A raw page-directory-pointer entry that may not be present.
#[derive(Debug, Clone, Copy)]
pub struct PageDirectoryPointerEntryBare(pub u64);

impl PageDirectoryPointerEntryBare {
    pub fn from_bits(bits: u64) -> (r: Self)
        ensures
            r.0 == bits,
    {
        Self(bits)
    }

    pub fn into_bits(self) -> (bits: u64)
        ensures
            bits == self.0,
    {
        self.0
    }

    pub fn present(&self) -> (b: bool)
        ensures
            b == bit_present(self.0),
    {
        self.0 & 1 != 0
    }

    pub fn huge(&self) -> (b: bool)
        ensures
            b == bit_huge(self.0),
    {
        self.0 & 0x80 != 0
    }
}

/// A present page-directory entry that references a page table.
#[derive(Debug, Clone, Copy)]
pub struct PageTableRef(pub u64);

impl PageTableRef {
    /// An entry with only the present bit set.
    pub fn new() -> (r: Self)
        ensures
            r.0 == 1,
    {
        Self(1)
    }

    pub fn from_bits(bits: u64) -> (r: Self)
        ensures
            r.0 == bits,
    {
        Self(bits)
    }

    pub fn into_bits(self) -> (bits: u64)
        ensures
            bits == self.0,
    {
        self.0
    }

    pub fn write_enabled(&self) -> (b: bool)
        ensures
            b == bit_write(self.0),
    {
        self.0 & 2 != 0
    }

    pub fn with_write_enabled(self, on: bool) -> (r: Self)
        ensures
            r.0 == set_bit(self.0, 2, on),
    {
        if on {
            Self(self.0 | 2)
        } else {
            Self(self.0 & !2u64)
        }
    }

    pub fn execute_disabled(&self) -> (b: bool)
        ensures
            b == bit_xd(self.0),
    {
        self.0 & 0x8000_0000_0000_0000 != 0
    }

    pub fn with_execute_disabled(self, on: bool) -> (r: Self)
        ensures
            r.0 == set_bit(self.0, 0x8000_0000_0000_0000, on),
    {
        if on {
            Self(self.0 | 0x8000_0000_0000_0000)
        } else {
            Self(self.0 & !0x8000_0000_0000_0000u64)
        }
    }

    /// The table address held by the entry.
    pub fn addr(&self) -> (a: usize)
        ensures
            a == addr_4k(self.0),
    {
        (self.0 & ADDR_MASK_4K) as usize
    }

    /// The entry with its address field set to `a`; the bits of `a` below the
    /// field's alignment are dropped.
    pub fn with_addr(self, a: usize) -> (r: Self)
        requires
            a < MAX_PHYS_ADDR,
        ensures
            r.0 == replace_bits(self.0, ADDR_MASK_4K, a as u64),
    {
        Self((self.0 & !ADDR_MASK_4K) | ((a as u64) & ADDR_MASK_4K))
    }
}

/// A present page-directory entry that maps a 2 MiB page.
#[derive(Debug, Clone, Copy)]
pub struct Huge2MPageRef(pub u64);

impl Huge2MPageRef {
    pub fn from_bits(bits: u64) -> (r: Self)
        ensures
            r.0 == bits,
    {
        Self(bits)
    }

    pub fn into_bits(self) -> (bits: u64)
        ensures
            bits == self.0,
    {
        self.0
    }

    pub fn write_enabled(&self) -> (b: bool)
        ensures
            b == bit_write(self.0),
    {
        self.0 & 2 != 0
    }

    pub fn with_write_enabled(self, on: bool) -> (r: Self)
        ensures
            r.0 == set_bit(self.0, 2, on),
    {
        if on {
            Self(self.0 | 2)
        } else {
            Self(self.0 & !2u64)
        }
    }

    pub fn execute_disabled(&self) -> (b: bool)
        ensures
            b == bit_xd(self.0),
    {
        self.0 & 0x8000_0000_0000_0000 != 0
    }

    pub fn with_execute_disabled(self, on: bool) -> (r: Self)
        ensures
            r.0 == set_bit(self.0, 0x8000_0000_0000_0000, on),
    {
        if on {
            Self(self.0 | 0x8000_0000_0000_0000)
        } else {
            Self(self.0 & !0x8000_0000_0000_0000u64)
        }
    }

    /// The page address held by the entry.
    pub fn addr(&self) -> (a: usize)
        ensures
            a == addr_2m(self.0),
    {
        (self.0 & ADDR_MASK_2M) as usize
    }

    /// The entry with its address field set to `a`; the bits of `a` below the
    /// field's alignment are dropped.
    pub fn with_addr(self, a: usize) -> (r: Self)
        requires
            a < MAX_PHYS_ADDR,
        ensures
            r.0 == replace_bits(self.0, ADDR_MASK_2M, a as u64),
    {
        Self((self.0 & !ADDR_MASK_2M) | ((a as u64) & ADDR_MASK_2M))
    }
}

/// A raw page-directory entry that may not be present.
#[derive(Debug, Clone, Copy)]
pub struct PageDirectoryEntryBare(pub u64);

impl PageDirectoryEntryBare {
    pub fn from_bits(bits: u64) -> (r: Self)
        ensures
            r.0 == bits,
    {
        Self(bits)
    }

    pub fn into_bits(self) -> (bits: u64)
        ensures
            bits == self.0,
    {
        self.0
    }

    pub fn present(&self) -> (b: bool)
        ensures
            b == bit_present(self.0),
    {
        self.0 & 1 != 0
    }

    pub fn huge(&self) -> (b: bool)
        ensures
            b == bit_huge(self.0),
    {
        self.0 & 0x80 != 0
    }
}

/// A raw page-table entry that may not be present.
#[derive(Debug, Clone, Copy)]
pub struct PageTableEntryBare(pub u64);

impl PageTableEntryBare {
    pub fn from_bits(bits: u64) -> (r: Self)
        ensures
            r.0 == bits,
    {
        Self(bits)
    }

    pub fn into_bits(self) -> (bits: u64)
        ensures
            bits == self.0,
    {
        self.0
    }

    pub fn present(&self) -> (b: bool)
        ensures
            b == bit_present(self.0),
    {
        self.0 & 1 != 0
    }
}

/// A present page-table entry: it maps a 4 KiB page.
#[derive(Debug, Clone, Copy)]
pub struct PageTableEntry(pub u64);

impl PageTableEntry {
    /// An entry with only the present bit set.
    pub fn new() -> (r: Self)
        ensures
            r.0 == 1,
    {
        Self(1)
    }

    pub fn from_bits(bits: u64) -> (r: Self)
        ensures
            r.0 == bits,
    {
        Self(bits)
    }

    pub fn into_bits(self) -> (bits: u64)
        ensures
            bits == self.0,
    {
        self.0
    }

    pub fn write_enabled(&self) -> (b: bool)
        ensures
            b == bit_write(self.0),
    {
        self.0 & 2 != 0
    }

    pub fn with_write_enabled(self, on: bool) -> (r: Self)
        ensures
            r.0 == set_bit(self.0, 2, on),
    {
        if on {
            Self(self.0 | 2)
        } else {
            Self(self.0 & !2u64)
        }
    }

    pub fn execute_disabled(&self) -> (b: bool)
        ensures
            b == bit_xd(self.0),
    {
        self.0 & 0x8000_0000_0000_0000 != 0
    }

    pub fn with_execute_disabled(self, on: bool) -> (r: Self)
        ensures
            r.0 == set_bit(self.0, 0x8000_0000_0000_0000, on),
    {
        if on {
            Self(self.0 | 0x8000_0000_0000_0000)
        } else {
            Self(self.0 & !0x8000_0000_0000_0000u64)
        }
    }

    /// The page address held by the entry.
    pub fn addr(&self) -> (a: usize)
        ensures
            a == addr_4k(self.0),
    {
        (self.0 & ADDR_MASK_4K) as usize
    }

    /// The entry with its address field set to `a`; the bits of `a` below the
    /// field's alignment are dropped.
    pub fn with_addr(self, a: usize) -> (r: Self)
        requires
            a < MAX_PHYS_ADDR,
        ensures
            r.0 == replace_bits(self.0, ADDR_MASK_4K, a as u64),
    {
        Self((self.0 & !ADDR_MASK_4K) | ((a as u64) & ADDR_MASK_4K))
    }
}

/// Address of the first byte of the frame whose number is `addr`.
pub fn virt_from_bits_page_aligned(addr: usize) -> (r: usize)
    ensures
        r == addr << 12usize,
{
    addr << 12usize
}

/// Number of the 4 KiB frame that holds `addr`.
pub fn virt_to_bits_page_aligned(addr: usize) -> (r: usize)
    ensures
        r == addr >> 12usize,
{
    addr >> 12usize
}

/// Address of the first byte of the 1 GiB frame whose number is `addr`.
pub fn virt_from_bits_1g_page_aligned(addr: usize) -> (r: usize)
    ensures
        r == addr << 30usize,
{
    addr << 30usize
}

/// Number of the 1 GiB frame that holds `addr`.
pub fn virt_to_bits_1g_page_aligned(addr: usize) -> (r: usize)
    ensures
        r == addr >> 30usize,
{
    addr >> 30usize
}

/// Address of the first byte of the 2 MiB frame whose number is `addr`.
pub fn virt_from_bits_2m_page_aligned(addr: usize) -> (r: usize)
    ensures
        r == addr << 21usize,
{
    addr << 21usize
}

/// Number of the 2 MiB frame that holds `addr`.
pub fn virt_to_bits_2m_page_aligned(addr: usize) -> (r: usize)
    ensures
        r == addr >> 21usize,
{
    addr >> 21usize
}

/// Turning an address into its frame number and back clears the offset inside the
/// frame, for each of the three frame sizes.
pub proof fn lemma_frame_round_trip(a: usize)
    by (bit_vector)
    ensures
        (a >> 12usize) << 12usize == a & !0xfffusize,
        (a >> 21usize) << 21usize == a & !0x1f_ffffusize,
        (a >> 30usize) << 30usize == a & !0x3fff_ffffusize,
{
}

/// The optional decoded entry, `Some` exactly when the present bit is set.
pub open spec fn present_or_none<T>(bits: u64, e: T) -> Option<T> {
    if bit_present(bits) {
        Some(e)
    } else {
        None
    }
}

/// The table that an address field references, `None` for a null address.
pub open spec fn nonnull(a: usize) -> Option<usize> {
    if a == 0 {
        None
    } else {
        Some(a)
    }
}

impl PageMapLevel4Entry {
    pub fn from_bare(bare: PageMapLevel4EntryBare) -> (r: Option<Self>)
        ensures
            r == present_or_none(bare.0, Self(bare.0)),
    {
        if bare.present() {
            Some(Self(bare.0))
        } else {
            None
        }
    }

    /// Grab a PML4E from PageMapLevel4EntryBare, overwriting it with a given PML4E if not present. Useful for mapping.
    pub fn from_bare_or_overwrite(bare: &mut PageMapLevel4EntryBare, pml4e: Self) -> (r: Self)
        ensures
            bit_present(old(bare).0) ==> r.0 == old(bare).0 && final(bare).0 == old(bare).0,
            !bit_present(old(bare).0) ==> r.0 == pml4e.0 && final(bare).0 == pml4e.0,
    {
        match Self::from_bare(*bare) {
            Some(e) => e,
            None => {
                *bare = pml4e.to_bare();
                pml4e
            },
        }
    }

    pub fn to_bare(self) -> (r: PageMapLevel4EntryBare)
        ensures
            r.0 == self.0,
    {
        PageMapLevel4EntryBare(self.0)
    }

    /// The page-directory-pointer table that the entry references, unless its address is null.
    pub fn page_dir_ptr_table(&self) -> (r: Option<usize>)
        ensures
            r == nonnull(addr_4k(self.0)),
    {
        let a = self.addr();
        if a == 0 {
            None
        } else {
            Some(a)
        }
    }
}

impl PageDirRef {
    /// The page directory that the entry references, unless its address is null.
    pub fn page_dir_table(&self) -> (r: Option<usize>)
        ensures
            r == nonnull(addr_4k(self.0)),
    {
        let a = self.addr();
        if a == 0 {
            None
        } else {
            Some(a)
        }
    }
}

impl PageTableRef {
    /// The page table that the entry references, unless its address is null.
    pub fn page_table(&self) -> (r: Option<usize>)
        ensures
            r == nonnull(addr_4k(self.0)),
    {
        let a = self.addr();
        if a == 0 {
            None
        } else {
            Some(a)
        }
    }
}

/// A present page-directory-pointer entry: either a reference to a page directory or a 1 GiB page.
#[derive(Debug, Clone, Copy)]
pub enum PageDirectoryPointerEntry {
    NextLevel(PageDirRef),
    Huge(Huge1GPageRef),
}

/// The bits of a page-directory-pointer entry.
pub open spec fn pdpe_bits(e: PageDirectoryPointerEntry) -> u64 {
    match e {
        PageDirectoryPointerEntry::NextLevel(p) => p.0,
        PageDirectoryPointerEntry::Huge(p) => p.0,
    }
}

/// How a raw page-directory-pointer entry decodes.
pub open spec fn decode_pdpe(bits: u64) -> Option<PageDirectoryPointerEntry> {
    if !bit_present(bits) {
        None
    } else if bit_huge(bits) {
        Some(PageDirectoryPointerEntry::Huge(Huge1GPageRef(bits)))
    } else {
        Some(PageDirectoryPointerEntry::NextLevel(PageDirRef(bits)))
    }
}

impl PageDirectoryPointerEntry {
    pub fn from_bare(bare: PageDirectoryPointerEntryBare) -> (r: Option<Self>)
        ensures
            r == decode_pdpe(bare.0),
    {
        if bare.present() {
            if bare.huge() {
                Some(Self::Huge(Huge1GPageRef(bare.0)))
            } else {
                Some(Self::NextLevel(PageDirRef(bare.0)))
            }
        } else {
            None
        }
    }

    pub fn to_bare(self) -> (r: PageDirectoryPointerEntryBare)
        ensures
            r.0 == pdpe_bits(self),
    {
        PageDirectoryPointerEntryBare(
            match self {
                Self::NextLevel(p) => p.0,
                Self::Huge(p) => p.0,
            },
        )
    }

    /// The decoded entry if present; otherwise `bare` is overwritten with `pdpe`, which is returned.
    pub fn from_bare_or_overwrite(bare: &mut PageDirectoryPointerEntryBare, pdpe: Self) -> (r: Self)
        ensures
            bit_present(old(bare).0) ==> Some(r) == decode_pdpe(old(bare).0) && final(bare).0
                == old(bare).0,
            !bit_present(old(bare).0) ==> r == pdpe && final(bare).0 == pdpe_bits(pdpe),
    {
        match Self::from_bare(*bare) {
            Some(e) => e,
            None => {
                *bare = pdpe.to_bare();
                pdpe
            },
        }
    }
}

/// A present page-directory entry: either a reference to a page table or a 2 MiB page.
#[derive(Debug, Clone, Copy)]
pub enum PageDirectoryEntry {
    NextLevel(PageTableRef),
    Huge(Huge2MPageRef),
}

/// The bits of a page-directory entry.
pub open spec fn pde_bits(e: PageDirectoryEntry) -> u64 {
    match e {
        PageDirectoryEntry::NextLevel(p) => p.0,
        PageDirectoryEntry::Huge(p) => p.0,
    }
}

/// How a raw page-directory entry decodes.
pub open spec fn decode_pde(bits: u64) -> Option<PageDirectoryEntry> {
    if !bit_present(bits) {
        None
    } else if bit_huge(bits) {
        Some(PageDirectoryEntry::Huge(Huge2MPageRef(bits)))
    } else {
        Some(PageDirectoryEntry::NextLevel(PageTableRef(bits)))
    }
}

impl PageDirectoryEntry {
    pub fn from_bare(bare: PageDirectoryEntryBare) -> (r: Option<Self>)
        ensures
            r == decode_pde(bare.0),
    {
        if bare.present() {
            if bare.huge() {
                Some(Self::Huge(Huge2MPageRef(bare.0)))
            } else {
                Some(Self::NextLevel(PageTableRef(bare.0)))
            }
        } else {
            None
        }
    }

    pub fn to_bare(self) -> (r: PageDirectoryEntryBare)
        ensures
            r.0 == pde_bits(self),
    {
        PageDirectoryEntryBare(
            match self {
                Self::NextLevel(p) => p.0,
                Self::Huge(p) => p.0,
            },
        )
    }

    /// The decoded entry if present; otherwise `bare` is overwritten with `pde`, which is returned.
    pub fn from_bare_or_overwrite(bare: &mut PageDirectoryEntryBare, pde: Self) -> (r: Self)
        ensures
            bit_present(old(bare).0) ==> Some(r) == decode_pde(old(bare).0) && final(bare).0
                == old(bare).0,
            !bit_present(old(bare).0) ==> r == pde && final(bare).0 == pde_bits(pde),
    {
        match Self::from_bare(*bare) {
            Some(e) => e,
            None => {
                *bare = pde.to_bare();
                pde
            },
        }
    }
}

impl PageTableEntry {
    pub fn from_bare(bare: PageTableEntryBare) -> (r: Option<Self>)
        ensures
            r == present_or_none(bare.0, Self(bare.0)),
    {
        if bare.present() {
            Some(Self(bare.0))
        } else {
            None
        }
    }

    pub fn to_bare(self) -> (r: PageTableEntryBare)
        ensures
            r.0 == self.0,
    {
        PageTableEntryBare(self.0)
    }

    /// The decoded entry if present; otherwise `bare` is overwritten with `pte`, which is returned.
    pub fn from_bare_or_overwrite(bare: &mut PageTableEntryBare, pte: Self) -> (r: Self)
        ensures
            bit_present(old(bare).0) ==> r.0 == old(bare).0 && final(bare).0 == old(bare).0,
            !bit_present(old(bare).0) ==> r.0 == pte.0 && final(bare).0 == pte.0,
    {
        match Self::from_bare(*bare) {
            Some(e) => e,
            None => {
                *bare = pte.to_bare();
                pte
            },
        }
    }

    /// The page that the entry maps, unless its address is null.
    pub fn page(&self) -> (r: Option<usize>)
        ensures
            r == nonnull(addr_4k(self.0)),
    {
        let a = self.addr();
        if a == 0 {
            None
        } else {
            Some(a)
        }
    }
}

/// Index into the PML4 of the entry that translates `addr` (bits 39..48).
pub open spec fn pml4_index(addr: usize) -> int {
    ((addr as u64 >> 39u64) & 0x1ff) as int
}

/// Index into the page-directory-pointer table (bits 30..39).
pub open spec fn pdpt_index(addr: usize) -> int {
    ((addr as u64 >> 30u64) & 0x1ff) as int
}

/// Index into the page directory (bits 21..30).
pub open spec fn pd_index(addr: usize) -> int {
    ((addr as u64 >> 21u64) & 0x1ff) as int
}

/// Index into the page table (bits 12..21).
pub open spec fn pt_index(addr: usize) -> int {
    ((addr as u64 >> 12u64) & 0x1ff) as int
}

pub proof fn lemma_index_bound(x: u64)
    by (bit_vector)
    ensures
        x & 0x1ff < 512,
        x & 0xfff < 4096,
{
}

/// The entry `map_page` writes into a page table to map `page` with `perms`.
pub open spec fn leaf_entry(page: usize, perms: Perms) -> u64 {
    set_bit(
        set_bit(replace_bits(1, ADDR_MASK_4K, page as u64), 2, perms.write),
        0x8000_0000_0000_0000,
        !perms.execute,
    )
}

/// A link entry is present, not huge, and references its table.
pub proof fn lemma_link_bits(a: u64)
    by (bit_vector)
    requires
        a % 4096 == 0,
        a < 0x10_0000_0000_0000,
    ensures
        (((1u64 & !ADDR_MASK_4K) | (a & ADDR_MASK_4K)) | 2) & 1 != 0,
        (((1u64 & !ADDR_MASK_4K) | (a & ADDR_MASK_4K)) | 2) & 0x80 == 0,
        (((1u64 & !ADDR_MASK_4K) | (a & ADDR_MASK_4K)) | 2) & ADDR_MASK_4K == a,
{
}

/// A leaf entry is present and holds the page, the write bit and the execute-disable bit asked for.
pub proof fn lemma_leaf_bits(a: u64, w: bool, x: bool)
    by (bit_vector)
    ensures
        ({
            let e0 = (1u64 & !ADDR_MASK_4K) | (a & ADDR_MASK_4K);
            let e1 = if w { e0 | 2 } else { e0 & !2u64 };
            let e = if x { e1 | 0x8000_0000_0000_0000 } else { e1 & !0x8000_0000_0000_0000u64 };
            &&& e & 1 != 0
            &&& e & ADDR_MASK_4K == a & ADDR_MASK_4K
            &&& (e & 2 != 0) == w
            &&& (e & 0x8000_0000_0000_0000 != 0) == x
        }),
{
}

/// What `map_page` returns: an error if `addr` is mapped already or a table
/// on the way references null; otherwise success, provided either the page
/// table exists or three free pages are left for creating tables.
pub open spec fn map_outcome(mem: PhysMem, base: usize, addr: usize, free: nat) -> Result<(), Error> {
    if walk(mem, base, addr) is Some {
        Err(Error::AddrAlreadyMapped(addr))
    } else if path_null(mem, base, addr) {
        Err(Error::TableReferencesNull)
    } else if page_table_exists(mem, base, addr) || free >= 3 {
        Ok(())
    } else {
        Err(Error::TableReferencesNull)
    }
}

/// A linear address split into the table indices used to translate it.
#[derive(Debug, Clone, Copy)]
pub struct LinearAddressPageTranslation(pub u64);

impl LinearAddressPageTranslation {
    pub fn from_bits(bits: u64) -> (r: Self)
        ensures
            r.0 == bits,
    {
        Self(bits)
    }

    pub fn offset(&self) -> (r: usize)
        ensures
            r == self.0 & 0xfff,
    {
        proof {
            lemma_index_bound(self.0);
        }
        (self.0 & 0xfff) as usize
    }

    pub fn table_idx(&self) -> (r: usize)
        ensures
            r == (self.0 >> 12u64) & 0x1ff,
            r < 512,
    {
        proof {
            lemma_index_bound(self.0 >> 12u64);
        }
        ((self.0 >> 12u64) & 0x1ff) as usize
    }

    pub fn dir_idx(&self) -> (r: usize)
        ensures
            r == (self.0 >> 21u64) & 0x1ff,
            r < 512,
    {
        proof {
            lemma_index_bound(self.0 >> 21u64);
        }
        ((self.0 >> 21u64) & 0x1ff) as usize
    }

    pub fn dir_ptr_idx(&self) -> (r: usize)
        ensures
            r == (self.0 >> 30u64) & 0x1ff,
            r < 512,
    {
        proof {
            lemma_index_bound(self.0 >> 30u64);
        }
        ((self.0 >> 30u64) & 0x1ff) as usize
    }

    pub fn pml4_idx(&self) -> (r: usize)
        ensures
            r == (self.0 >> 39u64) & 0x1ff,
            r < 512,
    {
        proof {
            lemma_index_bound(self.0 >> 39u64);
        }
        ((self.0 >> 39u64) & 0x1ff) as usize
    }
}

/// How a linear address is mapped: by a 4 KiB, 2 MiB or 1 GiB page.
#[derive(Debug, Clone, Copy)]
pub enum Mapping {
    Page4K(PageTableEntry),
    Page2M(Huge2MPageRef),
    Page1G(Huge1GPageRef),
}

impl Mapping {
    /// Number of 4 KiB pages the mapping covers.
    pub fn npages(&self) -> (n: usize)
        ensures
            n == match self {
                Mapping::Page4K(_) => 1usize,
                Mapping::Page2M(_) => 512usize,
                Mapping::Page1G(_) => 262144usize,
            },
    {
        match self {
            Self::Page4K(_) => 1,
            Self::Page2M(_) => 512,
            Self::Page1G(_) => 512 * 512,
        }
    }
}

/// Access rights of a mapped page.
#[derive(Debug, Clone, Copy)]
pub struct Perms {
    pub write: bool,
    pub execute: bool,
}

impl Perms {
    /// Writable and executable.
    pub fn wx() -> (p: Perms)
        ensures
            p.write && p.execute,
    {
        Perms { write: true, execute: true }
    }

    /// Writable, not executable.
    pub fn wo() -> (p: Perms)
        ensures
            p.write && !p.execute,
    {
        Perms { write: true, execute: false }
    }
}

/// Why a page could not be mapped.
#[derive(Debug, Clone, Copy)]
pub enum Error {
    AddrAlreadyMapped(usize),
    TableReferencesNull,
}

/// The character of decimal digit `d`.
pub open spec fn digit_char(d: nat) -> char {
    ('0' as nat + d) as char
}

/// The decimal digits of `n`, most significant first, with no leading zero.
pub open spec fn decimal(n: nat) -> Seq<char>
    decreases n,
{
    if n < 10 {
        seq![digit_char(n)]
    } else {
        decimal(n / 10).push(digit_char(n % 10))
    }
}

/// What an error says, as `Error::message` spells it.
pub open spec fn error_message(e: Error) -> Seq<char> {
    match e {
        Error::AddrAlreadyMapped(addr) => decimal(addr as nat) + " is already mapped."@,
        Error::TableReferencesNull => "table entry references null ptr."@,
    }
}

/// `usize`'s `to_string`, which std documents as the number in decimal
/// notation; the contract states that digit string.
#[verifier::external_body]
fn decimal_string(n: usize) -> (s: String)
    ensures
        s@ == decimal(n as nat),
{
    n.to_string()
}

impl Error {
    /// The error in words, for the console.
    pub fn message(&self) -> (s: String)
        ensures
            s@ == error_message(*self),
    {
        match self {
            Error::AddrAlreadyMapped(addr) => decimal_string(*addr).concat(" is already mapped."),
            Error::TableReferencesNull => String::from_str("table entry references null ptr."),
        }
    }
}

/// What `virt_to_mapping` finds for `addr` in the tables rooted at `base`:
/// the entry that maps it (4 KiB, 2 MiB or 1 GiB) and the physical address it
/// translates to, or `None` when some entry on the way is not present or
/// references the null address. The flag bits of the directory entries on
/// the way (write, user, execute-disable) are not part of the result; the
/// contracts that need them speak of the entries themselves.
pub open spec fn walk(mem: PhysMem, base: usize, addr: usize) -> Option<(Mapping, usize)> {
    let e4 = mem.entry(base, pml4_index(addr));
    if !bit_present(e4) || addr_4k(e4) == 0 {
        None
    } else {
        let e3 = mem.entry(addr_4k(e4), pdpt_index(addr));
        if !bit_present(e3) {
            None
        } else if bit_huge(e3) {
            Some((Mapping::Page1G(Huge1GPageRef(e3)), addr_1g(e3) | (addr & PAGE_1G_MASK)))
        } else if addr_4k(e3) == 0 {
            None
        } else {
            let e2 = mem.entry(addr_4k(e3), pd_index(addr));
            if !bit_present(e2) {
                None
            } else if bit_huge(e2) {
                Some((Mapping::Page2M(Huge2MPageRef(e2)), addr_2m(e2) | (addr & PAGE_2M_MASK)))
            } else if addr_4k(e2) == 0 {
                None
            } else {
                let e1 = mem.entry(addr_4k(e2), pt_index(addr));
                if !bit_present(e1) {
                    None
                } else {
                    Some((Mapping::Page4K(PageTableEntry(e1)), addr_4k(e1) | (addr & PAGE_MASK)))
                }
            }
        }
    }
}

/// On the way to the page-table entry of `addr` some present entry that
/// should reference a table references the null address.
pub open spec fn path_null(mem: PhysMem, base: usize, addr: usize) -> bool {
    let e4 = mem.entry(base, pml4_index(addr));
    bit_present(e4) && (addr_4k(e4) == 0 || {
        let e3 = mem.entry(addr_4k(e4), pdpt_index(addr));
        bit_present(e3) && !bit_huge(e3) && (addr_4k(e3) == 0 || {
            let e2 = mem.entry(addr_4k(e3), pd_index(addr));
            bit_present(e2) && !bit_huge(e2) && addr_4k(e2) == 0
        })
    })
}

/// The page table that should hold the entry of `addr` exists: every entry
/// above it is present and references a table.
pub open spec fn page_table_exists(mem: PhysMem, base: usize, addr: usize) -> bool {
    let e4 = mem.entry(base, pml4_index(addr));
    let e3 = mem.entry(addr_4k(e4), pdpt_index(addr));
    let e2 = mem.entry(addr_4k(e3), pd_index(addr));
    &&& bit_present(e4) && addr_4k(e4) != 0
    &&& bit_present(e3) && !bit_huge(e3) && addr_4k(e3) != 0
    &&& bit_present(e2) && !bit_huge(e2) && addr_4k(e2) != 0
}

/// An entry at level `level` (4 for the PML4 down to 1 for page tables) that references a table.
pub open spec fn references_table(level: int, e: u64) -> bool {
    &&& 2 <= level
    &&& bit_present(e)
    &&& (level == 4 || !bit_huge(e))
    &&& addr_4k(e) != 0
}

/// `lv` gives a level (4 for a PML4 down to 1 for a page table) to each of a
/// set of tables, none of which is among the pages `avail` that an allocator
/// may still hand out, such that every entry of one of them that references a
/// table references one of the level below.
pub open spec fn hierarchy_ok(mem: PhysMem, lv: Map<usize, int>, avail: Set<usize>) -> bool {
    &&& forall|t: usize| #[trigger] lv.contains_key(t) ==> !avail.contains(t) && 1 <= lv[t] <= 4
    &&& forall|t: usize, i: int|
        #![trigger lv.contains_key(t), mem.entry(t, i)]
        lv.contains_key(t) && 0 <= i < 512 && references_table(lv[t], mem.entry(t, i))
            ==> lv.contains_key(addr_4k(mem.entry(t, i))) && lv[addr_4k(mem.entry(t, i))] == lv[t] - 1
}

/// The tables reachable from `base` form a four-level hierarchy, `base` being the PML4.
pub open spec fn levels_ok(mem: PhysMem, lv: Map<usize, int>, base: usize, avail: Set<usize>) -> bool {
    &&& lv.contains_key(base) && lv[base] == 4
    &&& hierarchy_ok(mem, lv, avail)
}

/// Every entry of a table in `lv` that was present in `m1` is unchanged in `m2`.
pub open spec fn present_kept(m1: PhysMem, m2: PhysMem, lv: Map<usize, int>) -> bool {
    forall|t: usize, i: int|
        #![trigger lv.contains_key(t), m2.entry(t, i)]
        lv.contains_key(t) && bit_present(m1.entry(t, i)) ==> m2.entry(t, i) == m1.entry(t, i)
}

/// Zeroing a page the allocator was about to hand out leaves the table hierarchy alone.
pub proof fn lemma_zero_fresh(
    m1: PhysMem,
    m2: PhysMem,
    lv: Map<usize, int>,
    base: usize,
    av1: Set<usize>,
    av2: Set<usize>,
    a: usize,
)
    requires
        levels_ok(m1, lv, base, av1),
        av1.contains(a),
        av2 == av1.remove(a),
        mem_zeroed(m1, m2, a),
    ensures
        levels_ok(m2, lv, base, av2),
        present_kept(m1, m2, lv),
        forall|i: int| #[trigger] m2.entry(a, i) == 0,
{
    assert forall|t: usize, i: int|
        lv.contains_key(t) && 0 <= i < 512 && references_table(lv[t], #[trigger] m2.entry(t, i))
            implies lv.contains_key(addr_4k(m2.entry(t, i))) && lv[addr_4k(m2.entry(t, i))] == lv[t]
        - 1 by {
        assert(m2.entry(t, i) == m1.entry(t, i));
    }
    assert forall|i: int| #[trigger] m2.entry(a, i) == 0 by {
        if !(0 <= i < 512) {
            assert(m2.entry(a, i) == m1.entry(a, i));
            m1.lemma_entry_outside(a, i);
        }
    }
}

/// Writing into an entry that was not present keeps the hierarchy, provided a
/// written reference to a table points to a zeroed page that joins one level lower.
pub proof fn lemma_link(
    m1: PhysMem,
    m2: PhysMem,
    lv: Map<usize, int>,
    base: usize,
    av: Set<usize>,
    t: usize,
    i: int,
    v: u64,
)
    requires
        levels_ok(m1, lv, base, av),
        lv.contains_key(t),
        0 <= i < 512,
        !bit_present(m1.entry(t, i)),
        mem_written(m1, m2, t, i, v),
        references_table(lv[t], v) ==> {
            &&& !av.contains(addr_4k(v))
            &&& !lv.contains_key(addr_4k(v))
            &&& forall|j: int| #[trigger] m1.entry(addr_4k(v), j) == 0
        },
    ensures
        present_kept(m1, m2, lv),
        !references_table(lv[t], v) ==> levels_ok(m2, lv, base, av),
        references_table(lv[t], v) ==> levels_ok(m2, lv.insert(addr_4k(v), lv[t] - 1), base, av),
{
    if references_table(lv[t], v) {
        let a = addr_4k(v);
        let lv2 = lv.insert(a, lv[t] - 1);
        assert forall|t2: usize, i2: int|
            lv2.contains_key(t2) && 0 <= i2 < 512 && references_table(
                lv2[t2],
                #[trigger] m2.entry(t2, i2),
            ) implies lv2.contains_key(addr_4k(m2.entry(t2, i2))) && lv2[addr_4k(m2.entry(t2, i2))]
            == lv2[t2] - 1 by {
            assert(t != a);
            lemma_zero_entry();
            if t2 == a {
                assert(m2.entry(t2, i2) == m1.entry(a, i2));
            } else if t2 == t && i2 == i {
                assert(lv2[t2] == lv[t]);
            } else {
                assert(m2.entry(t2, i2) == m1.entry(t2, i2));
                assert(lv.contains_key(t2));
                assert(lv2[t2] == lv[t2]);
                assert(lv.contains_key(addr_4k(m1.entry(t2, i2))));
            }
        }
    } else {
        assert forall|t2: usize, i2: int|
            lv.contains_key(t2) && 0 <= i2 < 512 && references_table(
                lv[t2],
                #[trigger] m2.entry(t2, i2),
            ) implies lv.contains_key(addr_4k(m2.entry(t2, i2))) && lv[addr_4k(m2.entry(t2, i2))]
            == lv[t2] - 1 by {
            if !(t2 == t && i2 == i) {
                assert(m2.entry(t2, i2) == m1.entry(t2, i2));
            }
        }
    }
}

/// A translation that succeeds keeps its result while the present entries of
/// the hierarchy are kept.
pub proof fn lemma_walk_kept(
    m1: PhysMem,
    m2: PhysMem,
    lv: Map<usize, int>,
    base: usize,
    av: Set<usize>,
    addr: usize,
)
    requires
        levels_ok(m1, lv, base, av),
        present_kept(m1, m2, lv),
        walk(m1, base, addr) is Some,
    ensures
        walk(m2, base, addr) == walk(m1, base, addr),
{
    lemma_index_bound(addr as u64 >> 39u64);
    lemma_index_bound(addr as u64 >> 30u64);
    lemma_index_bound(addr as u64 >> 21u64);
    lemma_index_bound(addr as u64 >> 12u64);
    let e4 = m1.entry(base, pml4_index(addr));
    assert(m2.entry(base, pml4_index(addr)) == e4);
    assert(references_table(4, e4));
    let p = addr_4k(e4);
    assert(lv.contains_key(p) && lv[p] == 3);
    let e3 = m1.entry(p, pdpt_index(addr));
    assert(m2.entry(p, pdpt_index(addr)) == e3);
    if !bit_huge(e3) {
        assert(references_table(3, e3));
        let d = addr_4k(e3);
        assert(lv.contains_key(d) && lv[d] == 2);
        let e2 = m1.entry(d, pd_index(addr));
        assert(m2.entry(d, pd_index(addr)) == e2);
        if !bit_huge(e2) {
            assert(references_table(2, e2));
            let pt = addr_4k(e2);
            assert(lv.contains_key(pt));
            assert(m2.entry(pt, pt_index(addr)) == m1.entry(pt, pt_index(addr)));
        }
    }
}

/// Changes confined to `x` and then to a part of `x` are confined to `x`.
pub proof fn lemma_changed_only_trans(m0: PhysMem, m1: PhysMem, m2: PhysMem, x: Set<usize>, y: Set<usize>)
    requires
        changed_only(m0, m1, x),
        changed_only(m1, m2, y),
        y.subset_of(x),
    ensures
        changed_only(m0, m2, x),
{
    assert forall|t: usize, i: int| !x.contains(t) implies #[trigger] m2.entry(t, i) == m0.entry(t, i) by {
        assert(m1.entry(t, i) == m0.entry(t, i));
    }
}

/// Every translation that succeeds keeps its result while the present entries
/// of the hierarchy are kept.
pub proof fn lemma_walks_kept(m1: PhysMem, m2: PhysMem, lv: Map<usize, int>, base: usize, av: Set<usize>)
    requires
        levels_ok(m1, lv, base, av),
        present_kept(m1, m2, lv),
    ensures
        forall|a: usize| #[trigger]
            walk(m1, base, a) is Some ==> walk(m2, base, a) == walk(m1, base, a),
{
    assert forall|a: usize| #[trigger] walk(m1, base, a) is Some implies walk(m2, base, a) == walk(
        m1,
        base,
        a,
    ) by {
        lemma_walk_kept(m1, m2, lv, base, av, a);
    }
}

/// Keeping present entries composes.
pub proof fn lemma_present_kept_trans(
    m1: PhysMem,
    m2: PhysMem,
    m3: PhysMem,
    lv1: Map<usize, int>,
    lv2: Map<usize, int>,
)
    requires
        present_kept(m1, m2, lv1),
        present_kept(m2, m3, lv2),
        lv1.submap_of(lv2),
    ensures
        present_kept(m1, m3, lv1),
{
    assert forall|t: usize, i: int|
        lv1.contains_key(t) && bit_present(m1.entry(t, i)) implies #[trigger] m3.entry(t, i)
        == m1.entry(t, i) by {
        assert(m2.entry(t, i) == m1.entry(t, i));
        assert(lv2.contains_key(t));
    }
}

/// A four-level page map, identified by the physical address of its PML4.
pub struct PageMap {
    base: usize,
    /// The level of each table that belongs to the map.
    levels: Ghost<Map<usize, int>>,
}

impl PageMap {
    /// Physical address of the PML4.
    pub closed spec fn base(&self) -> usize {
        self.base
    }

    /// The level of each table that the map is known to be made of.
    pub closed spec fn levels(&self) -> Map<usize, int> {
        self.levels@
    }

    /// The map's tables form a proper four-level hierarchy in `mem`, none of
    /// them is a page that `alloc` may still hand out, and `alloc` never
    /// hands out a page twice.
    pub open spec fn wf(&self, mem: PhysMem, alloc: EarlyBootAllocator) -> bool {
        &&& levels_ok(mem, self.levels(), self.base(), alloc.avail())
        &&& alloc.sound()
    }

    /// A map with a fresh, empty PML4 taken from `alloc`.
    pub fn new(alloc: &mut EarlyBootAllocator, mem: &mut PhysMem) -> (r: Self)
        requires
            old(alloc).valid(),
            old(alloc).free_count() > 0,
        ensures
            final(alloc).valid(),
            final(alloc).free_count() == old(alloc).free_count() - 1,
            r.base() != 0,
            r.base() == next_page(old(alloc)@),
            mem_zeroed(*old(mem), *final(mem), r.base()),
            forall|a: usize| #[trigger] walk(*final(mem), r.base(), a) is None,
            unshared(*final(mem), r.levels()),
            old(alloc).sound() ==> {
                &&& r.wf(*final(mem), *final(alloc))
                &&& old(alloc).avail().contains(r.base())
                &&& final(alloc).avail() == old(alloc).avail().remove(r.base())
            },
    {
        proof {
            lemma_first_usable(alloc@, 0);
        }
        let base = alloc.get_page_zeroed(mem);
        proof {
            lemma_zero_entry();
            assert forall|a: usize| #[trigger] walk(*mem, base, a) is None by {
                lemma_index_bound(a as u64 >> 39u64);
                assert(mem.entry(base, pml4_index(a)) == 0);
            }
            if old(alloc).sound() {
                let lv = Map::<usize, int>::empty().insert(base, 4);
                assert forall|t: usize, i: int|
                    lv.contains_key(t) && 0 <= i < 512 && references_table(lv[t], #[trigger] mem.entry(t, i))
                        implies lv.contains_key(addr_4k(mem.entry(t, i))) by {
                    assert(mem.entry(t, i) == 0);
                }
            }
            let lv = Map::<usize, int>::empty().insert(base, 4);
            assert forall|t1: usize, i1: int, t2: usize, i2: int|
                #![trigger mem.entry(t1, i1), mem.entry(t2, i2)]
                lv.contains_key(t1) && lv.contains_key(t2) && 0 <= i1 < 512 && 0 <= i2 < 512 && references_table(
                    lv[t1],
                    mem.entry(t1, i1),
                ) && references_table(lv[t2], mem.entry(t2, i2)) && addr_4k(mem.entry(t1, i1)) == addr_4k(
                    mem.entry(t2, i2),
                ) implies t1 == t2 && i1 == i2 by {
                assert(mem.entry(t1, i1) == 0);
            }
        }
        PageMap { base, levels: Ghost(Map::empty().insert(base, 4)) }
    }

    /// The map whose PML4 lies at `base`, such as the one the firmware set up.
    pub fn from_table(base: usize) -> (r: Self)
        requires
            base != 0,
        ensures
            r.base() == base,
    {
        PageMap { base, levels: Ghost(Map::empty().insert(base, 4)) }
    }

    /// Physical address of the PML4.
    pub fn base_addr(&self) -> (b: usize)
        ensures
            b == self.base(),
    {
        self.base
    }

    /// Get a address mapping from a linear address by walking the page table.
    /// Returns None if the addr is unmapped.
    pub fn virt_to_mapping(&self, mem: &PhysMem, addr: usize) -> (r: Option<(Mapping, usize)>)
        ensures
            r == walk(*mem, self.base(), addr),
    {
        let trans = LinearAddressPageTranslation::from_bits(addr as u64);
        let pml4e = PageMapLevel4Entry::from_bare(
            PageMapLevel4EntryBare(mem.read(self.base, trans.pml4_idx())),
        )?;
        let dir_ptr_table = pml4e.page_dir_ptr_table()?;
        let dir_ptr_entry = PageDirectoryPointerEntry::from_bare(
            PageDirectoryPointerEntryBare(mem.read(dir_ptr_table, trans.dir_ptr_idx())),
        )?;
        let dir_table = match dir_ptr_entry {
            PageDirectoryPointerEntry::NextLevel(table) => table.page_dir_table()?,
            PageDirectoryPointerEntry::Huge(huge) => {
                return Some((Mapping::Page1G(huge), huge.addr() | (addr & PAGE_1G_MASK)));
            },
        };
        let dir_entry = PageDirectoryEntry::from_bare(
            PageDirectoryEntryBare(mem.read(dir_table, trans.dir_idx())),
        )?;
        let table = match dir_entry {
            PageDirectoryEntry::NextLevel(table) => table.page_table()?,
            PageDirectoryEntry::Huge(huge) => {
                return Some((Mapping::Page2M(huge), huge.addr() | (addr & PAGE_2M_MASK)));
            },
        };
        let table_entry = PageTableEntry::from_bare(
            PageTableEntryBare(mem.read(table, trans.table_idx())),
        )?;
        Some((Mapping::Page4K(table_entry), table_entry.addr() | (addr & PAGE_MASK)))
    }
}

impl PageMap {
    /// Maps the 4 KiB page at `addr` to the physical `page` with `perms`,
    /// creating the missing tables with pages taken from `alloc`.
    #[verifier::rlimit(100)]
    #[verifier::spinoff_prover]
    pub fn map_page(
        &mut self,
        mem: &mut PhysMem,
        alloc: &mut EarlyBootAllocator,
        addr: usize,
        page: usize,
        perms: Perms,
    ) -> (r: Result<(), Error>)
        requires
            old(alloc).valid(),
            old(alloc).addressable(),
            page < MAX_PHYS_ADDR,
        ensures
            final(self).base() == old(self).base(),
            final(alloc).valid(),
            final(alloc).addressable(),
            final(alloc).free_count() <= old(alloc).free_count(),
            final(alloc).free_count() + 3 >= old(alloc).free_count(),
            r matches Err(Error::AddrAlreadyMapped(a)) ==> a == addr,
            old(self).wf(*old(mem), *old(alloc)) ==> {
                &&& final(self).wf(*final(mem), *final(alloc))
                &&& old(self).levels().submap_of(final(self).levels())
                &&& final(alloc).avail().subset_of(old(alloc).avail())
                &&& present_kept(*old(mem), *final(mem), old(self).levels())
                &&& changed_only(*old(mem), *final(mem), old(alloc).avail().union(old(self).levels().dom()))
                &&& forall|t: usize| #[trigger] final(self).levels().contains_key(t) ==> old(
                    self,
                ).levels().contains_key(t) || old(alloc).avail().contains(t)
                &&& r == map_outcome(*old(mem), old(self).base(), addr, old(alloc).free_count())
                &&& r is Ok ==> walk(*final(mem), old(self).base(), addr) == Some(
                    (
                        Mapping::Page4K(PageTableEntry(leaf_entry(page, perms))),
                        addr_4k(leaf_entry(page, perms)) | (addr & PAGE_MASK),
                    ),
                )
                &&& forall|a: usize| #[trigger]
                    walk(*old(mem), old(self).base(), a) is Some ==> walk(
                        *final(mem),
                        old(self).base(),
                        a,
                    ) == walk(*old(mem), old(self).base(), a)
                &&& page_map_change(
                    *old(mem),
                    *final(mem),
                    old(self).levels(),
                    final(self).levels(),
                    old(self).base(),
                    addr,
                    leaf_entry(page, perms),
                    r is Ok,
                )
                &&& r matches Err(Error::AddrAlreadyMapped(_)) ==> forall|t: usize, i: int|
                    old(self).levels().contains_key(t) ==> #[trigger] final(mem).entry(t, i) == old(mem).entry(t, i)
                &&& r is Err && old(alloc).free_count() >= 3 && !path_null(*old(mem), old(self).base(), addr)
                    ==> forall|t: usize, i: int|
                    old(self).levels().contains_key(t) ==> #[trigger] final(mem).entry(t, i) == old(mem).entry(t, i)
            },
    {
        let ghost m0 = *mem;
        let ghost lv0 = self.levels@;
        let ghost av0 = alloc.avail();
        let ghost fc0 = alloc.free_count();
        let ghost wf0 = self.wf(*mem, *alloc);
        let ghost b = self.base;
        let ghost lf = leaf_entry(page, perms);
        proof {
            if wf0 {
                lemma_mf_start(m0, lv0, b, lf);
            }
            lemma_zero_entry();
            lemma_index_bound(addr as u64 >> 39u64);
            lemma_index_bound(addr as u64 >> 30u64);
            lemma_index_bound(addr as u64 >> 21u64);
            lemma_index_bound(addr as u64 >> 12u64);
        }
        let trans = LinearAddressPageTranslation::from_bits(addr as u64);
        let i4 = trans.pml4_idx();
        let i3 = trans.dir_ptr_idx();
        let i2 = trans.dir_idx();
        let i1 = trans.table_idx();

        // Page Map Level 4
        let a1 = alloc.get_page_zeroed(mem);
        let ghost m1 = *mem;
        let ghost av1 = alloc.avail();
        proof {
            if wf0 && a1 != 0 {
                lemma_zero_fresh(m0, m1, lv0, b, av0, av1, a1);
            }
            if wf0 {
                lemma_mf_zero(m0, m0, m1, lv0, lv0, b, av0, a1, lf, true, true);
            }
            if wf0 {
                lemma_link_bits(a1 as u64);
            }
        }
        let new4 = PageMapLevel4Entry::new().with_addr(a1).with_write_enabled(true);
        let mut bare4 = PageMapLevel4EntryBare::from_bits(mem.read(self.base, i4));
        let present4 = bare4.present();
        let pml4e = PageMapLevel4Entry::from_bare_or_overwrite(&mut bare4, new4);
        if !present4 {
            mem.write(self.base, i4, bare4.into_bits());
        }
        let ghost m2 = *mem;
        let ghost lv1 = if !present4 && a1 != 0 {
            lv0.insert(a1, 3)
        } else {
            lv0
        };
        let ghost nn1 = present4 || a1 != 0;
        let ghost nw1 = present4;
        proof {
            if wf0 {
                assert(m1.entry(b, i4 as int) == m0.entry(b, i4 as int));
                if !present4 {
                    lemma_link(m1, m2, lv0, b, av1, b, i4 as int, new4.0);
                    assert(new4.0 == link_entry(a1));
                    lemma_mf_link(m0, m1, m2, lv0, lv0, lv1, b, av1, b, i4 as int, new4.0, lf, true, true);
                } else {
                    lemma_mf_zero(m0, m1, m2, lv0, lv0, b, av1, a1, lf, true, true);
                }
                lemma_present_kept_trans(m0, m1, m2, lv0, lv0);
                assert(levels_ok(m2, lv1, b, av1));
            }
        }
        let dir_ptr_table = match pml4e.page_dir_ptr_table() {
            Some(t) => t,
            None => {
                proof {
                    if wf0 {
                        lemma_mf_exit(m0, m2, lv0, lv1, b, addr, lf, nn1, nw1);
                        lemma_walks_kept(m0, m2, lv0, b, av0);
                        if present4 {
                            assert(m0.entry(b, i4 as int) == pml4e.0);
                            assert(path_null(m0, b, addr));
                        } else {
                            assert(a1 == 0);
                            assert(!bit_present(m0.entry(b, i4 as int)));
                        }
                    }
                }
                self.levels = Ghost(lv1);
                return Err(Error::TableReferencesNull);
            },
        };

        // Page Directory Pointer Table
        let a2 = alloc.get_page_zeroed(mem);
        let ghost m3 = *mem;
        let ghost av2 = alloc.avail();
        proof {
            if wf0 && a2 != 0 {
                lemma_zero_fresh(m2, m3, lv1, b, av1, av2, a2);
            }
            if wf0 {
                lemma_mf_zero(m0, m2, m3, lv0, lv1, b, av1, a2, lf, nn1, nw1);
            }
            if wf0 {
                lemma_link_bits(a2 as u64);
            }
        }
        let new3 = PageDirectoryPointerEntry::NextLevel(
            PageDirRef::new().with_addr(a2).with_write_enabled(true),
        );
        let mut bare3 = PageDirectoryPointerEntryBare::from_bits(mem.read(dir_ptr_table, i3));
        let present3 = bare3.present();
        proof {
            if wf0 && !present4 {
                assert(dir_ptr_table == a1);
                assert(m1.entry(a1, i3 as int) == 0);
                assert(m2.entry(a1, i3 as int) == m1.entry(a1, i3 as int));
                assert(m3.entry(a1, i3 as int) == 0);
            }
        }
        let dir_ptr_entry = PageDirectoryPointerEntry::from_bare_or_overwrite(&mut bare3, new3);
        if !present3 {
            mem.write(dir_ptr_table, i3, bare3.into_bits());
        }
        let ghost m4 = *mem;
        let ghost lv2 = if !present3 && a2 != 0 {
            lv1.insert(a2, 2)
        } else {
            lv1
        };
        let ghost nn2 = nn1 && (present3 || a2 != 0);
        let ghost nw2 = nw1 && present3;
        proof {
            if wf0 {
                assert(lv1.contains_key(dir_ptr_table) && lv1[dir_ptr_table] == 3);
                if !present3 {
                    lemma_link(m3, m4, lv1, b, av2, dir_ptr_table, i3 as int, pdpe_bits(new3));
                    assert(pdpe_bits(new3) == link_entry(a2));
                    lemma_mf_link(m0, m3, m4, lv0, lv1, lv2, b, av2, dir_ptr_table, i3 as int, pdpe_bits(new3), lf, nn1, nw1);
                } else {
                    lemma_mf_zero(m0, m3, m4, lv0, lv1, b, av2, a2, lf, nn1, nw1);
                }
                lemma_present_kept_trans(m2, m3, m4, lv1, lv1);
                assert(levels_ok(m4, lv2, b, av2));
                lemma_present_kept_trans(m0, m2, m4, lv0, lv1);
                lemma_walks_kept(m0, m4, lv0, b, av0);
            }
        }
        let dir_table = match dir_ptr_entry {
            PageDirectoryPointerEntry::NextLevel(page_dir_ref) => match page_dir_ref.page_dir_table() {
                Some(t) => t,
                None => {
                    proof {
                        if wf0 {
                            lemma_mf_exit(m0, m4, lv0, lv2, b, addr, lf, nn2, nw2);
                        }
                    }
                    self.levels = Ghost(lv2);
                    return Err(Error::TableReferencesNull);
                },
            },
            PageDirectoryPointerEntry::Huge(_) => {
                proof {
                    if wf0 {
                        lemma_mf_exit(m0, m4, lv0, lv2, b, addr, lf, nn2, nw2);
                    }
                }
                self.levels = Ghost(lv2);
                return Err(Error::AddrAlreadyMapped(addr));
            },
        };

        // Page Directory
        let a3 = alloc.get_page_zeroed(mem);
        let ghost m5 = *mem;
        let ghost av3 = alloc.avail();
        proof {
            if wf0 && a3 != 0 {
                lemma_zero_fresh(m4, m5, lv2, b, av2, av3, a3);
            }
            if wf0 {
                lemma_mf_zero(m0, m4, m5, lv0, lv2, b, av2, a3, lf, nn2, nw2);
            }
            if wf0 {
                lemma_link_bits(a3 as u64);
            }
        }
        let new2 = PageDirectoryEntry::NextLevel(
            PageTableRef::new().with_addr(a3).with_write_enabled(true),
        );
        let mut bare2 = PageDirectoryEntryBare::from_bits(mem.read(dir_table, i2));
        let present2 = bare2.present();
        proof {
            if wf0 && !present3 {
                assert(dir_table == a2);
                assert(m3.entry(a2, i2 as int) == 0);
                assert(m4.entry(a2, i2 as int) == m3.entry(a2, i2 as int));
                assert(m5.entry(a2, i2 as int) == 0);
            }
        }
        let dir = PageDirectoryEntry::from_bare_or_overwrite(&mut bare2, new2);
        if !present2 {
            mem.write(dir_table, i2, bare2.into_bits());
        }
        let ghost m6 = *mem;
        let ghost lv3 = if !present2 && a3 != 0 {
            lv2.insert(a3, 1)
        } else {
            lv2
        };
        let ghost nn3 = nn2 && (present2 || a3 != 0);
        let ghost nw3 = nw2 && present2;
        proof {
            if wf0 {
                assert(lv2.contains_key(dir_table) && lv2[dir_table] == 2);
                if !present2 {
                    lemma_link(m5, m6, lv2, b, av3, dir_table, i2 as int, pde_bits(new2));
                    assert(pde_bits(new2) == link_entry(a3));
                    lemma_mf_link(m0, m5, m6, lv0, lv2, lv3, b, av3, dir_table, i2 as int, pde_bits(new2), lf, nn2, nw2);
                } else {
                    lemma_mf_zero(m0, m5, m6, lv0, lv2, b, av3, a3, lf, nn2, nw2);
                }
                lemma_present_kept_trans(m4, m5, m6, lv2, lv2);
                assert(levels_ok(m6, lv3, b, av3));
                lemma_present_kept_trans(m0, m4, m6, lv0, lv2);
                lemma_walks_kept(m0, m6, lv0, b, av0);
            }
        }
        let table = match dir {
            PageDirectoryEntry::NextLevel(page_table_ref) => match page_table_ref.page_table() {
                Some(t) => t,
                None => {
                    proof {
                        if wf0 {
                            lemma_mf_exit(m0, m6, lv0, lv3, b, addr, lf, nn3, nw3);
                        }
                    }
                    self.levels = Ghost(lv3);
                    return Err(Error::TableReferencesNull);
                },
            },
            PageDirectoryEntry::Huge(_) => {
                proof {
                    if wf0 {
                        lemma_mf_exit(m0, m6, lv0, lv3, b, addr, lf, nn3, nw3);
                    }
                }
                self.levels = Ghost(lv3);
                return Err(Error::AddrAlreadyMapped(addr));
            },
        };

        // Page Table
        let entry = PageTableEntryBare::from_bits(mem.read(table, i1));
        proof {
            if wf0 && !present2 {
                assert(table == a3);
                assert(m5.entry(a3, i1 as int) == 0);
                assert(m6.entry(a3, i1 as int) == m5.entry(a3, i1 as int));
            }
        }
        if entry.present() {
            proof {
                if wf0 {
                    lemma_mf_exit(m0, m6, lv0, lv3, b, addr, lf, nn3, nw3);
                }
            }
            self.levels = Ghost(lv3);
            return Err(Error::AddrAlreadyMapped(addr));
        }
        let leaf = PageTableEntry::new().with_addr(page).with_write_enabled(
            perms.write,
        ).with_execute_disabled(!perms.execute).to_bare();
        mem.write(table, i1, leaf.into_bits());
        let ghost m7 = *mem;
        proof {
            if wf0 {
                assert(lv3.contains_key(table) && lv3[table] == 1);
                lemma_link(m6, m7, lv3, b, av3, table, i1 as int, leaf.0);
                lemma_present_kept_trans(m0, m6, m7, lv0, lv3);
                lemma_walks_kept(m0, m7, lv0, b, av0);
                lemma_present_kept_trans(m2, m4, m6, lv1, lv2);
                lemma_present_kept_trans(m2, m6, m7, lv1, lv3);
                lemma_present_kept_trans(m4, m6, m7, lv2, lv3);
                assert(m7.entry(b, i4 as int) == pml4e.0);
                assert(m7.entry(dir_ptr_table, i3 as int) == pdpe_bits(dir_ptr_entry));
                assert(m7.entry(dir_table, i2 as int) == pde_bits(dir));
                assert(m7.entry(table, i1 as int) == leaf.0);
                lemma_leaf_bits(page as u64, perms.write, !perms.execute);
                assert(walk(m7, b, addr) == Some(
                    (
                        Mapping::Page4K(PageTableEntry(leaf_entry(page, perms))),
                        addr_4k(leaf_entry(page, perms)) | (addr & PAGE_MASK),
                    ),
                ));
                lemma_mf_leaf(m0, m6, m7, lv0, lv3, b, av3, table, i1 as int, leaf.0, addr, nw3);
            }
        }
        self.levels = Ghost(lv3);
        Ok(())
    }
}

/// An entry at `level` that references a table of the level below (a page
/// table's entries and huge pages reference none).
pub open spec fn links_table(level: nat, e: u64) -> bool {
    &&& bit_present(e)
    &&& 2 <= level
    &&& (level == 4 || !bit_huge(e))
}

/// Pages outside `av1` are unchanged from `m1` to `m2`.
pub open spec fn changed_only(m1: PhysMem, m2: PhysMem, av1: Set<usize>) -> bool {
    forall|t: usize, i: int| !av1.contains(t) ==> #[trigger] m2.entry(t, i) == m1.entry(t, i)
}

/// `de` is the copy of the entry `e` at `level`: a missing entry is zero, a
/// page is copied bit for bit, and a reference to a table keeps its flags but
/// references a copy of that table, made of pages in `own`.
pub open spec fn entry_copied(m: PhysMem, own: Set<usize>, level: nat, de: u64, e: u64) -> bool
    decreases level, 0nat,
{
    if !bit_present(e) {
        de == 0
    } else if !links_table(level, e) {
        de == e
    } else {
        let c = addr_4k(de);
        &&& de == replace_bits(e, ADDR_MASK_4K, c as u64)
        &&& c != 0
        &&& own.contains(c)
        &&& table_copied(m, own, (level - 1) as nat, c, addr_4k(e))
    }
}

/// The table at `d` is a copy of the table at `s`, both at `level`.
pub open spec fn table_copied(m: PhysMem, own: Set<usize>, level: nat, d: usize, s: usize) -> bool
    decreases level, 1nat,
{
    forall|k: int| 0 <= k < 512 ==> entry_copied(m, own, level, #[trigger] m.entry(d, k), m.entry(s, k))
}

/// The entry `e` at `level` can be followed when copying: a reference to a
/// table is not null and leads to a table whose tables lie outside `av`.
pub open spec fn src_entry_ok(m: PhysMem, av: Set<usize>, level: nat, e: u64) -> bool
    decreases level, 0nat,
{
    if links_table(level, e) {
        addr_4k(e) != 0 && src_table_ok(m, av, (level - 1) as nat, addr_4k(e))
    } else {
        true
    }
}

/// The table at `s`, at `level`, and every table below it lie outside `av`
/// and reference no null table.
pub open spec fn src_table_ok(m: PhysMem, av: Set<usize>, level: nat, s: usize) -> bool
    decreases level, 1nat,
{
    &&& !av.contains(s)
    &&& forall|k: int| 0 <= k < 512 ==> src_entry_ok(m, av, level, #[trigger] m.entry(s, k))
}

/// Pages needed to copy the tables below the entry `e` at `level`.
pub open spec fn entry_cost(m: PhysMem, level: nat, e: u64) -> nat
    decreases level, 0nat, 0int,
{
    if links_table(level, e) {
        1 + table_cost_from(m, (level - 1) as nat, addr_4k(e), 0)
    } else {
        0
    }
}

/// Pages needed to copy the tables below entries `k..512` of the table at `s`.
pub open spec fn table_cost_from(m: PhysMem, level: nat, s: usize, k: int) -> nat
    decreases level, 1nat, 512 - k,
{
    if k >= 512 || k < 0 {
        0
    } else {
        entry_cost(m, level, m.entry(s, k)) + table_cost_from(m, level, s, k + 1)
    }
}

/// Pages needed to duplicate the whole hierarchy under the PML4 at `base`.
pub open spec fn duplicate_cost(m: PhysMem, base: usize) -> nat {
    1 + table_cost_from(m, 4, base, 0)
}

/// Replacing the address of an entry keeps its present and page-size bits.
pub proof fn lemma_replace_addr(e: u64, v: u64)
    by (bit_vector)
    ensures
        replace_bits(e, ADDR_MASK_4K, v) & 1 == e & 1,
        replace_bits(e, ADDR_MASK_4K, v) & 0x80 == e & 0x80,
        replace_bits(e, ADDR_MASK_4K, v) & ADDR_MASK_4K == v & ADDR_MASK_4K,
{
}

/// A source hierarchy stays fit for copying, and its cost stays the same,
/// while only pages of `av1` change and the available pages shrink.
pub proof fn lemma_src_stable(
    m1: PhysMem,
    m2: PhysMem,
    av1: Set<usize>,
    av2: Set<usize>,
    level: nat,
    s: usize,
)
    requires
        src_table_ok(m1, av1, level, s),
        changed_only(m1, m2, av1),
        av2.subset_of(av1),
    ensures
        src_table_ok(m2, av2, level, s),
    decreases level,
{
    assert forall|k: int| 0 <= k < 512 implies src_entry_ok(m2, av2, level, #[trigger] m2.entry(s, k)) by {
        assert(m2.entry(s, k) == m1.entry(s, k));
        assert(src_entry_ok(m1, av1, level, m1.entry(s, k)));
        let e = m1.entry(s, k);
        if links_table(level, e) {
            lemma_src_stable(m1, m2, av1, av2, (level - 1) as nat, addr_4k(e));
        }
    }
}

/// The cost of copying a source hierarchy does not change while only pages of `av1` change.
pub proof fn lemma_cost_stable(m1: PhysMem, m2: PhysMem, av1: Set<usize>, level: nat, s: usize, k: int)
    requires
        src_table_ok(m1, av1, level, s),
        changed_only(m1, m2, av1),
    ensures
        table_cost_from(m2, level, s, k) == table_cost_from(m1, level, s, k),
    decreases level, 512 - k,
{
    if 0 <= k < 512 {
        assert(m2.entry(s, k) == m1.entry(s, k));
        assert(src_entry_ok(m1, av1, level, m1.entry(s, k)));
        let e = m1.entry(s, k);
        if links_table(level, e) {
            lemma_cost_stable(m1, m2, av1, (level - 1) as nat, addr_4k(e), 0);
        }
        assert(entry_cost(m2, level, e) == entry_cost(m1, level, e));
        lemma_cost_stable(m1, m2, av1, level, s, k + 1);
        assert(table_cost_from(m2, level, s, k) == entry_cost(m2, level, m2.entry(s, k))
            + table_cost_from(m2, level, s, k + 1));
    }
}

/// A copy stays a copy, with a larger set of pages it may be made of, while
/// its own pages are unchanged and the source's pages lie outside the pages `x`
/// that may change.
pub proof fn lemma_copied_stable(
    m1: PhysMem,
    m2: PhysMem,
    own1: Set<usize>,
    own2: Set<usize>,
    x: Set<usize>,
    level: nat,
    d: usize,
    s: usize,
)
    requires
        table_copied(m1, own1, level, d, s),
        own1.subset_of(own2),
        forall|t: usize, i: int| own1.contains(t) ==> #[trigger] m2.entry(t, i) == m1.entry(t, i),
        forall|i: int| #[trigger] m2.entry(d, i) == m1.entry(d, i),
        src_table_ok(m1, x, level, s),
        changed_only(m1, m2, x),
    ensures
        table_copied(m2, own2, level, d, s),
    decreases level,
{
    assert forall|k: int| 0 <= k < 512 implies entry_copied(
        m2,
        own2,
        level,
        #[trigger] m2.entry(d, k),
        m2.entry(s, k),
    ) by {
        assert(m2.entry(d, k) == m1.entry(d, k));
        assert(m2.entry(s, k) == m1.entry(s, k));
        assert(entry_copied(m1, own1, level, m1.entry(d, k), m1.entry(s, k)));
        assert(src_entry_ok(m1, x, level, m1.entry(s, k)));
        let e = m1.entry(s, k);
        let de = m1.entry(d, k);
        if bit_present(e) && links_table(level, e) {
            lemma_copied_stable(m1, m2, own1, own2, x, (level - 1) as nat, addr_4k(de), addr_4k(e));
        }
    }
}

/// A copy of a PML4 translates every address as the original does.
pub proof fn lemma_copy_walk(m: PhysMem, own: Set<usize>, av: Set<usize>, d: usize, s: usize, a: usize)
    requires
        table_copied(m, own, 4, d, s),
        src_table_ok(m, av, 4, s),
    ensures
        walk(m, d, a) == walk(m, s, a),
{
    lemma_zero_entry();
    lemma_index_bound(a as u64 >> 39u64);
    lemma_index_bound(a as u64 >> 30u64);
    lemma_index_bound(a as u64 >> 21u64);
    lemma_index_bound(a as u64 >> 12u64);
    let e4 = m.entry(s, pml4_index(a));
    let de4 = m.entry(d, pml4_index(a));
    assert(entry_copied(m, own, 4, de4, e4));
    assert(src_entry_ok(m, av, 4, e4));
    if bit_present(e4) {
        lemma_replace_addr(e4, addr_4k(de4) as u64);
        let s3 = addr_4k(e4);
        let d3 = addr_4k(de4);
        let e3 = m.entry(s3, pdpt_index(a));
        let de3 = m.entry(d3, pdpt_index(a));
        assert(entry_copied(m, own, 3, de3, e3));
        assert(src_entry_ok(m, av, 3, e3));
        if bit_present(e3) && !bit_huge(e3) {
            lemma_replace_addr(e3, addr_4k(de3) as u64);
            let s2 = addr_4k(e3);
            let d2 = addr_4k(de3);
            let e2 = m.entry(s2, pd_index(a));
            let de2 = m.entry(d2, pd_index(a));
            assert(entry_copied(m, own, 2, de2, e2));
            assert(src_entry_ok(m, av, 2, e2));
            if bit_present(e2) && !bit_huge(e2) {
                lemma_replace_addr(e2, addr_4k(de2) as u64);
                let s1 = addr_4k(e2);
                let d1 = addr_4k(de2);
                assert(entry_copied(m, own, 1, m.entry(d1, pt_index(a)), m.entry(s1, pt_index(a))));
            }
        }
    }
}

/// What copying the table at `s` (at `level`) into the fresh table `d` leaves
/// behind: `d` is a copy of `s` built from `cost` pages that `a1` handed out,
/// `sub` gives the levels of the copy's tables, and no page that `a1` still had
/// to hand out before was changed unless it was handed out.
pub open spec fn dup_done(
    m1: PhysMem,
    m2: PhysMem,
    a1: EarlyBootAllocator,
    a2: EarlyBootAllocator,
    level: nat,
    d: usize,
    s: usize,
    sub: Map<usize, int>,
    cost: nat,
) -> bool {
    &&& a2.sound()
    &&& a2.avail().subset_of(a1.avail())
    &&& a2.free_count() + cost == a1.free_count()
    &&& d != 0
    &&& d % 4096 == 0
    &&& d + 4096 <= MAX_PHYS_ADDR
    &&& a1.avail().contains(d)
    &&& !a2.avail().contains(d)
    &&& changed_only(m1, m2, a1.avail())
    &&& changed_only(m1, m2, a1.avail().difference(a2.avail()))
    &&& table_copied(m2, sub.dom(), level, d, s)
    &&& sub.contains_key(d) && sub[d] == level
    &&& hierarchy_ok(m2, sub, a2.avail())
    &&& forall|t: usize| #[trigger] sub.contains_key(t) ==> a1.avail().contains(t)
    &&& unshared(m2, sub)
    &&& forall|t: usize| #[trigger] sub.contains_key(t) ==> sub[t] <= level
}

/// Copies the page table at `src` into a fresh page: present entries bit for
/// bit, the others as zeros.
fn dup_pt(mem: &mut PhysMem, alloc: &mut EarlyBootAllocator, src: usize) -> (r: (
    usize,
    Ghost<Map<usize, int>>,
))
    requires
        old(alloc).sound(),
        old(alloc).free_count() >= 1,
        src_table_ok(*old(mem), old(alloc).avail(), 1, src),
    ensures
        dup_done(*old(mem), *final(mem), *old(alloc), *final(alloc), 1, r.0, src, r.1@, 1),
{
    let ghost m0 = *mem;
    let ghost av0 = alloc.avail();
    let dest = alloc.get_page_zeroed(mem);
    let ghost m1 = *mem;
    let ghost av1 = alloc.avail();
    proof {
        lemma_zero_entry();
        assert(src != dest);
    }
    let mut l: usize = 0;
    while l < 512
        invariant
            0 <= l <= 512,
            src != dest,
            dest != 0,
            av0.contains(dest),
            !av1.contains(dest),
            !av0.contains(src),
            av1.subset_of(av0),
            mem_zeroed(m0, m1, dest),
            forall|t: usize, i: int| t != dest ==> #[trigger] mem.entry(t, i) == m1.entry(t, i),
            forall|k: int|
                0 <= k < l ==> entry_copied(*mem, Set::empty(), 1, #[trigger] mem.entry(dest, k), mem.entry(src, k)),
            forall|k: int| l <= k < 512 ==> #[trigger] mem.entry(dest, k) == 0,
        decreases 512 - l,
    {
        let bare = PageTableEntryBare::from_bits(mem.read(src, l));
        let ghost mb = *mem;
        if let Some(src_pte) = PageTableEntry::from_bare(bare) {
            mem.write(dest, l, src_pte.to_bare().into_bits());
        }
        proof {
            assert forall|k: int| 0 <= k < l + 1 implies entry_copied(
                *mem,
                Set::empty(),
                1,
                #[trigger] mem.entry(dest, k),
                mem.entry(src, k),
            ) by {
                assert(mem.entry(src, k) == mb.entry(src, k));
                if k < l {
                    assert(entry_copied(mb, Set::empty(), 1, mb.entry(dest, k), mb.entry(src, k)));
                }
            }
        }
        l += 1;
    }
    let ghost sub = Map::<usize, int>::empty().insert(dest, 1);
    proof {
        assert(unshared(*mem, sub));
        assert(table_copied(*mem, Set::empty(), 1, dest, src));
        assert forall|k: int| 0 <= k < 512 implies entry_copied(
            *mem,
            sub.dom(),
            1,
            #[trigger] mem.entry(dest, k),
            mem.entry(src, k),
        ) by {
            assert(entry_copied(*mem, Set::empty(), 1, mem.entry(dest, k), mem.entry(src, k)));
        }
        assert forall|t: usize, i: int| !av0.contains(t) implies #[trigger] mem.entry(t, i) == m0.entry(t, i) by {
            assert(t != dest);
        }
        assert forall|t: usize, i: int| !av0.difference(alloc.avail()).contains(t) implies #[trigger] mem.entry(t, i)
            == m0.entry(t, i) by {
            assert(t != dest);
        }
    }
    (dest, Ghost(sub))
}

/// A hierarchy is kept while its tables are unchanged and the available pages shrink.
pub proof fn lemma_hierarchy_stable(
    m1: PhysMem,
    m2: PhysMem,
    lv: Map<usize, int>,
    av1: Set<usize>,
    av2: Set<usize>,
)
    requires
        hierarchy_ok(m1, lv, av1),
        forall|t: usize, i: int| lv.contains_key(t) ==> #[trigger] m2.entry(t, i) == m1.entry(t, i),
        av2.subset_of(av1),
    ensures
        hierarchy_ok(m2, lv, av2),
{
    assert forall|t: usize, i: int|
        lv.contains_key(t) && 0 <= i < 512 && references_table(lv[t], #[trigger] m2.entry(t, i))
            implies lv.contains_key(addr_4k(m2.entry(t, i))) && lv[addr_4k(m2.entry(t, i))] == lv[t]
        - 1 by {
        assert(m2.entry(t, i) == m1.entry(t, i));
    }
}

/// Two hierarchies on disjoint sets of tables make one.
pub proof fn lemma_hierarchy_union(m: PhysMem, lv1: Map<usize, int>, lv2: Map<usize, int>, av: Set<usize>)
    requires
        hierarchy_ok(m, lv1, av),
        hierarchy_ok(m, lv2, av),
        forall|t: usize| #[trigger] lv1.contains_key(t) ==> !lv2.contains_key(t),
    ensures
        hierarchy_ok(m, lv1.union_prefer_right(lv2), av),
{
    let lv = lv1.union_prefer_right(lv2);
    assert forall|t: usize| #[trigger] lv.contains_key(t) implies !av.contains(t) && 1 <= lv[t] <= 4 by {
        if lv2.contains_key(t) {
        } else {
            assert(lv1.contains_key(t));
        }
    }
    assert forall|t: usize, i: int|
        lv.contains_key(t) && 0 <= i < 512 && references_table(lv[t], #[trigger] m.entry(t, i))
            implies lv.contains_key(addr_4k(m.entry(t, i))) && lv[addr_4k(m.entry(t, i))] == lv[t]
        - 1 by {
        if lv2.contains_key(t) {
            assert(lv2.contains_key(addr_4k(m.entry(t, i))));
        } else {
            assert(lv1.contains_key(t));
            assert(lv1.contains_key(addr_4k(m.entry(t, i))));
        }
    }
}

/// A table whose references lead into a hierarchy joins it at the level above.
pub proof fn lemma_hierarchy_add_root(m: PhysMem, lv: Map<usize, int>, av: Set<usize>, d: usize, level: int)
    requires
        hierarchy_ok(m, lv, av),
        !lv.contains_key(d),
        !av.contains(d),
        1 <= level <= 4,
        forall|i: int|
            0 <= i < 512 && references_table(level, #[trigger] m.entry(d, i)) ==> lv.contains_key(
                addr_4k(m.entry(d, i)),
            ) && lv[addr_4k(m.entry(d, i))] == level - 1,
    ensures
        hierarchy_ok(m, lv.insert(d, level), av),
{
    let lv2 = lv.insert(d, level);
    assert forall|t: usize, i: int|
        lv2.contains_key(t) && 0 <= i < 512 && references_table(lv2[t], #[trigger] m.entry(t, i))
            implies lv2.contains_key(addr_4k(m.entry(t, i))) && lv2[addr_4k(m.entry(t, i))] == lv2[t]
        - 1 by {
        if t != d {
            assert(lv.contains_key(t));
            assert(lv.contains_key(addr_4k(m.entry(t, i))));
        }
    }
}

/// Page tables reference no tables, so copying them takes no further pages.
pub proof fn lemma_cost_level1(m: PhysMem, s: usize, k: int)
    ensures
        table_cost_from(m, 1, s, k) == 0,
    decreases 512 - k,
{
    if 0 <= k < 512 {
        lemma_cost_level1(m, s, k + 1);
        assert(!links_table(1, m.entry(s, k)));
        assert(entry_cost(m, 1, m.entry(s, k)) == 0);
    }
}

/// A copy made of some pages is also a copy made of more pages.
pub proof fn lemma_entry_copied_grow(
    m: PhysMem,
    own1: Set<usize>,
    own2: Set<usize>,
    x: Set<usize>,
    level: nat,
    de: u64,
    e: u64,
)
    requires
        entry_copied(m, own1, level, de, e),
        src_entry_ok(m, x, level, e),
        own1.subset_of(own2),
    ensures
        entry_copied(m, own2, level, de, e),
{
    if bit_present(e) && links_table(level, e) {
        lemma_copied_stable(m, m, own1, own2, x, (level - 1) as nat, addr_4k(de), addr_4k(e));
    }
}

/// Copies the page directory at `src` into a fresh page, copying each page
/// table it references into a fresh page too; 2 MiB pages are copied bit for bit.
#[verifier::rlimit(80)]
#[verifier::spinoff_prover]
fn dup_pd(mem: &mut PhysMem, alloc: &mut EarlyBootAllocator, src: usize) -> (r: (
    usize,
    Ghost<Map<usize, int>>,
))
    requires
        old(alloc).sound(),
        old(alloc).free_count() >= 1 + table_cost_from(*old(mem), 2, src, 0),
        src_table_ok(*old(mem), old(alloc).avail(), 2, src),
    ensures
        dup_done(
            *old(mem),
            *final(mem),
            *old(alloc),
            *final(alloc),
            2,
            r.0,
            src,
            r.1@,
            1 + table_cost_from(*old(mem), 2, src, 0),
        ),
{
    let ghost m0 = *mem;
    let ghost av0 = alloc.avail();
    let ghost fc0 = alloc.free_count();
    let dest_pdt = alloc.get_page_zeroed(mem);
    let ghost m1 = *mem;
    let ghost av1 = alloc.avail();
    proof {
        lemma_zero_entry();
        lemma_src_stable(m0, m1, av0, av0, 2, src);
    }
    proof {
        assert forall|t: usize, i: int| !av0.difference(av1).contains(t) implies #[trigger] m1.entry(t, i)
            == m0.entry(t, i) by {
            assert(t != dest_pdt);
        }
    }
    let ghost mut sub = Map::<usize, int>::empty();
    let mut k: usize = 0;
    while k < 512
        invariant
            0 <= k <= 512,
            dest_pdt != 0,
            dest_pdt % 4096 == 0,
            dest_pdt + 4096 <= MAX_PHYS_ADDR,
            av0.contains(dest_pdt),
            !av1.contains(dest_pdt),
            av1.subset_of(av0),
            !av0.contains(src),
            alloc.sound(),
            alloc.avail().subset_of(av1),
            fc0 >= 1 + table_cost_from(m0, 2, src, 0),
            alloc.free_count() + table_cost_from(m0, 2, src, 0) == fc0 - 1 + table_cost_from(
                m0,
                2,
                src,
                k as int,
            ),
            changed_only(m0, *mem, av0),
            changed_only(m0, *mem, av0.difference(alloc.avail())),
            src_table_ok(*mem, av0, 2, src),
            forall|t: usize| #[trigger] sub.contains_key(t) ==> av1.contains(t),
            hierarchy_ok(*mem, sub, alloc.avail()),
            forall|j: int|
                0 <= j < k ==> entry_copied(
                    *mem,
                    sub.dom(),
                    2,
                    #[trigger] mem.entry(dest_pdt, j),
                    mem.entry(src, j),
                ),
            forall|j: int|
                0 <= j < k && references_table(2, #[trigger] mem.entry(dest_pdt, j)) ==> sub.contains_key(
                    addr_4k(mem.entry(dest_pdt, j)),
                ) && sub[addr_4k(mem.entry(dest_pdt, j))] == 1,
            forall|j: int| k <= j < 512 ==> #[trigger] mem.entry(dest_pdt, j) == 0,
            unshared(*mem, sub),
            forall|t: usize| #[trigger] sub.contains_key(t) ==> sub[t] <= 2 - 1,
            links_distinct(*mem, dest_pdt, k as int, 2),
        decreases 512 - k,
    {
        let ghost mb = *mem;
        let ghost avb = alloc.avail();
        let ghost subb = sub;
        let ghost mut sub_new = Map::<usize, int>::empty();
        let ghost e = mb.entry(src, k as int);
        proof {
            assert(mb.entry(src, k as int) == m0.entry(src, k as int));
            assert(src_entry_ok(mb, av0, 2, e));
            assert(table_cost_from(m0, 2, src, k as int) == entry_cost(m0, 2, e) + table_cost_from(
                m0,
                2,
                src,
                k + 1,
            ));
        }
        match PageDirectoryEntry::from_bare(PageDirectoryEntryBare::from_bits(mem.read(src, k))) {
            None => {},
            Some(PageDirectoryEntry::Huge(huge)) => {
                mem.write(dest_pdt, k, PageDirectoryEntry::Huge(huge).to_bare().into_bits());
                proof {
                    assert forall|t: usize, i: int| !av0.difference(alloc.avail()).contains(t) implies #[trigger] mem.entry(
                        t,
                        i,
                    ) == m0.entry(t, i) by {
                        assert(t != dest_pdt);
                        assert(mem.entry(t, i) == mb.entry(t, i));
                    }
                }
            },
            Some(PageDirectoryEntry::NextLevel(src_ptr)) => {
                proof {
                    lemma_src_stable(mb, mb, av0, avb, 1, addr_4k(e));
                    lemma_cost_level1(m0, addr_4k(e), 0);
                    assert(links_table(2, e));
                    assert(entry_cost(m0, 2, e) == 1);
                }
                let src_pt = src_ptr.page_table().unwrap();
                let (dest_pt, Ghost(sub_c)) = dup_pt(mem, alloc, src_pt);
                let ghost ma = *mem;
                let ghost ava = alloc.avail();
                proof {
                    lemma_aligned_addr(dest_pt as u64);
                    lemma_replace_addr(e, dest_pt as u64);
                }
                mem.write(
                    dest_pdt,
                    k,
                    PageDirectoryEntry::NextLevel(
                        PageTableRef::from_bits(src_ptr.into_bits()).with_addr(dest_pt),
                    ).to_bare().into_bits(),
                );
                proof {
                    lemma_hierarchy_stable(mb, *mem, subb, avb, alloc.avail());
                    lemma_hierarchy_stable(ma, *mem, sub_c, alloc.avail(), alloc.avail());
                    lemma_hierarchy_union(*mem, subb, sub_c, alloc.avail());
                    sub = subb.union_prefer_right(sub_c);
                    sub_new = sub_c;
                    assert forall|t: usize, i: int| sub_c.contains_key(t) implies #[trigger] mem.entry(t, i) == ma.entry(t, i) by {
                        assert(t != dest_pdt);
                    }
                    lemma_unshared_stable(ma, *mem, sub_c);
                    lemma_copied_stable(ma, *mem, sub_c.dom(), sub.dom(), av0, 1, dest_pt, src_pt);
                    assert(changed_only(mb, *mem, av0));
                    assert forall|t: usize, i: int| !av0.difference(alloc.avail()).contains(t) implies #[trigger] mem.entry(
                        t,
                        i,
                    ) == m0.entry(t, i) by {
                        assert(t != dest_pdt);
                        assert(!avb.difference(ava).contains(t));
                        assert(ma.entry(t, i) == mb.entry(t, i));
                        assert(!av0.difference(avb).contains(t));
                    }
                    assert(addr_4k(mem.entry(dest_pdt, k as int)) == dest_pt);
                    assert(entry_copied(*mem, sub.dom(), 2, mem.entry(dest_pdt, k as int), e));
                }
            },
        }
        proof {
            lemma_zero_entry();
            assert(entry_copied(*mem, sub.dom(), 2, mem.entry(dest_pdt, k as int), mem.entry(src, k as int)));
            assert(sub =~= subb.union_prefer_right(sub_new));
            assert(forall|t: usize, i: int| subb.contains_key(t) ==> #[trigger] mem.entry(t, i) == mb.entry(t, i));
            assert forall|j: int| j != k implies #[trigger] mem.entry(dest_pdt, j) == mb.entry(dest_pdt, j) by {
                assert(!avb.difference(alloc.avail()).contains(dest_pdt));
            }
            lemma_hierarchy_stable(mb, *mem, subb, avb, alloc.avail());
            lemma_dup_step_unshared(mb, *mem, subb, sub_new, dest_pdt, k as int, 2, alloc.avail());
            assert(references_table(2, mem.entry(dest_pdt, k as int)) ==> sub.contains_key(
                addr_4k(mem.entry(dest_pdt, k as int)),
            ) && sub[addr_4k(mem.entry(dest_pdt, k as int))] == 1);
            assert(forall|t: usize, i: int| subb.contains_key(t) ==> #[trigger] mem.entry(t, i) == mb.entry(t, i));
            assert forall|j: int|
                0 <= j < k + 1 implies entry_copied(
                *mem,
                sub.dom(),
                2,
                #[trigger] mem.entry(dest_pdt, j),
                mem.entry(src, j),
            ) && (references_table(2, mem.entry(dest_pdt, j)) ==> sub.contains_key(
                addr_4k(mem.entry(dest_pdt, j)),
            ) && sub[addr_4k(mem.entry(dest_pdt, j))] == 1) by {
                if j < k {
                    let ej = mb.entry(src, j);
                    let dej = mb.entry(dest_pdt, j);
                    assert(mem.entry(dest_pdt, j) == dej);
                    assert(mem.entry(src, j) == ej);
                    assert(entry_copied(mb, subb.dom(), 2, dej, ej));
                    assert(src_entry_ok(mb, av0, 2, ej));
                    if bit_present(ej) && links_table(2, ej) {
                        lemma_copied_stable(mb, *mem, subb.dom(), sub.dom(), av0, 1, addr_4k(dej), addr_4k(ej));
                        assert(subb.contains_key(addr_4k(dej)));
                        assert(sub[addr_4k(dej)] == subb[addr_4k(dej)]);
                    }
                }
            }
            lemma_src_stable(mb, *mem, av0, av0, 2, src);
        }
        k += 1;
    }
    let ghost sub_f = sub.insert(dest_pdt, 2);
    proof {
        lemma_hierarchy_add_root(*mem, sub, alloc.avail(), dest_pdt, 2);
        lemma_dup_root_unshared(*mem, sub, dest_pdt, 2, alloc.avail());
        assert forall|j: int| 0 <= j < 512 implies entry_copied(
            *mem,
            sub_f.dom(),
            2,
            #[trigger] mem.entry(dest_pdt, j),
            mem.entry(src, j),
        ) by {
            assert(src_entry_ok(*mem, av0, 2, mem.entry(src, j)));
            lemma_entry_copied_grow(*mem, sub.dom(), sub_f.dom(), av0, 2, mem.entry(dest_pdt, j), mem.entry(src, j));
        }
        assert(table_copied(*mem, sub_f.dom(), 2, dest_pdt, src));
    }
    (dest_pdt, Ghost(sub_f))
}

/// Copies the page-directory-pointer table at `src` into a fresh page, copying
/// each page directory it references as `dup_pd` does; 1 GiB pages are copied bit for bit.
#[verifier::rlimit(80)]
#[verifier::spinoff_prover]
fn dup_pdpt(mem: &mut PhysMem, alloc: &mut EarlyBootAllocator, src: usize) -> (r: (
    usize,
    Ghost<Map<usize, int>>,
))
    requires
        old(alloc).sound(),
        old(alloc).free_count() >= 1 + table_cost_from(*old(mem), 3, src, 0),
        src_table_ok(*old(mem), old(alloc).avail(), 3, src),
    ensures
        dup_done(
            *old(mem),
            *final(mem),
            *old(alloc),
            *final(alloc),
            3,
            r.0,
            src,
            r.1@,
            1 + table_cost_from(*old(mem), 3, src, 0),
        ),
{
    let ghost m0 = *mem;
    let ghost av0 = alloc.avail();
    let ghost fc0 = alloc.free_count();
    let dest_pdpt = alloc.get_page_zeroed(mem);
    let ghost m1 = *mem;
    let ghost av1 = alloc.avail();
    proof {
        lemma_zero_entry();
        lemma_src_stable(m0, m1, av0, av0, 3, src);
    }
    proof {
        assert forall|t: usize, i: int| !av0.difference(av1).contains(t) implies #[trigger] m1.entry(t, i)
            == m0.entry(t, i) by {
            assert(t != dest_pdpt);
        }
    }
    let ghost mut sub = Map::<usize, int>::empty();
    let mut k: usize = 0;
    while k < 512
        invariant
            0 <= k <= 512,
            dest_pdpt != 0,
            dest_pdpt % 4096 == 0,
            dest_pdpt + 4096 <= MAX_PHYS_ADDR,
            av0.contains(dest_pdpt),
            !av1.contains(dest_pdpt),
            av1.subset_of(av0),
            !av0.contains(src),
            alloc.sound(),
            alloc.avail().subset_of(av1),
            fc0 >= 1 + table_cost_from(m0, 3, src, 0),
            alloc.free_count() + table_cost_from(m0, 3, src, 0) == fc0 - 1 + table_cost_from(
                m0,
                3,
                src,
                k as int,
            ),
            changed_only(m0, *mem, av0),
            changed_only(m0, *mem, av0.difference(alloc.avail())),
            src_table_ok(*mem, av0, 3, src),
            src_table_ok(m0, av0, 3, src),
            forall|t: usize| #[trigger] sub.contains_key(t) ==> av1.contains(t),
            hierarchy_ok(*mem, sub, alloc.avail()),
            forall|j: int|
                0 <= j < k ==> entry_copied(
                    *mem,
                    sub.dom(),
                    3,
                    #[trigger] mem.entry(dest_pdpt, j),
                    mem.entry(src, j),
                ),
            forall|j: int|
                0 <= j < k && references_table(3, #[trigger] mem.entry(dest_pdpt, j)) ==> sub.contains_key(
                    addr_4k(mem.entry(dest_pdpt, j)),
                ) && sub[addr_4k(mem.entry(dest_pdpt, j))] == 2,
            forall|j: int| k <= j < 512 ==> #[trigger] mem.entry(dest_pdpt, j) == 0,
            unshared(*mem, sub),
            forall|t: usize| #[trigger] sub.contains_key(t) ==> sub[t] <= 3 - 1,
            links_distinct(*mem, dest_pdpt, k as int, 3),
        decreases 512 - k,
    {
        let ghost mb = *mem;
        let ghost avb = alloc.avail();
        let ghost subb = sub;
        let ghost mut sub_new = Map::<usize, int>::empty();
        let ghost e = mb.entry(src, k as int);
        proof {
            assert(mb.entry(src, k as int) == m0.entry(src, k as int));
            assert(src_entry_ok(mb, av0, 3, e));
            assert(table_cost_from(m0, 3, src, k as int) == entry_cost(m0, 3, e) + table_cost_from(
                m0,
                3,
                src,
                k + 1,
            ));
        }
        match PageDirectoryPointerEntry::from_bare(PageDirectoryPointerEntryBare::from_bits(mem.read(src, k))) {
            None => {},
            Some(PageDirectoryPointerEntry::Huge(huge)) => {
                mem.write(dest_pdpt, k, PageDirectoryPointerEntry::Huge(huge).to_bare().into_bits());
                proof {
                    assert forall|t: usize, i: int| !av0.difference(alloc.avail()).contains(t) implies #[trigger] mem.entry(
                        t,
                        i,
                    ) == m0.entry(t, i) by {
                        assert(t != dest_pdpt);
                        assert(mem.entry(t, i) == mb.entry(t, i));
                    }
                }
            },
            Some(PageDirectoryPointerEntry::NextLevel(src_pdtr)) => {
                proof {
                    lemma_src_stable(mb, mb, av0, avb, 2, addr_4k(e));
                    assert(src_entry_ok(m0, av0, 3, m0.entry(src, k as int)));
                    lemma_cost_stable(m0, mb, av0, 2, addr_4k(e), 0);
                    assert(links_table(3, e));
                    assert(entry_cost(m0, 3, e) == 1 + table_cost_from(m0, 2, addr_4k(e), 0));
                }
                let src_pdt = src_pdtr.page_dir_table().unwrap();
                let (dest_pdt, Ghost(sub_c)) = dup_pd(mem, alloc, src_pdt);
                let ghost ma = *mem;
                let ghost ava = alloc.avail();
                proof {
                    assert(changed_only(mb, ma, av0));
                    lemma_src_stable(mb, ma, av0, av0, 2, src_pdt);
                    lemma_aligned_addr(dest_pdt as u64);
                    lemma_replace_addr(e, dest_pdt as u64);
                }
                mem.write(
                    dest_pdpt,
                    k,
                    PageDirectoryPointerEntry::NextLevel(
                        PageDirRef::from_bits(src_pdtr.into_bits()).with_addr(dest_pdt),
                    ).to_bare().into_bits(),
                );
                proof {
                    lemma_hierarchy_stable(mb, *mem, subb, avb, alloc.avail());
                    lemma_hierarchy_stable(ma, *mem, sub_c, alloc.avail(), alloc.avail());
                    lemma_hierarchy_union(*mem, subb, sub_c, alloc.avail());
                    sub = subb.union_prefer_right(sub_c);
                    sub_new = sub_c;
                    assert forall|t: usize, i: int| sub_c.contains_key(t) implies #[trigger] mem.entry(t, i) == ma.entry(t, i) by {
                        assert(t != dest_pdpt);
                    }
                    lemma_unshared_stable(ma, *mem, sub_c);
                    lemma_copied_stable(ma, *mem, sub_c.dom(), sub.dom(), av0, 2, dest_pdt, src_pdt);
                    assert(changed_only(mb, *mem, av0));
                    assert forall|t: usize, i: int| !av0.difference(alloc.avail()).contains(t) implies #[trigger] mem.entry(
                        t,
                        i,
                    ) == m0.entry(t, i) by {
                        assert(t != dest_pdpt);
                        assert(!avb.difference(ava).contains(t));
                        assert(ma.entry(t, i) == mb.entry(t, i));
                        assert(!av0.difference(avb).contains(t));
                    }
                    assert(addr_4k(mem.entry(dest_pdpt, k as int)) == dest_pdt);
                    assert(entry_copied(*mem, sub.dom(), 3, mem.entry(dest_pdpt, k as int), e));
                }
            },
        }
        proof {
            lemma_zero_entry();
            assert(entry_copied(*mem, sub.dom(), 3, mem.entry(dest_pdpt, k as int), mem.entry(src, k as int)));
            assert(sub =~= subb.union_prefer_right(sub_new));
            assert(forall|t: usize, i: int| subb.contains_key(t) ==> #[trigger] mem.entry(t, i) == mb.entry(t, i));
            assert forall|j: int| j != k implies #[trigger] mem.entry(dest_pdpt, j) == mb.entry(dest_pdpt, j) by {
                assert(!avb.difference(alloc.avail()).contains(dest_pdpt));
            }
            lemma_hierarchy_stable(mb, *mem, subb, avb, alloc.avail());
            lemma_dup_step_unshared(mb, *mem, subb, sub_new, dest_pdpt, k as int, 3, alloc.avail());
            assert(references_table(3, mem.entry(dest_pdpt, k as int)) ==> sub.contains_key(
                addr_4k(mem.entry(dest_pdpt, k as int)),
            ) && sub[addr_4k(mem.entry(dest_pdpt, k as int))] == 2);
            assert(forall|t: usize, i: int| subb.contains_key(t) ==> #[trigger] mem.entry(t, i) == mb.entry(t, i));
            assert forall|j: int|
                0 <= j < k + 1 implies entry_copied(
                *mem,
                sub.dom(),
                3,
                #[trigger] mem.entry(dest_pdpt, j),
                mem.entry(src, j),
            ) && (references_table(3, mem.entry(dest_pdpt, j)) ==> sub.contains_key(
                addr_4k(mem.entry(dest_pdpt, j)),
            ) && sub[addr_4k(mem.entry(dest_pdpt, j))] == 2) by {
                if j < k {
                    let ej = mb.entry(src, j);
                    let dej = mb.entry(dest_pdpt, j);
                    assert(mem.entry(dest_pdpt, j) == dej);
                    assert(mem.entry(src, j) == ej);
                    assert(entry_copied(mb, subb.dom(), 3, dej, ej));
                    assert(src_entry_ok(mb, av0, 3, ej));
                    if bit_present(ej) && links_table(3, ej) {
                        lemma_copied_stable(mb, *mem, subb.dom(), sub.dom(), av0, 2, addr_4k(dej), addr_4k(ej));
                        assert(subb.contains_key(addr_4k(dej)));
                        assert(sub[addr_4k(dej)] == subb[addr_4k(dej)]);
                    }
                }
            }
            lemma_src_stable(mb, *mem, av0, av0, 3, src);
        }
        k += 1;
    }
    let ghost sub_f = sub.insert(dest_pdpt, 3);
    proof {
        lemma_hierarchy_add_root(*mem, sub, alloc.avail(), dest_pdpt, 3);
        lemma_dup_root_unshared(*mem, sub, dest_pdpt, 3, alloc.avail());
        assert forall|j: int| 0 <= j < 512 implies entry_copied(
            *mem,
            sub_f.dom(),
            3,
            #[trigger] mem.entry(dest_pdpt, j),
            mem.entry(src, j),
        ) by {
            assert(src_entry_ok(*mem, av0, 3, mem.entry(src, j)));
            lemma_entry_copied_grow(*mem, sub.dom(), sub_f.dom(), av0, 3, mem.entry(dest_pdpt, j), mem.entry(src, j));
        }
        assert(table_copied(*mem, sub_f.dom(), 3, dest_pdpt, src));
    }
    (dest_pdpt, Ghost(sub_f))
}

/// Copies the PML4 at `src` into a fresh page, copying each page-directory-pointer
/// table it references as `dup_pdpt` does.
#[verifier::rlimit(80)]
#[verifier::spinoff_prover]
fn dup_pml4(mem: &mut PhysMem, alloc: &mut EarlyBootAllocator, src: usize) -> (r: (
    usize,
    Ghost<Map<usize, int>>,
))
    requires
        old(alloc).sound(),
        old(alloc).free_count() >= 1 + table_cost_from(*old(mem), 4, src, 0),
        src_table_ok(*old(mem), old(alloc).avail(), 4, src),
    ensures
        dup_done(
            *old(mem),
            *final(mem),
            *old(alloc),
            *final(alloc),
            4,
            r.0,
            src,
            r.1@,
            1 + table_cost_from(*old(mem), 4, src, 0),
        ),
{
    let ghost m0 = *mem;
    let ghost av0 = alloc.avail();
    let ghost fc0 = alloc.free_count();
    let dest_pml4 = alloc.get_page_zeroed(mem);
    let ghost m1 = *mem;
    let ghost av1 = alloc.avail();
    proof {
        lemma_zero_entry();
        lemma_src_stable(m0, m1, av0, av0, 4, src);
    }
    proof {
        assert forall|t: usize, i: int| !av0.difference(av1).contains(t) implies #[trigger] m1.entry(t, i)
            == m0.entry(t, i) by {
            assert(t != dest_pml4);
        }
    }
    let ghost mut sub = Map::<usize, int>::empty();
    let mut k: usize = 0;
    while k < 512
        invariant
            0 <= k <= 512,
            dest_pml4 != 0,
            dest_pml4 % 4096 == 0,
            dest_pml4 + 4096 <= MAX_PHYS_ADDR,
            av0.contains(dest_pml4),
            !av1.contains(dest_pml4),
            av1.subset_of(av0),
            !av0.contains(src),
            alloc.sound(),
            alloc.avail().subset_of(av1),
            fc0 >= 1 + table_cost_from(m0, 4, src, 0),
            alloc.free_count() + table_cost_from(m0, 4, src, 0) == fc0 - 1 + table_cost_from(
                m0,
                4,
                src,
                k as int,
            ),
            changed_only(m0, *mem, av0),
            changed_only(m0, *mem, av0.difference(alloc.avail())),
            src_table_ok(*mem, av0, 4, src),
            src_table_ok(m0, av0, 4, src),
            forall|t: usize| #[trigger] sub.contains_key(t) ==> av1.contains(t),
            hierarchy_ok(*mem, sub, alloc.avail()),
            forall|j: int|
                0 <= j < k ==> entry_copied(
                    *mem,
                    sub.dom(),
                    4,
                    #[trigger] mem.entry(dest_pml4, j),
                    mem.entry(src, j),
                ),
            forall|j: int|
                0 <= j < k && references_table(4, #[trigger] mem.entry(dest_pml4, j)) ==> sub.contains_key(
                    addr_4k(mem.entry(dest_pml4, j)),
                ) && sub[addr_4k(mem.entry(dest_pml4, j))] == 3,
            forall|j: int| k <= j < 512 ==> #[trigger] mem.entry(dest_pml4, j) == 0,
            unshared(*mem, sub),
            forall|t: usize| #[trigger] sub.contains_key(t) ==> sub[t] <= 4 - 1,
            links_distinct(*mem, dest_pml4, k as int, 4),
        decreases 512 - k,
    {
        let ghost mb = *mem;
        let ghost avb = alloc.avail();
        let ghost subb = sub;
        let ghost mut sub_new = Map::<usize, int>::empty();
        let ghost e = mb.entry(src, k as int);
        proof {
            assert(mb.entry(src, k as int) == m0.entry(src, k as int));
            assert(src_entry_ok(mb, av0, 4, e));
            assert(table_cost_from(m0, 4, src, k as int) == entry_cost(m0, 4, e) + table_cost_from(
                m0,
                4,
                src,
                k + 1,
            ));
        }
        match PageMapLevel4Entry::from_bare(PageMapLevel4EntryBare::from_bits(mem.read(src, k))) {
            None => {},
            Some(src_pml4e) => {
                proof {
                    lemma_src_stable(mb, mb, av0, avb, 3, addr_4k(e));
                    assert(src_entry_ok(m0, av0, 4, m0.entry(src, k as int)));
                    lemma_cost_stable(m0, mb, av0, 3, addr_4k(e), 0);
                    assert(links_table(4, e));
                    assert(entry_cost(m0, 4, e) == 1 + table_cost_from(m0, 3, addr_4k(e), 0));
                }
                let src_pdpt = src_pml4e.page_dir_ptr_table().unwrap();
                let (dest_pdpt, Ghost(sub_c)) = dup_pdpt(mem, alloc, src_pdpt);
                let ghost ma = *mem;
                let ghost ava = alloc.avail();
                proof {
                    assert(changed_only(mb, ma, av0));
                    lemma_src_stable(mb, ma, av0, av0, 3, src_pdpt);
                    lemma_aligned_addr(dest_pdpt as u64);
                    lemma_replace_addr(e, dest_pdpt as u64);
                }
                mem.write(
                    dest_pml4,
                    k,
                    PageMapLevel4Entry::from_bits(src_pml4e.into_bits()).with_addr(dest_pdpt).to_bare().into_bits(),
                );
                proof {
                    lemma_hierarchy_stable(mb, *mem, subb, avb, alloc.avail());
                    lemma_hierarchy_stable(ma, *mem, sub_c, alloc.avail(), alloc.avail());
                    lemma_hierarchy_union(*mem, subb, sub_c, alloc.avail());
                    sub = subb.union_prefer_right(sub_c);
                    sub_new = sub_c;
                    assert forall|t: usize, i: int| sub_c.contains_key(t) implies #[trigger] mem.entry(t, i) == ma.entry(t, i) by {
                        assert(t != dest_pml4);
                    }
                    lemma_unshared_stable(ma, *mem, sub_c);
                    lemma_copied_stable(ma, *mem, sub_c.dom(), sub.dom(), av0, 3, dest_pdpt, src_pdpt);
                    assert(changed_only(mb, *mem, av0));
                    assert forall|t: usize, i: int| !av0.difference(alloc.avail()).contains(t) implies #[trigger] mem.entry(
                        t,
                        i,
                    ) == m0.entry(t, i) by {
                        assert(t != dest_pml4);
                        assert(!avb.difference(ava).contains(t));
                        assert(ma.entry(t, i) == mb.entry(t, i));
                        assert(!av0.difference(avb).contains(t));
                    }
                    assert(addr_4k(mem.entry(dest_pml4, k as int)) == dest_pdpt);
                    assert(entry_copied(*mem, sub.dom(), 4, mem.entry(dest_pml4, k as int), e));
                }
            },
        }
        proof {
            lemma_zero_entry();
            assert(entry_copied(*mem, sub.dom(), 4, mem.entry(dest_pml4, k as int), mem.entry(src, k as int)));
            assert(sub =~= subb.union_prefer_right(sub_new));
            assert(forall|t: usize, i: int| subb.contains_key(t) ==> #[trigger] mem.entry(t, i) == mb.entry(t, i));
            assert forall|j: int| j != k implies #[trigger] mem.entry(dest_pml4, j) == mb.entry(dest_pml4, j) by {
                assert(!avb.difference(alloc.avail()).contains(dest_pml4));
            }
            lemma_hierarchy_stable(mb, *mem, subb, avb, alloc.avail());
            lemma_dup_step_unshared(mb, *mem, subb, sub_new, dest_pml4, k as int, 4, alloc.avail());
            assert(references_table(4, mem.entry(dest_pml4, k as int)) ==> sub.contains_key(
                addr_4k(mem.entry(dest_pml4, k as int)),
            ) && sub[addr_4k(mem.entry(dest_pml4, k as int))] == 3);
            assert(forall|t: usize, i: int| subb.contains_key(t) ==> #[trigger] mem.entry(t, i) == mb.entry(t, i));
            assert forall|j: int|
                0 <= j < k + 1 implies entry_copied(
                *mem,
                sub.dom(),
                4,
                #[trigger] mem.entry(dest_pml4, j),
                mem.entry(src, j),
            ) && (references_table(4, mem.entry(dest_pml4, j)) ==> sub.contains_key(
                addr_4k(mem.entry(dest_pml4, j)),
            ) && sub[addr_4k(mem.entry(dest_pml4, j))] == 3) by {
                if j < k {
                    let ej = mb.entry(src, j);
                    let dej = mb.entry(dest_pml4, j);
                    assert(mem.entry(dest_pml4, j) == dej);
                    assert(mem.entry(src, j) == ej);
                    assert(entry_copied(mb, subb.dom(), 4, dej, ej));
                    assert(src_entry_ok(mb, av0, 4, ej));
                    if bit_present(ej) && links_table(4, ej) {
                        lemma_copied_stable(mb, *mem, subb.dom(), sub.dom(), av0, 3, addr_4k(dej), addr_4k(ej));
                        assert(subb.contains_key(addr_4k(dej)));
                        assert(sub[addr_4k(dej)] == subb[addr_4k(dej)]);
                    }
                }
            }
            lemma_src_stable(mb, *mem, av0, av0, 4, src);
        }
        k += 1;
    }
    let ghost sub_f = sub.insert(dest_pml4, 4);
    proof {
        lemma_hierarchy_add_root(*mem, sub, alloc.avail(), dest_pml4, 4);
        lemma_dup_root_unshared(*mem, sub, dest_pml4, 4, alloc.avail());
        assert forall|j: int| 0 <= j < 512 implies entry_copied(
            *mem,
            sub_f.dom(),
            4,
            #[trigger] mem.entry(dest_pml4, j),
            mem.entry(src, j),
        ) by {
            assert(src_entry_ok(*mem, av0, 4, mem.entry(src, j)));
            lemma_entry_copied_grow(*mem, sub.dom(), sub_f.dom(), av0, 4, mem.entry(dest_pml4, j), mem.entry(src, j));
        }
        assert(table_copied(*mem, sub_f.dom(), 4, dest_pml4, src));
    }
    (dest_pml4, Ghost(sub_f))
}

/// A translation through tables that lie outside the pages `av` stays the same
/// while only pages of `av` change.
pub proof fn lemma_walk_unchanged(m1: PhysMem, m2: PhysMem, av: Set<usize>, s: usize, a: usize)
    requires
        src_table_ok(m1, av, 4, s),
        changed_only(m1, m2, av),
    ensures
        walk(m2, s, a) == walk(m1, s, a),
{
    lemma_index_bound(a as u64 >> 39u64);
    lemma_index_bound(a as u64 >> 30u64);
    lemma_index_bound(a as u64 >> 21u64);
    lemma_index_bound(a as u64 >> 12u64);
    let e4 = m1.entry(s, pml4_index(a));
    assert(m2.entry(s, pml4_index(a)) == e4);
    assert(src_entry_ok(m1, av, 4, e4));
    if bit_present(e4) {
        let s3 = addr_4k(e4);
        let e3 = m1.entry(s3, pdpt_index(a));
        assert(m2.entry(s3, pdpt_index(a)) == e3);
        assert(src_entry_ok(m1, av, 3, e3));
        if bit_present(e3) && !bit_huge(e3) {
            let s2 = addr_4k(e3);
            let e2 = m1.entry(s2, pd_index(a));
            assert(m2.entry(s2, pd_index(a)) == e2);
            assert(src_entry_ok(m1, av, 2, e2));
            if bit_present(e2) && !bit_huge(e2) {
                let s1 = addr_4k(e2);
                assert(m2.entry(s1, pt_index(a)) == m1.entry(s1, pt_index(a)));
            }
        }
    }
}

impl PageMap {
    /// Very slow duplicate of an entire page table.
    ///
    /// Every table reachable from the PML4 is copied into a fresh page taken
    /// from `alloc`; entries that map pages are copied bit for bit, so the copy
    /// translates every address as the original does.
    pub fn duplicate(&self, mem: &mut PhysMem, alloc: &mut EarlyBootAllocator) -> (r: PageMap)
        requires
            old(alloc).sound(),
            old(alloc).free_count() >= duplicate_cost(*old(mem), self.base()),
            src_table_ok(*old(mem), old(alloc).avail(), 4, self.base()),
        ensures
            r.wf(*final(mem), *final(alloc)),
            old(alloc).avail().contains(r.base()),
            forall|t: usize| #[trigger] r.levels().contains_key(t) ==> old(alloc).avail().contains(t),
            final(alloc).free_count() + duplicate_cost(*old(mem), self.base()) == old(
                alloc,
            ).free_count(),
            final(alloc).avail().subset_of(old(alloc).avail()),
            changed_only(*old(mem), *final(mem), old(alloc).avail().difference(final(alloc).avail())),
            forall|a: usize| #[trigger]
                walk(*final(mem), r.base(), a) == walk(*old(mem), self.base(), a),
            forall|a: usize| #[trigger]
                walk(*final(mem), self.base(), a) == walk(*old(mem), self.base(), a),
            table_copied(*final(mem), r.levels().dom(), 4, r.base(), self.base()),
            unshared(*final(mem), r.levels()),
    {
        let ghost m0 = *mem;
        let ghost av0 = alloc.avail();
        let (dest_pml4, Ghost(levels)) = dup_pml4(mem, alloc, self.base);
        let r = PageMap { base: dest_pml4, levels: Ghost(levels) };
        proof {
            lemma_src_stable(m0, *mem, av0, alloc.avail(), 4, self.base);
            assert forall|a: usize| #[trigger]
                walk(*mem, r.base(), a) == walk(m0, self.base(), a) by {
                lemma_copy_walk(*mem, levels.dom(), alloc.avail(), dest_pml4, self.base, a);
                lemma_walk_unchanged(m0, *mem, av0, self.base, a);
            }
            assert forall|a: usize| #[trigger]
                walk(*mem, self.base(), a) == walk(m0, self.base(), a) by {
                lemma_walk_unchanged(m0, *mem, av0, self.base, a);
            }
        }
        r
    }
}

/// The CR3 register: the physical address of the PML4 in bits 12..64, and
/// the page-level write-through and cache-disable bits.
#[derive(Debug, Clone, Copy)]
pub struct Cr3(pub u64);

impl Cr3 {
    pub fn from_bits(bits: u64) -> (r: Self)
        ensures
            r.0 == bits,
    {
        Self(bits)
    }

    pub fn into_bits(self) -> (bits: u64)
        ensures
            bits == self.0,
    {
        self.0
    }

    /// Physical address of the PML4.
    pub fn pbdr(&self) -> (a: usize)
        ensures
            a == (self.0 & !0xfffu64) as usize,
    {
        (self.0 & !0xfffu64) as usize
    }

    /// The register with the PML4 at `a`, keeping the low flag bits.
    pub fn with_pbdr(self, a: usize) -> (r: Self)
        ensures
            r.0 == replace_bits(self.0, !0xfffu64, a as u64),
    {
        Self((self.0 & !!0xfffu64) | ((a as u64) & !0xfffu64))
    }
}

/// Replacing the table address of CR3 keeps its low bits and holds the new
/// address when it is page aligned.
pub proof fn lemma_cr3_pbdr(bits: u64, a: u64)
    by (bit_vector)
    ensures
        replace_bits(bits, !0xfffu64, a) & 0xfff == bits & 0xfff,
        a & 0xfff == 0 ==> replace_bits(bits, !0xfffu64, a) & !0xfffu64 == a,
{
}

/// A leaf entry made for a page-aligned physical page below `MAX_PHYS_ADDR`
/// is present, references that page, and carries the permissions asked for.
pub proof fn lemma_leaf_entry(page: usize, perms: Perms)
    requires
        page % 4096 == 0,
        page < MAX_PHYS_ADDR,
    ensures
        bit_present(leaf_entry(page, perms)),
        addr_4k(leaf_entry(page, perms)) == page,
        bit_write(leaf_entry(page, perms)) == perms.write,
        bit_xd(leaf_entry(page, perms)) == !perms.execute,
{
    lemma_leaf_bits(page as u64, perms.write, !perms.execute);
    lemma_aligned_addr(page as u64);
}

/// The entry that maps page `n` of `region` at `offset`, and the physical
/// address that the `n`-th page at `offset` translates to.
pub open spec fn direct_mapping(region: MemoryRegion, offset: usize, n: int, perms: Perms) -> (Mapping, usize) {
    let page = (region.base + n * 4096) as usize;
    let vaddr = (offset + n * 4096) as usize;
    (Mapping::Page4K(PageTableEntry(leaf_entry(page, perms))), addr_4k(leaf_entry(page, perms)) | (vaddr & PAGE_MASK))
}

/// What a failed step of `direct_map_region` leaves behind: no translation
/// changed, the pages before it are still mapped, a reported address is
/// mapped, and a null table reference comes from a null link already on the
/// path or from an allocator that ran short.
proof fn lemma_dm_failed(
    m0: PhysMem,
    mb: PhysMem,
    m1: PhysMem,
    lvb: Map<usize, int>,
    lv1: Map<usize, int>,
    b: usize,
    region: MemoryRegion,
    offset: usize,
    perms: Perms,
    n: int,
    page: usize,
    vaddr: usize,
    e: Error,
    fcb: nat,
    fc0: nat,
)
    requires
        page_map_change(mb, m1, lvb, lv1, b, vaddr, leaf_entry(page, perms), false),
        Err::<(), Error>(e) == map_outcome(mb, b, vaddr, fcb),
        fcb + 3 * n >= fc0,
        0 <= n < region.npages,
        vaddr == offset + n * 4096,
        forall|a: usize| #[trigger] path_null(mb, b, a) == path_null(m0, b, a),
        forall|j: int|
            0 <= j < n ==> #[trigger] walk(mb, b, (offset + j * 4096) as usize) == Some(
                direct_mapping(region, offset, j, perms),
            ),
    ensures
        forall|x: usize| #[trigger] walk(m1, b, x) == walk(mb, b, x),
        e is TableReferencesNull ==> fc0 < 3 * region.npages || path_null(m0, b, (offset + n * 4096) as usize),
        e matches Error::AddrAlreadyMapped(a) ==> {
            &&& walk(m1, b, a) is Some
            &&& forall|j: int|
                0 <= j < (a - offset) / 4096 ==> #[trigger] walk(m1, b, (offset + j * 4096) as usize) == Some(
                    direct_mapping(region, offset, j, perms),
                )
        },
{
    lemma_change_failed(mb, m1, lvb, lv1, b, vaddr, leaf_entry(page, perms));
    assert((n * 4096) / 4096 == n) by (nonlinear_arith)
        requires
            n >= 0,
    ;
    assert(path_null(mb, b, vaddr) == path_null(m0, b, vaddr));
    assert forall|j: int| 0 <= j < n implies #[trigger] walk(m1, b, (offset + j * 4096) as usize) == Some(
        direct_mapping(region, offset, j, perms),
    ) by {
        assert(walk(mb, b, (offset + j * 4096) as usize) == Some(direct_mapping(region, offset, j, perms)));
    }
}

/// Direct map a physical region of memory to offset.
#[verifier::rlimit(100)]
#[verifier::spinoff_prover]
pub fn direct_map_region(
    alloc: &mut EarlyBootAllocator,
    pml4: &mut PageMap,
    mem: &mut PhysMem,
    offset: usize,
    region: MemoryRegion,
    perms: Perms,
) -> (r: Result<MemoryRegion, Error>)
    requires
        offset & PAGE_MASK == 0,
        region.base + region.npages * 4096 <= MAX_PHYS_ADDR,
        region.base + region.npages * 4096 <= usize::MAX + 1,
        offset + region.npages * 4096 <= usize::MAX + 1,
        old(alloc).valid(),
        old(alloc).addressable(),
    ensures
        final(pml4).base() == old(pml4).base(),
        final(alloc).valid(),
        final(alloc).addressable(),
        r matches Ok(nr) ==> nr.base == offset && nr.npages == region.npages,
        r matches Err(Error::AddrAlreadyMapped(a)) ==> offset <= a < offset + region.npages * 4096
            && (a - offset) % 4096 == 0,
        old(pml4).wf(*old(mem), *old(alloc)) ==> {
            &&& final(pml4).wf(*final(mem), *final(alloc))
            &&& final(alloc).avail().subset_of(old(alloc).avail())
            &&& changed_only(*old(mem), *final(mem), old(alloc).avail().union(old(pml4).levels().dom()))
            &&& forall|t: usize| #[trigger] final(pml4).levels().contains_key(t) ==> old(
                pml4,
            ).levels().contains_key(t) || old(alloc).avail().contains(t)
            &&& forall|a: usize| #[trigger]
                walk(*old(mem), old(pml4).base(), a) is Some ==> walk(
                    *final(mem),
                    old(pml4).base(),
                    a,
                ) == walk(*old(mem), old(pml4).base(), a)
            &&& r is Ok ==> forall|n: int|
                0 <= n < region.npages ==> #[trigger] walk(
                    *final(mem),
                    old(pml4).base(),
                    (offset + n * 4096) as usize,
                ) == Some(direct_mapping(region, offset, n, perms))
            &&& r is Ok ==> forall|n: int|
                0 <= n < region.npages ==> #[trigger] walk(
                    *old(mem),
                    old(pml4).base(),
                    (offset + n * 4096) as usize,
                ) is None
            &&& forall|x: usize| #[trigger]
                walk(*final(mem), old(pml4).base(), x) == walk(*old(mem), old(pml4).base(), x) || aliases_earlier(
                    *final(mem),
                    old(pml4).base(),
                    x,
                    offset,
                    region.npages as int,
                )
            &&& unshared(*old(mem), old(pml4).levels()) && region.npages <= 0x10_0000_0000 ==> unshared(
                *final(mem),
                final(pml4).levels(),
            )
            &&& unshared(*old(mem), old(pml4).levels()) && region.npages <= 0x10_0000_0000 ==> forall|x: usize|
                #[trigger] walk(*final(mem), old(pml4).base(), x) == walk(*old(mem), old(pml4).base(), x)
                    || in_pages(x, offset, region.npages as int)
            &&& unshared(*old(mem), old(pml4).levels()) && old(alloc).free_count() >= 3 * region.npages
                && region.npages <= 0x10_0000_0000 && pages_clear(
                *old(mem),
                old(pml4).base(),
                offset,
                region.npages as int,
            ) ==> r is Ok
            &&& r matches Err(Error::TableReferencesNull) ==> old(alloc).free_count() < 3 * region.npages
                || exists|n: int|
                0 <= n < region.npages && #[trigger] path_null(
                    *old(mem),
                    old(pml4).base(),
                    (offset + n * 4096) as usize,
                )
            &&& r matches Err(Error::AddrAlreadyMapped(a)) ==> {
                &&& forall|j: int|
                    0 <= j < (a - offset) / 4096 ==> #[trigger] walk(
                        *old(mem),
                        old(pml4).base(),
                        (offset + j * 4096) as usize,
                    ) is None
                &&& forall|x: usize| #[trigger]
                    walk(*final(mem), old(pml4).base(), x) == walk(*old(mem), old(pml4).base(), x)
                        || aliases_earlier(*final(mem), old(pml4).base(), x, offset, (a - offset) / 4096)
                &&& unshared(*old(mem), old(pml4).levels()) && region.npages <= 0x10_0000_0000 ==> {
                    &&& walk(*old(mem), old(pml4).base(), a) is Some
                    &&& forall|x: usize| #[trigger]
                        walk(*final(mem), old(pml4).base(), x) == walk(*old(mem), old(pml4).base(), x)
                            || in_pages(x, offset, (a - offset) / 4096)
                    &&& forall|j: int|
                        (a - offset) / 4096 <= j < region.npages ==> #[trigger] walk(
                            *final(mem),
                            old(pml4).base(),
                            (offset + j * 4096) as usize,
                        ) == walk(*old(mem), old(pml4).base(), (offset + j * 4096) as usize)
                }
                &&& walk(*final(mem), old(pml4).base(), a) is Some
                &&& walk(*old(mem), old(pml4).base(), a) is Some || aliases_earlier(
                    *final(mem),
                    old(pml4).base(),
                    a,
                    offset,
                    (a - offset) / 4096,
                )
                &&& forall|j: int|
                    0 <= j < (a - offset) / 4096 ==> #[trigger] walk(
                        *final(mem),
                        old(pml4).base(),
                        (offset + j * 4096) as usize,
                    ) == Some(direct_mapping(region, offset, j, perms))
            }
        },
{
    let ghost fc0 = alloc.free_count();
    let ghost m0 = *mem;
    let ghost wf0 = pml4.wf(*mem, *alloc);
    let ghost av0 = alloc.avail();
    let ghost b = pml4.base();
    let ghost lv0 = pml4.levels();
    let ghost us = unshared(m0, lv0) && region.npages <= 0x10_0000_0000;
    let ghost clear = us && fc0 >= 3 * region.npages && pages_clear(m0, b, offset, region.npages as int);
    let mut it = region.iter();
    let ghost mut n: int = 0;
    proof {
        lemma_dm_frame_start(m0, b, offset);
        lemma_run_kept_start(m0, b, offset, region.npages as int);
    }
    let mut i: usize = 0;
    while i < region.npages
        invariant
            i == n,
            0 <= n <= region.npages,
            it.remaining() == region.npages - n,
            n < region.npages ==> it.current() == region.base + n * 4096,
            region.base + region.npages * 4096 <= MAX_PHYS_ADDR,
            region.base + region.npages * 4096 <= usize::MAX + 1,
            offset + region.npages * 4096 <= usize::MAX + 1,
            pml4.base() == b,
            b == old(pml4).base(),
            wf0 == old(pml4).wf(*old(mem), *old(alloc)),
            m0 == *old(mem),
            av0 == old(alloc).avail(),
            lv0 == old(pml4).levels(),
            alloc.valid(),
            alloc.addressable(),
            wf0 ==> {
                &&& pml4.wf(*mem, *alloc)
                &&& alloc.avail().subset_of(av0)
                &&& changed_only(m0, *mem, av0.union(lv0.dom()))
                &&& forall|t: usize| #[trigger] pml4.levels().contains_key(t) ==> lv0.contains_key(t)
                    || av0.contains(t)
                &&& forall|a: usize| #[trigger]
                    walk(m0, b, a) is Some ==> walk(*mem, b, a) == walk(m0, b, a)
                &&& forall|j: int|
                    0 <= j < n ==> #[trigger] walk(*mem, b, (offset + j * 4096) as usize) == Some(
                        direct_mapping(region, offset, j, perms),
                    )
                &&& forall|j: int| 0 <= j < n ==> #[trigger] walk(m0, b, (offset + j * 4096) as usize) is None
                &&& forall|a: usize| #[trigger] path_null(*mem, b, a) == path_null(m0, b, a)
                &&& dm_frame(m0, *mem, b, offset, n)
                &&& us ==> unshared(*mem, pml4.levels())
                &&& us ==> run_kept(*mem, m0, b, offset, n, region.npages as int)
            },
            us == (unshared(m0, lv0) && region.npages <= 0x10_0000_0000),
            clear == (us && fc0 >= 3 * region.npages && pages_clear(m0, b, offset, region.npages as int)),
            alloc.free_count() + 3 * n >= fc0,
            fc0 == old(alloc).free_count(),
        decreases region.npages - i,
    {
        let page = match it.next() {
            Some(p) => p,
            None => {
                proof {
                    assert(false);
                }
                return Ok(region.rebased(offset));
            },
        };
        let vaddr = page - region.base + offset;
        let ghost mb = *mem;
        let ghost lvb = pml4.levels();
        let ghost fcb = alloc.free_count();
        let ghost avb = alloc.avail();
        let res = pml4.map_page(mem, alloc, vaddr, page, perms);
        proof {
            assert(vaddr == offset + n * 4096);
            if wf0 {
                assert forall|a: usize| #[trigger]
                    walk(m0, b, a) is Some implies walk(*mem, b, a) == walk(m0, b, a) by {
                    assert(walk(mb, b, a) == walk(m0, b, a));
                }
                if clear {
                    lemma_run_kept_at(mb, m0, b, offset, n, region.npages as int, n);
                    assert(walk(m0, b, (offset + n * 4096) as usize) is None);
                    assert(walk(mb, b, vaddr) is None);
                    assert(!path_null(mb, b, vaddr));
                    assert(fcb >= 3);
                    assert(res is Ok);
                }
            }
        }
        match res {
            Ok(()) => {},
            Err(e) => {
                proof {
                    assert(vaddr == offset + n * 4096);
                    assert((n * 4096) % 4096 == 0);
                    assert((n * 4096) / 4096 == n) by (nonlinear_arith)
                        requires n >= 0;
                    if wf0 {
                        lemma_dm_failed(
                            m0,
                            mb,
                            *mem,
                            lvb,
                            pml4.levels(),
                            b,
                            region,
                            offset,
                            perms,
                            n,
                            page,
                            vaddr,
                            e,
                            fcb,
                            fc0,
                        );
                        if e is TableReferencesNull && fc0 >= 3 * region.npages {
                            assert(path_null(m0, b, (offset + n * 4096) as usize));
                        }
                        assert(e matches Error::TableReferencesNull ==> fc0 < 3 * region.npages
                            || exists|k: int|
                            0 <= k < region.npages && #[trigger] path_null(
                                m0,
                                b,
                                (offset + k * 4096) as usize,
                            ));
                        if e is AddrAlreadyMapped {
                            lemma_dm_frame_failed(m0, mb, *mem, lvb, b, avb, offset, n, vaddr);
                        }
                        lemma_run_step_failed(
                            m0,
                            mb,
                            *mem,
                            lvb,
                            pml4.levels(),
                            b,
                            avb,
                            offset,
                            n,
                            region.npages as int,
                            leaf_entry(page, perms),
                            us,
                        );
                        if us {
                            lemma_frame_in_pages(m0, *mem, pml4.levels(), b, alloc.avail(), offset, n);
                            lemma_frame_in_pages(m0, *mem, pml4.levels(), b, alloc.avail(), offset, region.npages as int);
                        }
                        if us && e is AddrAlreadyMapped {
                            lemma_run_kept_at(mb, m0, b, offset, n, region.npages as int, n);
                            assert(walk(mb, b, vaddr) == walk(m0, b, (offset + n * 4096) as usize));
                        }
                        assert(e matches Error::AddrAlreadyMapped(a) ==> {
                            &&& walk(*mem, b, a) is Some
                            &&& walk(m0, b, a) is Some || aliases_earlier(*mem, b, a, offset, (a - offset) / 4096)
                            &&& forall|j: int|
                                0 <= j < (a - offset) / 4096 ==> #[trigger] walk(
                                    *mem,
                                    b,
                                    (offset + j * 4096) as usize,
                                ) == Some(direct_mapping(region, offset, j, perms))
                        });
                    }
                }
                return Err(e);
            },
        }
        proof {
            if wf0 {
                lemma_change_null_links(mb, *mem, lvb, pml4.levels(), b, vaddr, leaf_entry(page, perms));
                lemma_dm_frame_ok(m0, mb, *mem, lvb, pml4.levels(), b, avb, offset, n, leaf_entry(page, perms));
                if us {
                    lemma_run_step_ok(
                        m0,
                        mb,
                        *mem,
                        lvb,
                        pml4.levels(),
                        b,
                        alloc.avail(),
                        offset,
                        n,
                        region.npages as int,
                        leaf_entry(page, perms),
                    );
                }
                assert forall|a: usize| #[trigger] path_null(*mem, b, a) == path_null(m0, b, a) by {
                    assert(path_null(mb, b, a) == path_null(m0, b, a));
                }
                assert(vaddr == offset + n * 4096);
                assert(walk(m0, b, vaddr) is None) by {
                    if walk(m0, b, vaddr) is Some {
                        assert(walk(mb, b, vaddr) == walk(m0, b, vaddr));
                    }
                }
                assert forall|j: int| 0 <= j < n + 1 implies #[trigger] walk(
                    m0,
                    b,
                    (offset + j * 4096) as usize,
                ) is None by {}
                assert forall|j: int|
                    0 <= j < n + 1 implies #[trigger] walk(
                    *mem,
                    b,
                    (offset + j * 4096) as usize,
                ) == Some(direct_mapping(region, offset, j, perms)) by {
                    if j < n {
                        assert(walk(mb, b, (offset + j * 4096) as usize) == Some(
                            direct_mapping(region, offset, j, perms),
                        ));
                    }
                }
            }
            n = n + 1;
        }
        i += 1;
    }
    proof {
        if wf0 {
            lemma_dm_frame_export(m0, *mem, b, offset, n, n);
            if us {
                lemma_frame_in_pages(m0, *mem, pml4.levels(), b, alloc.avail(), offset, n);
            }
        }
    }
    Ok(region.rebased(offset))
}

/// Where the kernel image is mapped in the higher half of the address space.
pub const KERNEL_OFFSET: u64 = 0xffff_8000_0000_0000;

/// A copy made by `duplicate` links no table at the null address.
pub proof fn lemma_copy_no_null(m: PhysMem, own: Set<usize>, d: usize, s: usize, a: usize)
    requires
        table_copied(m, own, 4, d, s),
    ensures
        !path_null(m, d, a),
{
    lemma_index_bound(a as u64 >> 39u64);
    lemma_index_bound(a as u64 >> 30u64);
    lemma_index_bound(a as u64 >> 21u64);
    lemma_zero_entry();
    let x4 = pml4_index(a);
    let e4 = m.entry(d, x4);
    let s4 = m.entry(s, x4);
    assert(entry_copied(m, own, 4, e4, s4));
    if bit_present(s4) {
        let c3 = addr_4k(e4);
        assert(c3 != 0);
        assert(table_copied(m, own, 3, c3, addr_4k(s4)));
        let x3 = pdpt_index(a);
        let e3 = m.entry(c3, x3);
        let s3 = m.entry(addr_4k(s4), x3);
        assert(entry_copied(m, own, 3, e3, s3));
        if bit_present(s3) && !bit_huge(s3) {
            let c2 = addr_4k(e3);
            assert(c2 != 0);
            assert(table_copied(m, own, 2, c2, addr_4k(s3)));
            let x2 = pd_index(a);
            let e2 = m.entry(c2, x2);
            let s2 = m.entry(addr_4k(s3), x2);
            assert(entry_copied(m, own, 2, e2, s2));
            if bit_present(s2) && !bit_huge(s2) {
                assert(addr_4k(e2) != 0);
            }
        }
    }
}

/// The kernel's page map after the kernel image was mapped into the higher half.
pub struct MappedHigherHalf {
    pub kernel_region: MemoryRegion,
    pub map: PageMap,
}

/// The stack page `i` below `map_higher_half_kernel`'s region maps: a present,
/// writable, non-executable entry for a page that `avail` held, or for the
/// null page when the allocator ran dry.
pub open spec fn stack_page_mapped(mem: PhysMem, base: usize, vaddr: usize, avail: Set<usize>) -> bool {
    match walk(mem, base, vaddr) {
        Some((Mapping::Page4K(e), _)) => {
            &&& e.0 == leaf_entry(addr_4k(e.0), (Perms { write: true, execute: false }))
            &&& (addr_4k(e.0) == 0 || avail.contains(addr_4k(e.0)))
        },
        _ => false,
    }
}

/// What a failed step of `create_stack` leaves behind, as `lemma_dm_failed` does.
proof fn lemma_cs_failed(
    m0: PhysMem,
    mb: PhysMem,
    m1: PhysMem,
    lvb: Map<usize, int>,
    lv1: Map<usize, int>,
    b: usize,
    top: usize,
    n: int,
    npages: int,
    page: usize,
    e: Error,
    fcb: nat,
    fc0: nat,
    av0: Set<usize>,
)
    requires
        page_map_change(mb, m1, lvb, lv1, b, (top + n * 4096) as usize, leaf_entry(page, Perms { write: true, execute: false }), false),
        Err::<(), Error>(e) == map_outcome(mb, b, (top + n * 4096) as usize, fcb),
        fcb + 4 * n + 1 >= fc0,
        0 <= n < npages,
        top + npages * 4096 <= usize::MAX,
        forall|a: usize| #[trigger] path_null(mb, b, a) == path_null(m0, b, a),
        forall|j: int|
            0 <= j < n ==> #[trigger] stack_page_mapped(mb, b, (top + j * 4096) as usize, av0),
    ensures
        forall|x: usize| #[trigger] walk(m1, b, x) == walk(mb, b, x),
        e is TableReferencesNull ==> fc0 < 4 * npages || path_null(m0, b, (top + n * 4096) as usize),
        e matches Error::AddrAlreadyMapped(a) ==> {
            &&& walk(m1, b, a) is Some
            &&& forall|j: int|
                0 <= j < (a - top) / 4096 ==> #[trigger] stack_page_mapped(m1, b, (top + j * 4096) as usize, av0)
        },
{
    lemma_change_failed(mb, m1, lvb, lv1, b, (top + n * 4096) as usize, leaf_entry(page, Perms { write: true, execute: false }));
    assert((n * 4096) / 4096 == n) by (nonlinear_arith)
        requires
            n >= 0,
    ;
    assert forall|j: int| 0 <= j < n implies #[trigger] stack_page_mapped(m1, b, (top + j * 4096) as usize, av0) by {
        assert(stack_page_mapped(mb, b, (top + j * 4096) as usize, av0));
        assert(walk(m1, b, (top + j * 4096) as usize) == walk(mb, b, (top + j * 4096) as usize));
    }
}

/// The physical page that the 4 KiB mapping of `vaddr` holds, 0 when there is none.
pub open spec fn stack_frame(mem: PhysMem, base: usize, vaddr: usize) -> usize {
    match walk(mem, base, vaddr) {
        Some((Mapping::Page4K(e), _)) => addr_4k(e.0),
        _ => 0,
    }
}

/// The first `n` stack pages from `top` are backed by pages outside `av`
/// (unless by page 0), no two by the same page, and, when `nonzero`, none by page 0.
#[verifier::opaque]
pub open spec fn stack_frames_fresh(mem: PhysMem, b: usize, top: usize, n: int, av: Set<usize>, nonzero: bool) -> bool {
    &&& forall|j: int|
        0 <= j < n && #[trigger] stack_frame(mem, b, (top + j * 4096) as usize) != 0 ==> !av.contains(
            stack_frame(mem, b, (top + j * 4096) as usize),
        )
    &&& forall|j: int, l: int|
        0 <= j < l < n && stack_frame(mem, b, (top + j * 4096) as usize) != 0 ==> #[trigger] stack_frame(
            mem,
            b,
            (top + j * 4096) as usize,
        ) != #[trigger] stack_frame(mem, b, (top + l * 4096) as usize)
    &&& nonzero ==> forall|j: int| 0 <= j < n ==> #[trigger] stack_frame(mem, b, (top + j * 4096) as usize) != 0
}

proof fn lemma_stack_frames_start(mem: PhysMem, b: usize, top: usize, av: Set<usize>, nonzero: bool)
    ensures
        stack_frames_fresh(mem, b, top, 0, av, nonzero),
{
    reveal(stack_frames_fresh);
}

/// One more stack page backed by `page`, handed out of `avg`: the stack's
/// pages stay out of the available pages and distinct.
proof fn lemma_stack_frames_step(
    mb: PhysMem,
    m1: PhysMem,
    b: usize,
    top: usize,
    i: int,
    npages: int,
    page: usize,
    av0: Set<usize>,
    avg: Set<usize>,
    av1: Set<usize>,
    fcg: nat,
    fc0: nat,
)
    requires
        0 <= i < npages,
        top + npages * 4096 <= usize::MAX,
        stack_frames_fresh(mb, b, top, i, avg, fc0 >= 4 * npages),
        forall|j: int| 0 <= j < i ==> #[trigger] stack_page_mapped(mb, b, (top + j * 4096) as usize, av0),
        forall|a: usize| #[trigger] walk(mb, b, a) is Some ==> walk(m1, b, a) == walk(mb, b, a),
        stack_frame(m1, b, (top + i * 4096) as usize) == page,
        page != 0 ==> avg.contains(page) && !av1.contains(page),
        av1.subset_of(avg),
        fcg + 4 * i >= fc0,
        page == 0 <==> fcg == 0,
    ensures
        stack_frames_fresh(m1, b, top, i + 1, av1, fc0 >= 4 * npages),
{
    reveal(stack_frames_fresh);
    assert forall|j: int| 0 <= j < i implies #[trigger] stack_frame(m1, b, (top + j * 4096) as usize)
        == stack_frame(mb, b, (top + j * 4096) as usize) by {
        assert(stack_page_mapped(mb, b, (top + j * 4096) as usize, av0));
        assert(walk(mb, b, (top + j * 4096) as usize) is Some);
    }
    assert forall|j: int, l: int|
        0 <= j < l < i + 1 && stack_frame(m1, b, (top + j * 4096) as usize) != 0 implies #[trigger] stack_frame(
            m1,
            b,
            (top + j * 4096) as usize,
        ) != #[trigger] stack_frame(m1, b, (top + l * 4096) as usize) by {
        assert(stack_frame(m1, b, (top + j * 4096) as usize) == stack_frame(mb, b, (top + j * 4096) as usize));
        if l < i {
            assert(stack_frame(m1, b, (top + l * 4096) as usize) == stack_frame(mb, b, (top + l * 4096) as usize));
        }
    }
    assert forall|j: int|
        0 <= j < i + 1 && #[trigger] stack_frame(m1, b, (top + j * 4096) as usize) != 0 implies !av1.contains(
            stack_frame(m1, b, (top + j * 4096) as usize),
        ) by {
        if j < i {
            assert(stack_frame(m1, b, (top + j * 4096) as usize) == stack_frame(mb, b, (top + j * 4096) as usize));
        }
    }
    if fc0 >= 4 * npages {
        assert forall|j: int| 0 <= j < i + 1 implies #[trigger] stack_frame(m1, b, (top + j * 4096) as usize) != 0 by {
            if j < i {
                assert(stack_frame(m1, b, (top + j * 4096) as usize) == stack_frame(mb, b, (top + j * 4096) as usize));
            }
        }
    }
}

/// Maps `npages` fresh pages right above the kernel image as a stack, and
/// returns the address one past its top.
#[verifier::rlimit(100)]
#[verifier::spinoff_prover]
pub fn create_stack(
    map: &mut MappedHigherHalf,
    early: &mut EarlyBootAllocator,
    mem: &mut PhysMem,
    npages: usize,
) -> (r: Result<usize, Error>)
    requires
        old(map).kernel_region.base + (old(map).kernel_region.npages + npages) * 4096 <= usize::MAX,
        old(early).valid(),
        old(early).addressable(),
    ensures
        final(map).kernel_region == old(map).kernel_region,
        final(map).map.base() == old(map).map.base(),
        final(early).valid(),
        final(early).addressable(),
        ({
            let top = old(map).kernel_region.base + old(map).kernel_region.npages * 4096;
            &&& r matches Ok(v) ==> v == top + npages * 4096
            &&& r matches Err(Error::AddrAlreadyMapped(a)) ==> top <= a < top + npages * 4096 && (a
                - top) % 4096 == 0
            &&& old(map).map.wf(*old(mem), *old(early)) ==> {
                &&& final(map).map.wf(*final(mem), *final(early))
                &&& final(early).avail().subset_of(old(early).avail())
                &&& forall|a: usize| #[trigger]
                    walk(*old(mem), old(map).map.base(), a) is Some ==> walk(
                        *final(mem),
                        old(map).map.base(),
                        a,
                    ) == walk(*old(mem), old(map).map.base(), a)
                &&& r is Ok ==> forall|i: int|
                    0 <= i < npages ==> #[trigger] stack_page_mapped(
                        *final(mem),
                        old(map).map.base(),
                        (top + i * 4096) as usize,
                        old(early).avail(),
                    )
                &&& r is Ok ==> forall|i: int|
                    0 <= i < npages ==> #[trigger] walk(*old(mem), old(map).map.base(), (top + i * 4096) as usize)
                        is None
                &&& r is Ok ==> stack_frames_fresh(
                    *final(mem),
                    old(map).map.base(),
                    top as usize,
                    npages as int,
                    final(early).avail(),
                    old(early).free_count() >= 4 * npages,
                )
                &&& unshared(*old(mem), old(map).map.levels()) && old(early).free_count() >= 4 * npages
                    && npages <= 0x10_0000_0000 && pages_clear(
                    *old(mem),
                    old(map).map.base(),
                    top as usize,
                    npages as int,
                ) ==> r is Ok
                &&& unshared(*old(mem), old(map).map.levels()) && npages <= 0x10_0000_0000 ==> unshared(
                    *final(mem),
                    final(map).map.levels(),
                )
                &&& unshared(*old(mem), old(map).map.levels()) && npages <= 0x10_0000_0000 ==> forall|x: usize|
                    #[trigger] walk(*final(mem), old(map).map.base(), x) == walk(*old(mem), old(map).map.base(), x)
                        || in_pages(x, top as usize, npages as int)
                &&& forall|x: usize| #[trigger]
                    walk(*final(mem), old(map).map.base(), x) == walk(*old(mem), old(map).map.base(), x)
                        || aliases_earlier(*final(mem), old(map).map.base(), x, top as usize, npages as int)
                &&& r matches Err(Error::AddrAlreadyMapped(a)) ==> {
                    &&& forall|j: int|
                        0 <= j < (a - top) / 4096 ==> #[trigger] walk(
                            *old(mem),
                            old(map).map.base(),
                            (top + j * 4096) as usize,
                        ) is None
                    &&& forall|x: usize| #[trigger]
                        walk(*final(mem), old(map).map.base(), x) == walk(*old(mem), old(map).map.base(), x)
                            || aliases_earlier(*final(mem), old(map).map.base(), x, top as usize, (a - top) / 4096)
                    &&& unshared(*old(mem), old(map).map.levels()) && npages <= 0x10_0000_0000 ==> {
                        &&& walk(*old(mem), old(map).map.base(), a) is Some
                        &&& forall|x: usize| #[trigger]
                            walk(*final(mem), old(map).map.base(), x) == walk(*old(mem), old(map).map.base(), x)
                                || in_pages(x, top as usize, (a - top) / 4096)
                        &&& forall|j: int|
                            (a - top) / 4096 <= j < npages ==> #[trigger] walk(
                                *final(mem),
                                old(map).map.base(),
                                (top + j * 4096) as usize,
                            ) == walk(*old(mem), old(map).map.base(), (top + j * 4096) as usize)
                    }
                }
                &&& r matches Err(Error::TableReferencesNull) ==> old(early).free_count() < 4 * npages
                    || exists|i: int|
                    0 <= i < npages && #[trigger] path_null(
                        *old(mem),
                        old(map).map.base(),
                        (top + i * 4096) as usize,
                    )
                &&& r matches Err(Error::AddrAlreadyMapped(a)) ==> {
                    &&& walk(*final(mem), old(map).map.base(), a) is Some
                    &&& walk(*old(mem), old(map).map.base(), a) is Some || aliases_earlier(
                        *final(mem),
                        old(map).map.base(),
                        a,
                        top as usize,
                        (a - top) / 4096,
                    )
                    &&& forall|i: int|
                        0 <= i < (a - top) / 4096 ==> #[trigger] stack_page_mapped(
                            *final(mem),
                            old(map).map.base(),
                            (top + i * 4096) as usize,
                            old(early).avail(),
                        )
                }
            }
        }),
{
    let ghost fc0 = early.free_count();
    let ghost m0 = *mem;
    let ghost wf0 = map.map.wf(*mem, *early);
    let ghost av0 = early.avail();
    let ghost b = map.map.base();
    let ghost lv0 = map.map.levels();
    let base_addr = map.kernel_region.base + map.kernel_region.npages * 4096;
    let ghost us = unshared(m0, lv0) && npages <= 0x10_0000_0000;
    let ghost clear = us && fc0 >= 4 * npages && pages_clear(m0, b, base_addr, npages as int);
    proof {
        lemma_dm_frame_start(m0, b, base_addr);
        lemma_stack_frames_start(*mem, b, base_addr, early.avail(), fc0 >= 4 * npages);
        lemma_run_kept_start(m0, b, base_addr, npages as int);
    }
    let mut i: usize = 0;
    while i < npages
        invariant
            0 <= i <= npages,
            base_addr == map.kernel_region.base + map.kernel_region.npages * 4096,
            base_addr + npages * 4096 <= usize::MAX,
            map.kernel_region == old(map).kernel_region,
            map.map.base() == b,
            b == old(map).map.base(),
            wf0 == old(map).map.wf(*old(mem), *old(early)),
            m0 == *old(mem),
            av0 == old(early).avail(),
            early.valid(),
            early.addressable(),
            wf0 ==> {
                &&& map.map.wf(*mem, *early)
                &&& early.avail().subset_of(av0)
                &&& forall|a: usize| #[trigger]
                    walk(m0, b, a) is Some ==> walk(*mem, b, a) == walk(m0, b, a)
                &&& forall|j: int|
                    0 <= j < i ==> #[trigger] stack_page_mapped(*mem, b, (base_addr + j * 4096) as usize, av0)
                &&& forall|j: int| 0 <= j < i ==> #[trigger] walk(m0, b, (base_addr + j * 4096) as usize) is None
                &&& forall|a: usize| #[trigger] path_null(*mem, b, a) == path_null(m0, b, a)
                &&& dm_frame(m0, *mem, b, base_addr, i as int)
                &&& stack_frames_fresh(*mem, b, base_addr, i as int, early.avail(), fc0 >= 4 * npages)
                &&& us ==> unshared(*mem, map.map.levels())
                &&& us ==> run_kept(*mem, m0, b, base_addr, i as int, npages as int)
            },
            us == (unshared(m0, lv0) && npages <= 0x10_0000_0000),
            clear == (us && fc0 >= 4 * npages && pages_clear(m0, b, base_addr, npages as int)),
            lv0 == old(map).map.levels(),
            early.free_count() + 4 * i >= fc0,
            fc0 == old(early).free_count(),
        decreases npages - i,
    {
        let ghost mb = *mem;
        let ghost avg = early.avail();
        let ghost fcg = early.free_count();
        let page = early.get_page();
        let page_vaddr = base_addr + i * 4096;
        let ghost lvb = map.map.levels();
        let ghost fcb = early.free_count();
        let ghost avb = early.avail();
        let res = map.map.map_page(mem, early, page_vaddr, page, Perms::wo());
        proof {
            if wf0 {
                assert forall|a: usize| #[trigger]
                    walk(m0, b, a) is Some implies walk(*mem, b, a) == walk(m0, b, a) by {
                    assert(walk(mb, b, a) == walk(m0, b, a));
                }
                if clear {
                    lemma_run_kept_at(mb, m0, b, base_addr, i as int, npages as int, i as int);
                    assert(walk(m0, b, (base_addr + i * 4096) as usize) is None);
                    assert(walk(mb, b, page_vaddr) is None);
                    assert(!path_null(mb, b, page_vaddr));
                    assert(fcb >= 3);
                    assert(res is Ok);
                }
            }
        }
        match res {
            Ok(()) => {},
            Err(e) => {
                proof {
                    assert((i * 4096) % 4096 == 0);
                    if wf0 {
                        lemma_cs_failed(
                            m0,
                            mb,
                            *mem,
                            lvb,
                            map.map.levels(),
                            b,
                            base_addr,
                            i as int,
                            npages as int,
                            page,
                            e,
                            fcb,
                            fc0,
                            av0,
                        );
                        if e is TableReferencesNull && fc0 >= 4 * npages {
                            assert(path_null(m0, b, (base_addr + i * 4096) as usize));
                        }
                        assert(e matches Error::TableReferencesNull ==> fc0 < 4 * npages || exists|k: int|
                            0 <= k < npages && #[trigger] path_null(m0, b, (base_addr + k * 4096) as usize));
                        if e is AddrAlreadyMapped {
                            lemma_dm_frame_failed(m0, mb, *mem, lvb, b, avb, base_addr, i as int, page_vaddr);
                        }
                        lemma_run_step_failed(
                            m0,
                            mb,
                            *mem,
                            lvb,
                            map.map.levels(),
                            b,
                            avb,
                            base_addr,
                            i as int,
                            npages as int,
                            leaf_entry(page, Perms { write: true, execute: false }),
                            us,
                        );
                        if us {
                            lemma_frame_in_pages(m0, *mem, map.map.levels(), b, early.avail(), base_addr, i as int);
                            lemma_frame_in_pages(m0, *mem, map.map.levels(), b, early.avail(), base_addr, npages as int);
                        }
                        if us && e is AddrAlreadyMapped {
                            lemma_run_kept_at(mb, m0, b, base_addr, i as int, npages as int, i as int);
                            assert(walk(mb, b, page_vaddr) == walk(m0, b, (base_addr + i * 4096) as usize));
                        }
                        assert(e matches Error::AddrAlreadyMapped(a) ==> {
                            &&& walk(*mem, b, a) is Some
                            &&& walk(m0, b, a) is Some || aliases_earlier(*mem, b, a, base_addr, (a - base_addr) / 4096)
                            &&& forall|j: int|
                                0 <= j < (a - base_addr) / 4096 ==> #[trigger] stack_page_mapped(
                                    *mem,
                                    b,
                                    (base_addr + j * 4096) as usize,
                                    av0,
                                )
                        });
                    }
                }
                return Err(e);
            },
        }
        proof {
            if wf0 {
                lemma_change_null_links(mb, *mem, lvb, map.map.levels(), b, page_vaddr, leaf_entry(page, Perms { write: true, execute: false }));
                lemma_dm_frame_ok(m0, mb, *mem, lvb, map.map.levels(), b, avb, base_addr, i as int, leaf_entry(page, Perms { write: true, execute: false }));
                if us {
                    lemma_run_step_ok(
                        m0,
                        mb,
                        *mem,
                        lvb,
                        map.map.levels(),
                        b,
                        early.avail(),
                        base_addr,
                        i as int,
                        npages as int,
                        leaf_entry(page, Perms { write: true, execute: false }),
                    );
                }
                assert forall|a: usize| #[trigger] path_null(*mem, b, a) == path_null(m0, b, a) by {
                    assert(path_null(mb, b, a) == path_null(m0, b, a));
                }
                assert(walk(m0, b, page_vaddr) is None) by {
                    if walk(m0, b, page_vaddr) is Some {
                        assert(walk(mb, b, page_vaddr) == walk(m0, b, page_vaddr));
                    }
                }
                assert forall|j: int| 0 <= j < i + 1 implies #[trigger] walk(
                    m0,
                    b,
                    (base_addr + j * 4096) as usize,
                ) is None by {}
                lemma_leaf_entry(page, Perms { write: true, execute: false });
                lemma_stack_frames_step(mb, *mem, b, base_addr, i as int, npages as int, page, av0, avg, early.avail(), fcg, fc0);
                assert forall|j: int|
                    0 <= j < i + 1 implies #[trigger] stack_page_mapped(
                    *mem,
                    b,
                    (base_addr + j * 4096) as usize,
                    av0,
                ) by {
                    if j < i {
                        assert(stack_page_mapped(mb, b, (base_addr + j * 4096) as usize, av0));
                        assert(walk(mb, b, (base_addr + j * 4096) as usize) is Some);
                    }
                }
            }
        }
        i += 1;
    }
    proof {
        if wf0 {
            lemma_dm_frame_export(m0, *mem, b, base_addr, i as int, i as int);
            if us {
                lemma_frame_in_pages(m0, *mem, map.map.levels(), b, early.avail(), base_addr, i as int);
            }
        }
    }
    Ok(base_addr + npages * 4096)
}

/// Builds the kernel's own page map: a copy of the firmware's map (whose PML4
/// CR3 gives) with the kernel image mapped again at `KERNEL_OFFSET`. Returns it
/// with the value to load into CR3 to switch to it.
pub fn map_higher_half_kernel(
    alloc: &mut EarlyBootAllocator,
    mem: &mut PhysMem,
    cr3: Cr3,
    cr4: u64,
    kernel_region: MemoryRegion,
) -> (r: Result<(MappedHigherHalf, Cr3), Error>)
    requires
        cr4 & 0x1000 == 0,
        (cr3.0 & !0xfffu64) as usize != 0,
        old(alloc).sound(),
        old(alloc).free_count() >= duplicate_cost(*old(mem), (cr3.0 & !0xfffu64) as usize),
        src_table_ok(*old(mem), old(alloc).avail(), 4, (cr3.0 & !0xfffu64) as usize),
        kernel_region.base + kernel_region.npages * 4096 <= MAX_PHYS_ADDR,
        kernel_region.base + kernel_region.npages * 4096 <= usize::MAX + 1,
        (KERNEL_OFFSET as usize) + kernel_region.npages * 4096 <= usize::MAX + 1,
    ensures
        final(alloc).valid(),
        final(alloc).avail().subset_of(old(alloc).avail()),
        changed_only(*old(mem), *final(mem), old(alloc).avail()),
        forall|a: usize| #[trigger]
            walk(*final(mem), (cr3.0 & !0xfffu64) as usize, a) == walk(
                *old(mem),
                (cr3.0 & !0xfffu64) as usize,
                a,
            ),
        r matches Err(Error::TableReferencesNull) ==> old(alloc).free_count() < duplicate_cost(
            *old(mem),
            (cr3.0 & !0xfffu64) as usize,
        ) + 3 * kernel_region.npages,
        r matches Err(Error::AddrAlreadyMapped(a)) ==> exists|d: usize|
            #![trigger walk(*final(mem), d, a)]
            old(alloc).avail().contains(d) && walk(*final(mem), d, a) is Some && (walk(
                *old(mem),
                (cr3.0 & !0xfffu64) as usize,
                a,
            ) is Some || aliases_earlier(
                *final(mem),
                d,
                a,
                KERNEL_OFFSET as usize,
                (a - (KERNEL_OFFSET as usize)) / 4096,
            )) && forall|j: int|
                0 <= j < (a - (KERNEL_OFFSET as usize)) / 4096 ==> #[trigger] walk(
                    *final(mem),
                    d,
                    ((KERNEL_OFFSET as usize) + j * 4096) as usize,
                ) == Some(direct_mapping(kernel_region, KERNEL_OFFSET as usize, j, Perms { write: true, execute: true })),
        r matches Err(Error::AddrAlreadyMapped(a)) ==> (KERNEL_OFFSET as usize) <= a < (
        KERNEL_OFFSET as usize) + kernel_region.npages * 4096 && (a - (KERNEL_OFFSET as usize)) % 4096
            == 0,
        r matches Err(Error::AddrAlreadyMapped(a)) ==> forall|j: int|
            0 <= j < (a - (KERNEL_OFFSET as usize)) / 4096 ==> #[trigger] walk(
                *old(mem),
                (cr3.0 & !0xfffu64) as usize,
                ((KERNEL_OFFSET as usize) + j * 4096) as usize,
            ) is None,
        kernel_region.npages <= 0x10_0000_0000 ==> (r matches Err(Error::AddrAlreadyMapped(a)) ==> walk(
            *old(mem),
            (cr3.0 & !0xfffu64) as usize,
            a,
        ) is Some),
        old(alloc).free_count() >= duplicate_cost(*old(mem), (cr3.0 & !0xfffu64) as usize) + 3
            * kernel_region.npages && kernel_region.npages <= 0x10_0000_0000 && (forall|n: int|
            0 <= n < kernel_region.npages ==> #[trigger] walk(
                *old(mem),
                (cr3.0 & !0xfffu64) as usize,
                ((KERNEL_OFFSET as usize) + n * 4096) as usize,
            ) is None) ==> r is Ok,
        r matches Ok((hh, ncr3)) ==> {
            &&& hh.kernel_region.base == KERNEL_OFFSET as usize
            &&& hh.kernel_region.npages == kernel_region.npages
            &&& hh.map.wf(*final(mem), *final(alloc))
            &&& old(alloc).avail().contains(hh.map.base())
            &&& ncr3.0 == replace_bits(cr3.0, !0xfffu64, hh.map.base() as u64)
            &&& forall|a: usize| #[trigger]
                walk(*old(mem), (cr3.0 & !0xfffu64) as usize, a) is Some ==> walk(
                    *final(mem),
                    hh.map.base(),
                    a,
                ) == walk(*old(mem), (cr3.0 & !0xfffu64) as usize, a)
            &&& forall|n: int|
                0 <= n < kernel_region.npages ==> #[trigger] walk(
                    *final(mem),
                    hh.map.base(),
                    ((KERNEL_OFFSET as usize) + n * 4096) as usize,
                ) == Some(
                    direct_mapping(kernel_region, KERNEL_OFFSET as usize, n, Perms { write: true, execute: true }),
                )
            &&& forall|n: int|
                0 <= n < kernel_region.npages ==> #[trigger] walk(
                    *old(mem),
                    (cr3.0 & !0xfffu64) as usize,
                    ((KERNEL_OFFSET as usize) + n * 4096) as usize,
                ) is None
            &&& forall|x: usize| #[trigger]
                walk(*final(mem), hh.map.base(), x) == walk(*old(mem), (cr3.0 & !0xfffu64) as usize, x)
                    || aliases_earlier(
                    *final(mem),
                    hh.map.base(),
                    x,
                    KERNEL_OFFSET as usize,
                    kernel_region.npages as int,
                )
            &&& kernel_region.npages <= 0x10_0000_0000 ==> unshared(*final(mem), hh.map.levels())
            &&& kernel_region.npages <= 0x10_0000_0000 ==> forall|x: usize| #[trigger]
                walk(*final(mem), hh.map.base(), x) == walk(*old(mem), (cr3.0 & !0xfffu64) as usize, x)
                    || in_pages(x, KERNEL_OFFSET as usize, kernel_region.npages as int)
        },
{
    let ghost m0 = *mem;
    let ghost av0 = alloc.avail();
    let map = PageMap::from_table(cr3.pbdr());
    let mut nmap = map.duplicate(mem, alloc);
    let ghost m1 = *mem;
    let ghost fc1 = alloc.free_count();
    proof {
        assert forall|x: usize| !#[trigger] path_null(m1, nmap.base(), x) by {
            lemma_copy_no_null(m1, nmap.levels().dom(), nmap.base(), map.base(), x);
        }
    }
    let ghost av1 = alloc.avail();
    let ghost lv1 = nmap.levels();
    proof {
        assert((KERNEL_OFFSET as usize) & PAGE_MASK == 0) by (bit_vector);
    }
    proof {
        if fc1 >= 3 * kernel_region.npages && kernel_region.npages <= 0x10_0000_0000 && (forall|n: int|
            0 <= n < kernel_region.npages ==> #[trigger] walk(
                m0,
                map.base(),
                ((KERNEL_OFFSET as usize) + n * 4096) as usize,
            ) is None) {
            assert forall|n: int| 0 <= n < kernel_region.npages implies #[trigger] walk(
                m1,
                nmap.base(),
                ((KERNEL_OFFSET as usize) + n * 4096) as usize,
            ) is None && !path_null(m1, nmap.base(), ((KERNEL_OFFSET as usize) + n * 4096) as usize) by {
                assert(walk(m0, map.base(), ((KERNEL_OFFSET as usize) + n * 4096) as usize) is None);
            }
            assert(pages_clear(m1, nmap.base(), KERNEL_OFFSET as usize, kernel_region.npages as int));
        }
    }
    let res = direct_map_region(alloc, &mut nmap, mem, KERNEL_OFFSET as usize, kernel_region, Perms::wx());
    proof {
        assert(av1.union(lv1.dom()).subset_of(av0));
        lemma_changed_only_trans(m0, m1, *mem, av0, av1.union(lv1.dom()));
        assert forall|a: usize| #[trigger]
            walk(*mem, map.base(), a) == walk(m0, map.base(), a) by {
            lemma_walk_unchanged(m0, *mem, av0, map.base(), a);
        }
    }
    let nkregion = match res {
        Ok(nkregion) => nkregion,
        Err(e) => {
            proof {
                if e is TableReferencesNull && fc1 >= 3 * kernel_region.npages {
                    let k = choose|k: int|
                        0 <= k < kernel_region.npages && #[trigger] path_null(
                            m1,
                            nmap.base(),
                            ((KERNEL_OFFSET as usize) + k * 4096) as usize,
                        );
                    assert(!path_null(m1, nmap.base(), ((KERNEL_OFFSET as usize) + k * 4096) as usize));
                }
                if let Error::AddrAlreadyMapped(a) = e {
                    assert(walk(*mem, nmap.base(), a) is Some);
                    assert(walk(m1, nmap.base(), a) == walk(m0, map.base(), a));
                    if kernel_region.npages <= 0x10_0000_0000 {
                        assert(walk(m1, nmap.base(), a) is Some);
                    }
                    assert forall|j: int| 0 <= j < (a - (KERNEL_OFFSET as usize)) / 4096 implies #[trigger] walk(
                        m0,
                        map.base(),
                        ((KERNEL_OFFSET as usize) + j * 4096) as usize,
                    ) is None by {
                        let x = ((KERNEL_OFFSET as usize) + j * 4096) as usize;
                        assert(walk(m1, nmap.base(), x) is None);
                        assert(walk(m1, nmap.base(), x) == walk(m0, map.base(), x));
                    }
                }
            }
            return Err(e);
        },
    };
    let ncr3 = cr3.with_pbdr(nmap.base_addr());
    proof {
        assert forall|a: usize| #[trigger]
            walk(m0, map.base(), a) is Some implies walk(*mem, nmap.base(), a) == walk(m0, map.base(), a) by {
            assert(walk(m1, nmap.base(), a) == walk(m0, map.base(), a));
        }
        assert forall|n: int| 0 <= n < kernel_region.npages implies #[trigger] walk(
            m0,
            map.base(),
            ((KERNEL_OFFSET as usize) + n * 4096) as usize,
        ) is None by {
            let a = ((KERNEL_OFFSET as usize) + n * 4096) as usize;
            assert(walk(m1, nmap.base(), a) is None);
            assert(walk(m1, nmap.base(), a) == walk(m0, map.base(), a));
        }
        assert forall|x: usize| #[trigger]
            walk(*mem, nmap.base(), x) == walk(m0, map.base(), x) || aliases_earlier(
                *mem,
                nmap.base(),
                x,
                KERNEL_OFFSET as usize,
                kernel_region.npages as int,
            ) by {
            assert(walk(m1, nmap.base(), x) == walk(m0, map.base(), x));
        }
        if kernel_region.npages <= 0x10_0000_0000 {
            assert forall|x: usize| #[trigger]
                walk(*mem, nmap.base(), x) == walk(m0, map.base(), x) || in_pages(
                    x,
                    KERNEL_OFFSET as usize,
                    kernel_region.npages as int,
                ) by {
                assert(walk(m1, nmap.base(), x) == walk(m0, map.base(), x));
                if aliases_earlier(*mem, nmap.base(), x, KERNEL_OFFSET as usize, kernel_region.npages as int) {
                    lemma_alias_in_pages(
                        *mem,
                        nmap.levels(),
                        nmap.base(),
                        alloc.avail(),
                        x,
                        KERNEL_OFFSET as usize,
                        kernel_region.npages as int,
                    );
                }
            }
        }
    }
    Ok((MappedHigherHalf { kernel_region: nkregion, map: nmap }, ncr3))
}


/// The pages `duplicate` takes for the tables below the table at `s`, at
/// `level` (the table's own page not counted). `None` when that table or
/// one below it is a page that `alloc` may still hand out or links a table
/// at the null address, or when the count does not fit in a `usize`.
fn copy_cost_below(mem: &PhysMem, alloc: &EarlyBootAllocator, level: u8, s: usize) -> (r: Option<usize>)
    requires
        1 <= level <= 4,
        alloc.valid(),
    ensures
        r matches Some(n) ==> n == table_cost_from(*mem, level as nat, s, 0) && src_table_ok(
            *mem,
            alloc.avail(),
            level as nat,
            s,
        ),
        r is None ==> !src_table_ok(*mem, alloc.avail(), level as nat, s) || table_cost_from(
            *mem,
            level as nat,
            s,
            0,
        ) > usize::MAX,
    decreases level,
{
    if alloc.holds(s) {
        return None;
    }
    let ghost lv = level as nat;
    let mut sum: usize = 0;
    let mut k: usize = 0;
    while k < 512
        invariant
            0 <= k <= 512,
            1 <= level <= 4,
            lv == level as nat,
            alloc.valid(),
            !alloc.avail().contains(s),
            sum + table_cost_from(*mem, lv, s, k as int) == table_cost_from(*mem, lv, s, 0),
            forall|j: int| 0 <= j < k ==> src_entry_ok(*mem, alloc.avail(), lv, #[trigger] mem.entry(s, j)),
        decreases 512 - k,
    {
        let e = mem.read(s, k);
        if e & 1 != 0 && level >= 2 && (level == 4 || e & 0x80 == 0) {
            let child = #[verifier::truncate] ((e & ADDR_MASK_4K) as usize);
            proof {
                assert(links_table(lv, e));
                assert(table_cost_from(*mem, lv, s, k as int) == entry_cost(*mem, lv, e) + table_cost_from(
                    *mem,
                    lv,
                    s,
                    k + 1,
                ));
                assert(entry_cost(*mem, lv, e) == 1 + table_cost_from(*mem, (lv - 1) as nat, child, 0));
                if src_table_ok(*mem, alloc.avail(), lv, s) {
                    assert(src_entry_ok(*mem, alloc.avail(), lv, mem.entry(s, k as int)));
                }
            }
            if child == 0 {
                return None;
            }
            let c = match copy_cost_below(mem, alloc, level - 1, child) {
                Some(c) => c,
                None => {
                    return None;
                },
            };
            if c == usize::MAX || sum > usize::MAX - (c + 1) {
                return None;
            }
            sum = sum + (c + 1);
        } else {
            assert(!links_table(lv, e));
            assert(table_cost_from(*mem, lv, s, k as int) == table_cost_from(*mem, lv, s, k + 1));
        }
        k += 1;
    }
    Some(sum)
}

impl PageMap {
    /// Whether `duplicate` can copy the map: its tables lie outside the pages
    /// `alloc` may still hand out and link no table at the null address, and
    /// `alloc` has a page for each table of the copy.
    pub fn can_duplicate(&self, mem: &PhysMem, alloc: &EarlyBootAllocator) -> (b: bool)
        requires
            alloc.valid(),
        ensures
            b ==> src_table_ok(*mem, alloc.avail(), 4, self.base()) && alloc.free_count() >= duplicate_cost(
                *mem,
                self.base(),
            ),
            !b ==> !src_table_ok(*mem, alloc.avail(), 4, self.base()) || alloc.free_count() < duplicate_cost(
                *mem,
                self.base(),
            ) || duplicate_cost(*mem, self.base()) > usize::MAX,
    {
        match copy_cost_below(mem, alloc, 4, self.base) {
            Some(c) => c < alloc.free_page_count(),
            None => false,
        }
    }
}

/// The tables that the entries of the table at `t`, at `level`, link, in
/// entry order: one element for each linking entry.
pub open spec fn linked_tables(mem: PhysMem, level: nat, t: usize, k: int) -> Seq<usize>
    decreases k,
{
    if k <= 0 {
        Seq::empty()
    } else if links_table(level, mem.entry(t, k - 1)) {
        linked_tables(mem, level, t, k - 1).push(addr_4k(mem.entry(t, k - 1)))
    } else {
        linked_tables(mem, level, t, k - 1)
    }
}

/// The tables that the entries of the table at `t`, at `level`, link, in
/// entry order, as `duplicate` visits them.
pub fn child_tables(mem: &PhysMem, level: u8, t: usize) -> (r: Vec<usize>)
    requires
        1 <= level <= 4,
    ensures
        r@ == linked_tables(*mem, level as nat, t, 512),
{
    let ghost lv = level as nat;
    let mut r: Vec<usize> = Vec::new();
    let mut k: usize = 0;
    while k < 512
        invariant
            0 <= k <= 512,
            lv == level as nat,
            r@ == linked_tables(*mem, lv, t, k as int),
        decreases 512 - k,
    {
        let e = mem.read(t, k);
        if e & 1 != 0 && level >= 2 && (level == 4 || e & 0x80 == 0) {
            r.push((e & ADDR_MASK_4K) as usize);
        }
        k += 1;
    }
    r
}


/// The entry `map_page` writes to link a fresh table at `a` under another:
/// present and writable, every other flag clear.
pub open spec fn link_entry(a: usize) -> u64 {
    set_bit(replace_bits(1, ADDR_MASK_4K, a as u64), 2, true)
}

/// The page-table slot that the walk of `addr` reads, when every entry above it
/// links a table.
pub open spec fn pt_slot(mem: PhysMem, base: usize, addr: usize) -> Option<(usize, int)> {
    if page_table_exists(mem, base, addr) {
        let e4 = mem.entry(base, pml4_index(addr));
        let e3 = mem.entry(addr_4k(e4), pdpt_index(addr));
        let e2 = mem.entry(addr_4k(e3), pd_index(addr));
        Some((addr_4k(e2), pt_index(addr)))
    } else {
        None
    }
}

/// Changing only pages outside the hierarchy changes no translation, no null
/// link on a path and no page-table slot.
pub proof fn lemma_frame_outside(m1: PhysMem, m2: PhysMem, lv: Map<usize, int>, base: usize, av: Set<usize>)
    requires
        levels_ok(m1, lv, base, av),
        forall|t: usize, i: int| lv.contains_key(t) ==> #[trigger] m2.entry(t, i) == m1.entry(t, i),
    ensures
        levels_ok(m2, lv, base, av),
        forall|a: usize|
            #![trigger walk(m2, base, a)]
            #![trigger path_null(m2, base, a)]
            #![trigger pt_slot(m2, base, a)]
            walk(m2, base, a) == walk(m1, base, a) && path_null(m2, base, a) == path_null(m1, base, a)
                && pt_slot(m2, base, a) == pt_slot(m1, base, a),
{
    assert forall|t: usize, i: int|
        lv.contains_key(t) && 0 <= i < 512 && references_table(lv[t], #[trigger] m2.entry(t, i))
            implies lv.contains_key(addr_4k(m2.entry(t, i))) && lv[addr_4k(m2.entry(t, i))] == lv[t] - 1 by {
        assert(m2.entry(t, i) == m1.entry(t, i));
    }
    assert forall|a: usize|
        #![trigger walk(m2, base, a)]
        #![trigger path_null(m2, base, a)]
        #![trigger pt_slot(m2, base, a)]
        walk(m2, base, a) == walk(m1, base, a) && path_null(m2, base, a) == path_null(m1, base, a)
            && pt_slot(m2, base, a) == pt_slot(m1, base, a) by {
        lemma_index_bound(a as u64 >> 39u64);
        lemma_index_bound(a as u64 >> 30u64);
        lemma_index_bound(a as u64 >> 21u64);
        lemma_index_bound(a as u64 >> 12u64);
        let e4 = m1.entry(base, pml4_index(a));
        assert(m2.entry(base, pml4_index(a)) == e4);
        if bit_present(e4) && addr_4k(e4) != 0 {
            let p = addr_4k(e4);
            assert(references_table(4, e4));
            let e3 = m1.entry(p, pdpt_index(a));
            assert(m2.entry(p, pdpt_index(a)) == e3);
            if bit_present(e3) && !bit_huge(e3) && addr_4k(e3) != 0 {
                let d = addr_4k(e3);
                assert(references_table(3, e3));
                let e2 = m1.entry(d, pd_index(a));
                assert(m2.entry(d, pd_index(a)) == e2);
                if bit_present(e2) && !bit_huge(e2) && addr_4k(e2) != 0 {
                    assert(references_table(2, e2));
                    let pt = addr_4k(e2);
                    assert(m2.entry(pt, pt_index(a)) == m1.entry(pt, pt_index(a)));
                }
            }
        }
    }
}

/// Writing, into an entry above the page tables that was not present, a link
/// that is not huge and references either the null address or a zeroed page
/// outside the hierarchy changes no translation; a link to a page changes no
/// null link on a path either.
pub proof fn lemma_frame_link(
    m1: PhysMem,
    m2: PhysMem,
    lv: Map<usize, int>,
    base: usize,
    av: Set<usize>,
    t: usize,
    i: int,
    v: u64,
)
    requires
        levels_ok(m1, lv, base, av),
        lv.contains_key(t),
        lv[t] >= 2,
        0 <= i < 512,
        !bit_present(m1.entry(t, i)),
        mem_written(m1, m2, t, i, v),
        bit_present(v),
        !bit_huge(v),
        addr_4k(v) != 0 ==> !lv.contains_key(addr_4k(v)) && forall|j: int| #[trigger] m1.entry(addr_4k(v), j) == 0,
    ensures
        forall|a: usize| #[trigger] walk(m2, base, a) == walk(m1, base, a),
        addr_4k(v) != 0 ==> forall|a: usize| #[trigger] path_null(m2, base, a) == path_null(m1, base, a),
{
    let f = addr_4k(v);
    lemma_zero_entry();
    assert forall|a: usize|
        #![trigger walk(m2, base, a)]
        #![trigger path_null(m2, base, a)]
        walk(m2, base, a) == walk(m1, base, a) && (f != 0
            ==> path_null(m2, base, a) == path_null(m1, base, a)) by {
        lemma_index_bound(a as u64 >> 39u64);
        lemma_index_bound(a as u64 >> 30u64);
        lemma_index_bound(a as u64 >> 21u64);
        lemma_index_bound(a as u64 >> 12u64);
        let x4 = pml4_index(a);
        let x3 = pdpt_index(a);
        let x2 = pd_index(a);
        let x1 = pt_index(a);
        let e4 = m1.entry(base, x4);
        if base == t && x4 == i {
            assert(m2.entry(base, x4) == v);
            if f != 0 {
                assert(m2.entry(f, x3) == m1.entry(f, x3));
                assert(m1.entry(f, x3) == 0);
            }
        } else {
            assert(m2.entry(base, x4) == e4);
            if bit_present(e4) && addr_4k(e4) != 0 {
                let p = addr_4k(e4);
                assert(references_table(4, e4));
                assert(lv.contains_key(p) && lv[p] == 3);
                let e3 = m1.entry(p, x3);
                if p == t && x3 == i {
                    assert(m2.entry(p, x3) == v);
                    if f != 0 {
                        assert(m2.entry(f, x2) == m1.entry(f, x2));
                        assert(m1.entry(f, x2) == 0);
                    }
                } else {
                    assert(m2.entry(p, x3) == e3);
                    if bit_present(e3) && !bit_huge(e3) && addr_4k(e3) != 0 {
                        let d = addr_4k(e3);
                        assert(references_table(3, e3));
                        assert(lv.contains_key(d) && lv[d] == 2);
                        let e2 = m1.entry(d, x2);
                        if d == t && x2 == i {
                            assert(m2.entry(d, x2) == v);
                            if f != 0 {
                                assert(m2.entry(f, x1) == m1.entry(f, x1));
                                assert(m1.entry(f, x1) == 0);
                            }
                        } else {
                            assert(m2.entry(d, x2) == e2);
                            if bit_present(e2) && !bit_huge(e2) && addr_4k(e2) != 0 {
                                assert(references_table(2, e2));
                                let pt = addr_4k(e2);
                                assert(lv.contains_key(pt) && lv[pt] == 1);
                                assert(pt != t);
                                assert(m2.entry(pt, x1) == m1.entry(pt, x1));
                            }
                        }
                    }
                }
            }
        }
    }
}

/// Writing `v` into an entry of a page table that was not present changes
/// the translation of exactly the addresses whose walk reads that entry, and
/// changes no null link on a path and no page-table slot.
pub proof fn lemma_frame_leaf(
    m1: PhysMem,
    m2: PhysMem,
    lv: Map<usize, int>,
    base: usize,
    av: Set<usize>,
    t: usize,
    i: int,
    v: u64,
)
    requires
        levels_ok(m1, lv, base, av),
        lv.contains_key(t),
        lv[t] == 1,
        0 <= i < 512,
        !bit_present(m1.entry(t, i)),
        mem_written(m1, m2, t, i, v),
        bit_present(v),
    ensures
        forall|a: usize|
            #![trigger walk(m2, base, a)]
            #![trigger pt_slot(m2, base, a)]
            #![trigger path_null(m2, base, a)]
            pt_slot(m2, base, a) == pt_slot(m1, base, a) && path_null(m2, base, a) == path_null(m1, base, a)
                && walk(m2, base, a) == if pt_slot(m1, base, a) == Some((t, i)) {
                Some((Mapping::Page4K(PageTableEntry(v)), addr_4k(v) | (a & PAGE_MASK)))
            } else {
                walk(m1, base, a)
            },
{
    assert forall|a: usize|
        #![trigger walk(m2, base, a)]
        #![trigger pt_slot(m2, base, a)]
        #![trigger path_null(m2, base, a)]
        pt_slot(m2, base, a) == pt_slot(m1, base, a) && path_null(m2, base, a) == path_null(m1, base, a)
            && walk(m2, base, a) == if pt_slot(m1, base, a) == Some((t, i)) {
            Some((Mapping::Page4K(PageTableEntry(v)), addr_4k(v) | (a & PAGE_MASK)))
        } else {
            walk(m1, base, a)
        } by {
        lemma_index_bound(a as u64 >> 39u64);
        lemma_index_bound(a as u64 >> 30u64);
        lemma_index_bound(a as u64 >> 21u64);
        lemma_index_bound(a as u64 >> 12u64);
        let x4 = pml4_index(a);
        let x3 = pdpt_index(a);
        let x2 = pd_index(a);
        let x1 = pt_index(a);
        assert(lv[base] == 4);
        assert(base != t);
        let e4 = m1.entry(base, x4);
        assert(m2.entry(base, x4) == e4);
        if bit_present(e4) && addr_4k(e4) != 0 {
            let p = addr_4k(e4);
            assert(references_table(4, e4));
            assert(lv.contains_key(p) && lv[p] == 3);
            assert(p != t);
            let e3 = m1.entry(p, x3);
            assert(m2.entry(p, x3) == e3);
            if bit_present(e3) && !bit_huge(e3) && addr_4k(e3) != 0 {
                let d = addr_4k(e3);
                assert(references_table(3, e3));
                assert(lv.contains_key(d) && lv[d] == 2);
                assert(d != t);
                let e2 = m1.entry(d, x2);
                assert(m2.entry(d, x2) == e2);
                if bit_present(e2) && !bit_huge(e2) && addr_4k(e2) != 0 {
                    let pt = addr_4k(e2);
                    if pt == t && x1 == i {
                        assert(m2.entry(pt, x1) == v);
                    } else {
                        assert(m2.entry(pt, x1) == m1.entry(pt, x1));
                    }
                }
            }
        }
    }
}


/// A link entry is present, not huge, and writable.
pub proof fn lemma_link_entry_bits(a: u64)
    by (bit_vector)
    ensures
        (((1u64 & !ADDR_MASK_4K) | (a & ADDR_MASK_4K)) | 2) & 1 != 0,
        (((1u64 & !ADDR_MASK_4K) | (a & ADDR_MASK_4K)) | 2) & 0x80 == 0,
        (((1u64 & !ADDR_MASK_4K) | (a & ADDR_MASK_4K)) | 2) & 2 != 0,
{
}

/// An entry that `map_page` may have written where there was none: a link to a
/// table, or the leaf `leaf` when `(t, i)` is the slot `slot`.
pub open spec fn fresh_value(e: u64, t: usize, i: int, slot: Option<(usize, int)>, leaf: u64) -> bool {
    e == link_entry(addr_4k(e)) || (slot == Some((t, i)) && e == leaf)
}

/// From `m0` to `m`, every entry of a table in `lv0` is kept or, where it was
/// not present, holds a fresh value; every entry of a table that joined
/// (in `lv`, not in `lv0`) is zero or a fresh value.
pub open spec fn grown(
    m0: PhysMem,
    m: PhysMem,
    lv0: Map<usize, int>,
    lv: Map<usize, int>,
    slot: Option<(usize, int)>,
    leaf: u64,
) -> bool {
    forall|t: usize, i: int|
        #![trigger m.entry(t, i)]
        (lv0.contains_key(t) ==> m.entry(t, i) == m0.entry(t, i) || (!bit_present(m0.entry(t, i))
            && fresh_value(m.entry(t, i), t, i, slot, leaf))) && (lv.contains_key(t) && !lv0.contains_key(t)
            ==> m.entry(t, i) == 0 || fresh_value(m.entry(t, i), t, i, slot, leaf))
}

/// No table of the hierarchy `lv` is linked from two entries: every table
/// below the PML4 has exactly one entry that references it.
pub open spec fn unshared(mem: PhysMem, lv: Map<usize, int>) -> bool {
    forall|t1: usize, i1: int, t2: usize, i2: int|
        #![trigger mem.entry(t1, i1), mem.entry(t2, i2)]
        lv.contains_key(t1) && lv.contains_key(t2) && 0 <= i1 < 512 && 0 <= i2 < 512 && references_table(
            lv[t1],
            mem.entry(t1, i1),
        ) && references_table(lv[t2], mem.entry(t2, i2)) && addr_4k(mem.entry(t1, i1)) == addr_4k(
            mem.entry(t2, i2),
        ) ==> t1 == t2 && i1 == i2
}

/// How `map_page` changes memory, from `m0` to `m1`, for the map rooted at
/// `b` whose tables were `lv0` and are `lv1`. When it fails (`!ok`) no
/// translation changes. When it succeeds, `addr` has a page-table slot; every
/// address whose walk reads that slot now translates through `leaf` (in a map
/// with no shared tables, exactly the addresses in the page of `addr`), and
/// every other address translates as before; no null link appears or goes
/// away on any path. Either way the entries have grown as `grown` says: the
/// only new entries are links `link_entry` writes (present, writable, every
/// other flag clear) and, on success, `leaf` in the slot of `addr`. A
/// hierarchy with no shared tables keeps that property.
#[verifier::opaque]
pub open spec fn page_map_change(
    m0: PhysMem,
    m1: PhysMem,
    lv0: Map<usize, int>,
    lv1: Map<usize, int>,
    b: usize,
    addr: usize,
    leaf: u64,
    ok: bool,
) -> bool {
    &&& !ok ==> forall|a: usize| #[trigger] walk(m1, b, a) == walk(m0, b, a)
    &&& unshared(m0, lv0) ==> unshared(m1, lv1)
    &&& ok ==> pt_slot(m1, b, addr) is Some
    &&& ok ==> forall|a: usize| #[trigger] path_null(m1, b, a) == path_null(m0, b, a)
    &&& ok ==> forall|a: usize|
        #[trigger] walk(m1, b, a) == if pt_slot(m1, b, a) == pt_slot(m1, b, addr) {
            Some((Mapping::Page4K(PageTableEntry(leaf)), addr_4k(leaf) | (a & PAGE_MASK)))
        } else {
            walk(m0, b, a)
        }
    &&& grown(m0, m1, lv0, lv1, if ok {
        pt_slot(m1, b, addr)
    } else {
        None
    }, leaf)
}

/// After a failed `map_page`, every address translates as before.
pub proof fn lemma_change_failed(
    m0: PhysMem,
    m1: PhysMem,
    lv0: Map<usize, int>,
    lv1: Map<usize, int>,
    b: usize,
    addr: usize,
    leaf: u64,
)
    requires
        page_map_change(m0, m1, lv0, lv1, b, addr, leaf, false),
    ensures
        forall|a: usize| #[trigger] walk(m1, b, a) == walk(m0, b, a),
{
    reveal(page_map_change);
}

/// After a successful `map_page`, no null link on a path has appeared or gone away.
pub proof fn lemma_change_null_links(
    m0: PhysMem,
    m1: PhysMem,
    lv0: Map<usize, int>,
    lv1: Map<usize, int>,
    b: usize,
    addr: usize,
    leaf: u64,
)
    requires
        page_map_change(m0, m1, lv0, lv1, b, addr, leaf, true),
    ensures
        forall|a: usize| #[trigger] path_null(m1, b, a) == path_null(m0, b, a),
{
    reveal(page_map_change);
}

/// What `map_page` keeps while it works on the way down: no translation has
/// changed, no null link on a path has changed while every link it wrote
/// references a page, and the entries have grown as `grown` says.
#[verifier::opaque]
spec fn map_frame(
    m0: PhysMem,
    m: PhysMem,
    lv0: Map<usize, int>,
    lv: Map<usize, int>,
    b: usize,
    leaf: u64,
    nonnull: bool,
    nw: bool,
) -> bool {
    &&& forall|a: usize| #[trigger] walk(m, b, a) == walk(m0, b, a)
    &&& nw ==> forall|t: usize, i: int| lv0.contains_key(t) ==> #[trigger] m.entry(t, i) == m0.entry(t, i)
    &&& unshared(m0, lv0) ==> unshared(m, lv)
    &&& nonnull ==> forall|a: usize| #[trigger] path_null(m, b, a) == path_null(m0, b, a)
    &&& grown(m0, m, lv0, lv, None, leaf)
    &&& lv0.submap_of(lv)
}

proof fn lemma_mf_start(m0: PhysMem, lv0: Map<usize, int>, b: usize, leaf: u64)
    ensures
        map_frame(m0, m0, lv0, lv0, b, leaf, true, true),
{
    reveal(map_frame);
}

/// A step that changes only a page outside the hierarchy (or nothing).
proof fn lemma_mf_zero(
    m0: PhysMem,
    m1: PhysMem,
    m2: PhysMem,
    lv0: Map<usize, int>,
    lv: Map<usize, int>,
    b: usize,
    av: Set<usize>,
    a: usize,
    leaf: u64,
    nn: bool,
    nw: bool,
)
    requires
        map_frame(m0, m1, lv0, lv, b, leaf, nn, nw),
        levels_ok(m1, lv, b, av),
        m2 == m1 || (av.contains(a) && mem_zeroed(m1, m2, a)),
    ensures
        map_frame(m0, m2, lv0, lv, b, leaf, nn, nw),
{
    reveal(map_frame);
    assert forall|t: usize, i: int| lv.contains_key(t) implies #[trigger] m2.entry(t, i) == m1.entry(t, i) by {
        if m2 != m1 {
            assert(t != a);
        }
    }
    lemma_frame_outside(m1, m2, lv, b, av);
    if nw {
        assert forall|t: usize, i: int| lv0.contains_key(t) implies #[trigger] m2.entry(t, i) == m0.entry(t, i) by {
            assert(m1.entry(t, i) == m0.entry(t, i));
        }
    }
    if unshared(m0, lv0) {
        assert forall|t1: usize, i1: int, t2: usize, i2: int|
            #![trigger m2.entry(t1, i1), m2.entry(t2, i2)]
            lv.contains_key(t1) && lv.contains_key(t2) && 0 <= i1 < 512 && 0 <= i2 < 512 && references_table(
                lv[t1],
                m2.entry(t1, i1),
            ) && references_table(lv[t2], m2.entry(t2, i2)) && addr_4k(m2.entry(t1, i1)) == addr_4k(
                m2.entry(t2, i2),
            ) implies t1 == t2 && i1 == i2 by {
            assert(m2.entry(t1, i1) == m1.entry(t1, i1));
            assert(m2.entry(t2, i2) == m1.entry(t2, i2));
        }
    }
    assert forall|t: usize, i: int|
        (lv0.contains_key(t) ==> m2.entry(t, i) == m0.entry(t, i) || (!bit_present(m0.entry(t, i))
            && fresh_value(#[trigger] m2.entry(t, i), t, i, None, leaf))) && (lv.contains_key(t)
            && !lv0.contains_key(t) ==> m2.entry(t, i) == 0 || fresh_value(m2.entry(t, i), t, i, None, leaf)) by {
        if lv0.contains_key(t) {
            assert(lv.contains_key(t));
            assert(m2.entry(t, i) == m1.entry(t, i));
        }
        if lv.contains_key(t) {
            assert(m2.entry(t, i) == m1.entry(t, i));
        }
    }
}

/// A step that writes the link `v` into an entry above the page tables that
/// was not present; a link to a page joins that page to the hierarchy.
proof fn lemma_mf_link(
    m0: PhysMem,
    m1: PhysMem,
    m2: PhysMem,
    lv0: Map<usize, int>,
    lv: Map<usize, int>,
    lv2: Map<usize, int>,
    b: usize,
    av: Set<usize>,
    t: usize,
    i: int,
    v: u64,
    leaf: u64,
    nn: bool,
    nw: bool,
)
    requires
        map_frame(m0, m1, lv0, lv, b, leaf, nn, nw),
        levels_ok(m1, lv, b, av),
        lv.contains_key(t),
        lv[t] >= 2,
        0 <= i < 512,
        !bit_present(m1.entry(t, i)),
        mem_written(m1, m2, t, i, v),
        v == link_entry(addr_4k(v)),
        addr_4k(v) != 0 ==> !lv.contains_key(addr_4k(v)) && forall|j: int| #[trigger] m1.entry(addr_4k(v), j) == 0,
        lv2 == (if addr_4k(v) != 0 {
            lv.insert(addr_4k(v), lv[t] - 1)
        } else {
            lv
        }),
    ensures
        map_frame(m0, m2, lv0, lv2, b, leaf, nn && addr_4k(v) != 0, false),
{
    reveal(map_frame);
    let f = addr_4k(v);
    lemma_link_entry_bits(f as u64);
    assert(bit_present(v) && !bit_huge(v));
    lemma_frame_link(m1, m2, lv, b, av, t, i, v);
    assert forall|t2: usize, i2: int|
        (lv0.contains_key(t2) ==> m2.entry(t2, i2) == m0.entry(t2, i2) || (!bit_present(m0.entry(t2, i2))
            && fresh_value(#[trigger] m2.entry(t2, i2), t2, i2, None, leaf))) && (lv2.contains_key(t2)
            && !lv0.contains_key(t2) ==> m2.entry(t2, i2) == 0 || fresh_value(m2.entry(t2, i2), t2, i2, None, leaf)) by {
        if t2 == t && i2 == i {
            assert(m2.entry(t2, i2) == v);
            assert(fresh_value(v, t2, i2, None, leaf));
            if lv0.contains_key(t2) {
                assert(m1.entry(t2, i2) == m0.entry(t2, i2) || fresh_value(m1.entry(t2, i2), t2, i2, None, leaf));
                lemma_link_entry_bits(addr_4k(m1.entry(t2, i2)) as u64);
            }
        } else {
            assert(m2.entry(t2, i2) == m1.entry(t2, i2));
            if f != 0 && t2 == f {
                assert(m1.entry(f, i2) == 0);
            }
        }
    }
    assert(lv0.submap_of(lv2)) by {
        assert forall|x: usize| #[trigger] lv0.contains_key(x) implies lv2.contains_key(x) && lv2[x] == lv0[x] by {
            assert(lv.contains_key(x));
        }
    }
    assert forall|a: usize| #[trigger] walk(m2, b, a) == walk(m0, b, a) by {
        assert(walk(m1, b, a) == walk(m0, b, a));
    }
    if nn && f != 0 {
        assert forall|a: usize| #[trigger] path_null(m2, b, a) == path_null(m0, b, a) by {
            assert(path_null(m1, b, a) == path_null(m0, b, a));
        }
    }
    if unshared(m0, lv0) {
        lemma_link_unshared(m1, m2, lv, lv2, b, av, t, i, v);
    }
}

/// Linking a fresh zeroed table (or the null address) into an entry that was
/// not present keeps a hierarchy without shared tables so.
proof fn lemma_link_unshared(
    m1: PhysMem,
    m2: PhysMem,
    lv: Map<usize, int>,
    lv2: Map<usize, int>,
    b: usize,
    av: Set<usize>,
    t: usize,
    i: int,
    v: u64,
)
    requires
        levels_ok(m1, lv, b, av),
        unshared(m1, lv),
        lv.contains_key(t),
        0 <= i < 512,
        !bit_present(m1.entry(t, i)),
        mem_written(m1, m2, t, i, v),
        addr_4k(v) != 0 ==> !lv.contains_key(addr_4k(v)) && forall|j: int| #[trigger] m1.entry(addr_4k(v), j) == 0,
        lv2 == (if addr_4k(v) != 0 {
            lv.insert(addr_4k(v), lv[t] - 1)
        } else {
            lv
        }),
    ensures
        unshared(m2, lv2),
{
    let f = addr_4k(v);
    lemma_zero_entry();
    assert forall|t1: usize, i1: int, t2: usize, i2: int|
        #![trigger m2.entry(t1, i1), m2.entry(t2, i2)]
        lv2.contains_key(t1) && lv2.contains_key(t2) && 0 <= i1 < 512 && 0 <= i2 < 512 && references_table(
            lv2[t1],
            m2.entry(t1, i1),
        ) && references_table(lv2[t2], m2.entry(t2, i2)) && addr_4k(m2.entry(t1, i1)) == addr_4k(
            m2.entry(t2, i2),
        ) implies t1 == t2 && i1 == i2 by {
        if f != 0 {
            if t1 == f {
                assert(m2.entry(t1, i1) == m1.entry(f, i1));
            }
            if t2 == f {
                assert(m2.entry(t2, i2) == m1.entry(f, i2));
            }
        }
        assert(lv.contains_key(t1) && lv.contains_key(t2));
        assert(lv2[t1] == lv[t1] && lv2[t2] == lv[t2]);
        if t1 == t && i1 == i {
            if !(t2 == t && i2 == i) {
                assert(m2.entry(t2, i2) == m1.entry(t2, i2));
                assert(lv.contains_key(addr_4k(m1.entry(t2, i2))));
            }
        } else if t2 == t && i2 == i {
            assert(m2.entry(t1, i1) == m1.entry(t1, i1));
            assert(lv.contains_key(addr_4k(m1.entry(t1, i1))));
        } else {
            assert(m2.entry(t1, i1) == m1.entry(t1, i1));
            assert(m2.entry(t2, i2) == m1.entry(t2, i2));
        }
    }
}

/// The last step: the leaf is written into a page-table entry that was not present.
proof fn lemma_mf_leaf(
    m0: PhysMem,
    m6: PhysMem,
    m7: PhysMem,
    lv0: Map<usize, int>,
    lv: Map<usize, int>,
    b: usize,
    av: Set<usize>,
    t: usize,
    i: int,
    leaf: u64,
    addr: usize,
    nw: bool,
)
    requires
        map_frame(m0, m6, lv0, lv, b, leaf, true, nw),
        levels_ok(m6, lv, b, av),
        lv.contains_key(t),
        lv[t] == 1,
        0 <= i < 512,
        !bit_present(m6.entry(t, i)),
        mem_written(m6, m7, t, i, leaf),
        bit_present(leaf),
        pt_slot(m6, b, addr) == Some((t, i)),
    ensures
        page_map_change(m0, m7, lv0, lv, b, addr, leaf, true),
        unshared(m0, lv0) ==> unshared(m7, lv),
        forall|a: usize| #[trigger] path_null(m7, b, a) == path_null(m0, b, a),
        forall|a: usize|
            #[trigger] walk(m7, b, a) == if pt_slot(m7, b, a) == Some((t, i)) {
                Some((Mapping::Page4K(PageTableEntry(leaf)), addr_4k(leaf) | (a & PAGE_MASK)))
            } else {
                walk(m0, b, a)
            },
        grown(m0, m7, lv0, lv, Some((t, i)), leaf),
        forall|a: usize| #[trigger] pt_slot(m7, b, a) == pt_slot(m6, b, a),
{
    reveal(map_frame);
    reveal(page_map_change);
    lemma_frame_leaf(m6, m7, lv, b, av, t, i, leaf);
    if unshared(m0, lv0) {
        assert forall|t1: usize, i1: int, t2: usize, i2: int|
            #![trigger m7.entry(t1, i1), m7.entry(t2, i2)]
            lv.contains_key(t1) && lv.contains_key(t2) && 0 <= i1 < 512 && 0 <= i2 < 512 && references_table(
                lv[t1],
                m7.entry(t1, i1),
            ) && references_table(lv[t2], m7.entry(t2, i2)) && addr_4k(m7.entry(t1, i1)) == addr_4k(
                m7.entry(t2, i2),
            ) implies t1 == t2 && i1 == i2 by {
            assert(t1 != t || i1 != i);
            assert(t2 != t || i2 != i);
            assert(m7.entry(t1, i1) == m6.entry(t1, i1));
            assert(m7.entry(t2, i2) == m6.entry(t2, i2));
        }
    }
    assert forall|a: usize|
        #[trigger] walk(m7, b, a) == if pt_slot(m7, b, a) == Some((t, i)) {
            Some((Mapping::Page4K(PageTableEntry(leaf)), addr_4k(leaf) | (a & PAGE_MASK)))
        } else {
            walk(m0, b, a)
        } by {
        assert(walk(m6, b, a) == walk(m0, b, a));
    }
    assert forall|a: usize| #[trigger] path_null(m7, b, a) == path_null(m0, b, a) by {
        assert(path_null(m6, b, a) == path_null(m0, b, a));
    }
    assert forall|t2: usize, i2: int|
        (lv0.contains_key(t2) ==> m7.entry(t2, i2) == m0.entry(t2, i2) || (!bit_present(m0.entry(t2, i2))
            && fresh_value(#[trigger] m7.entry(t2, i2), t2, i2, Some((t, i)), leaf))) && (lv.contains_key(t2)
            && !lv0.contains_key(t2) ==> m7.entry(t2, i2) == 0 || fresh_value(m7.entry(t2, i2), t2, i2, Some((t, i)), leaf)) by {
        if t2 == t && i2 == i {
            assert(m7.entry(t2, i2) == leaf);
            if lv0.contains_key(t2) {
                assert(m6.entry(t2, i2) == m0.entry(t2, i2) || fresh_value(m6.entry(t2, i2), t2, i2, None, leaf));
                lemma_link_entry_bits(addr_4k(m6.entry(t2, i2)) as u64);
            }
        } else {
            assert(m7.entry(t2, i2) == m6.entry(t2, i2));
        }
    }
}

/// On the way out after an error: the frame, as stated.
proof fn lemma_mf_exit(
    m0: PhysMem,
    m: PhysMem,
    lv0: Map<usize, int>,
    lv: Map<usize, int>,
    b: usize,
    addr: usize,
    leaf: u64,
    nn: bool,
    nw: bool,
)
    requires
        map_frame(m0, m, lv0, lv, b, leaf, nn, nw),
    ensures
        page_map_change(m0, m, lv0, lv, b, addr, leaf, false),
        nw ==> forall|t: usize, i: int| lv0.contains_key(t) ==> #[trigger] m.entry(t, i) == m0.entry(t, i),
        unshared(m0, lv0) ==> unshared(m, lv),
{
    reveal(map_frame);
    reveal(page_map_change);
}


/// A page-table slot that the walk of `x` reads stays the same while the
/// present entries of the hierarchy are kept.
pub proof fn lemma_pt_slot_kept(m1: PhysMem, m2: PhysMem, lv: Map<usize, int>, b: usize, av: Set<usize>, x: usize)
    requires
        levels_ok(m1, lv, b, av),
        present_kept(m1, m2, lv),
        pt_slot(m1, b, x) is Some,
    ensures
        pt_slot(m2, b, x) == pt_slot(m1, b, x),
{
    lemma_index_bound(x as u64 >> 39u64);
    lemma_index_bound(x as u64 >> 30u64);
    lemma_index_bound(x as u64 >> 21u64);
    let e4 = m1.entry(b, pml4_index(x));
    assert(m2.entry(b, pml4_index(x)) == e4);
    assert(references_table(4, e4));
    let p = addr_4k(e4);
    let e3 = m1.entry(p, pdpt_index(x));
    assert(m2.entry(p, pdpt_index(x)) == e3);
    assert(references_table(3, e3));
    let d = addr_4k(e3);
    assert(m2.entry(d, pd_index(x)) == m1.entry(d, pd_index(x)));
}

/// The walk of `x` reads the page-table slot of one of the first `n` pages from `offset`.
pub open spec fn aliases_earlier(mem: PhysMem, b: usize, x: usize, offset: usize, n: int) -> bool {
    exists|j: int|
        0 <= j < n && pt_slot(mem, b, x) is Some && #[trigger] pt_slot(mem, b, (offset + j * 4096) as usize)
            == pt_slot(mem, b, x)
}

/// While `direct_map_region` works, an address translates as before unless
/// its walk reads the page-table slot of a page mapped so far.
#[verifier::opaque]
spec fn dm_frame(m0: PhysMem, mem: PhysMem, b: usize, offset: usize, n: int) -> bool {
    forall|x: usize| #[trigger] walk(mem, b, x) == walk(m0, b, x) || aliases_earlier(mem, b, x, offset, n)
}

proof fn lemma_dm_frame_start(m0: PhysMem, b: usize, offset: usize)
    ensures
        dm_frame(m0, m0, b, offset, 0),
{
    reveal(dm_frame);
}

/// One more page mapped keeps `dm_frame`.
proof fn lemma_dm_frame_ok(
    m0: PhysMem,
    mb: PhysMem,
    m1: PhysMem,
    lvb: Map<usize, int>,
    lv1: Map<usize, int>,
    b: usize,
    av: Set<usize>,
    offset: usize,
    n: int,
    leaf: u64,
)
    requires
        dm_frame(m0, mb, b, offset, n),
        levels_ok(mb, lvb, b, av),
        present_kept(mb, m1, lvb),
        page_map_change(mb, m1, lvb, lv1, b, (offset + n * 4096) as usize, leaf, true),
        n >= 0,
    ensures
        dm_frame(m0, m1, b, offset, n + 1),
{
    reveal(dm_frame);
    reveal(page_map_change);
    let an = (offset + n * 4096) as usize;
    assert forall|x: usize| #[trigger] walk(m1, b, x) == walk(m0, b, x) || aliases_earlier(m1, b, x, offset, n + 1) by {
        if pt_slot(m1, b, x) == pt_slot(m1, b, an) {
            assert(pt_slot(m1, b, (offset + n * 4096) as usize) == pt_slot(m1, b, x));
        } else {
            assert(walk(m1, b, x) == walk(mb, b, x));
            if !(walk(mb, b, x) == walk(m0, b, x)) {
                assert(aliases_earlier(mb, b, x, offset, n));
                let j = choose|j: int|
                    0 <= j < n && pt_slot(mb, b, x) is Some && #[trigger] pt_slot(mb, b, (offset + j * 4096) as usize)
                        == pt_slot(mb, b, x);
                lemma_pt_slot_kept(mb, m1, lvb, b, av, x);
                lemma_pt_slot_kept(mb, m1, lvb, b, av, (offset + j * 4096) as usize);
                assert(pt_slot(m1, b, (offset + j * 4096) as usize) == pt_slot(m1, b, x));
            }
        }
    }
}

/// After a failed step, an address that was mapped when the step began was
/// mapped before the call or reads the slot of a page mapped before it.
proof fn lemma_dm_frame_failed(
    m0: PhysMem,
    mb: PhysMem,
    m1: PhysMem,
    lvb: Map<usize, int>,
    b: usize,
    av: Set<usize>,
    offset: usize,
    n: int,
    a: usize,
)
    requires
        dm_frame(m0, mb, b, offset, n),
        levels_ok(mb, lvb, b, av),
        present_kept(mb, m1, lvb),
        walk(mb, b, a) is Some,
    ensures
        walk(m0, b, a) is Some || aliases_earlier(m1, b, a, offset, n),
{
    reveal(dm_frame);
    if !(walk(mb, b, a) == walk(m0, b, a)) {
        assert(aliases_earlier(mb, b, a, offset, n));
        let j = choose|j: int|
            0 <= j < n && pt_slot(mb, b, a) is Some && #[trigger] pt_slot(mb, b, (offset + j * 4096) as usize)
                == pt_slot(mb, b, a);
        lemma_pt_slot_kept(mb, m1, lvb, b, av, a);
        lemma_pt_slot_kept(mb, m1, lvb, b, av, (offset + j * 4096) as usize);
        assert(pt_slot(m1, b, (offset + j * 4096) as usize) == pt_slot(m1, b, a));
    }
}


/// Each of the `n` pages from `top` is unmapped, and no link on the way to
/// it references the null address.
pub open spec fn pages_clear(mem: PhysMem, b: usize, top: usize, n: int) -> bool {
    forall|i: int|
        0 <= i < n ==> #[trigger] walk(mem, b, (top + i * 4096) as usize) is None && !path_null(
            mem,
            b,
            (top + i * 4096) as usize,
        )
}

/// In a hierarchy with no shared tables, two addresses whose walks read the
/// same page-table slot agree on all four table indices.
pub proof fn lemma_slot_indices(mem: PhysMem, lv: Map<usize, int>, b: usize, av: Set<usize>, x: usize, y: usize)
    requires
        levels_ok(mem, lv, b, av),
        unshared(mem, lv),
        pt_slot(mem, b, x) is Some,
        pt_slot(mem, b, x) == pt_slot(mem, b, y),
    ensures
        pml4_index(x) == pml4_index(y),
        pdpt_index(x) == pdpt_index(y),
        pd_index(x) == pd_index(y),
        pt_index(x) == pt_index(y),
{
    lemma_index_bound(x as u64 >> 39u64);
    lemma_index_bound(x as u64 >> 30u64);
    lemma_index_bound(x as u64 >> 21u64);
    lemma_index_bound(y as u64 >> 39u64);
    lemma_index_bound(y as u64 >> 30u64);
    lemma_index_bound(y as u64 >> 21u64);
    let e4x = mem.entry(b, pml4_index(x));
    let px = addr_4k(e4x);
    let e3x = mem.entry(px, pdpt_index(x));
    let dx = addr_4k(e3x);
    let e2x = mem.entry(dx, pd_index(x));
    let e4y = mem.entry(b, pml4_index(y));
    let py = addr_4k(e4y);
    let e3y = mem.entry(py, pdpt_index(y));
    let dy = addr_4k(e3y);
    let e2y = mem.entry(dy, pd_index(y));
    assert(references_table(4, e4x) && references_table(4, e4y));
    assert(lv.contains_key(px) && lv[px] == 3);
    assert(lv.contains_key(py) && lv[py] == 3);
    assert(references_table(3, e3x) && references_table(3, e3y));
    assert(lv.contains_key(dx) && lv[dx] == 2);
    assert(lv.contains_key(dy) && lv[dy] == 2);
    assert(references_table(2, e2x) && references_table(2, e2y));
    assert(addr_4k(e2x) == addr_4k(e2y));
    assert(dx == dy && pd_index(x) == pd_index(y));
    assert(px == py && pdpt_index(x) == pdpt_index(y));
    assert(pml4_index(x) == pml4_index(y));
}

/// Two addresses fewer than 2^36 pages apart, a whole number of pages apart,
/// differ in one of their four table indices.
pub proof fn lemma_page_step_indices(x: u64, y: u64, d: u64)
    by (bit_vector)
    requires
        0 < d,
        d < 0x10_0000_0000,
        y == x + d * 4096,
    ensures
        (x >> 39u64) & 0x1ff != (y >> 39u64) & 0x1ff || (x >> 30u64) & 0x1ff != (y >> 30u64) & 0x1ff
            || (x >> 21u64) & 0x1ff != (y >> 21u64) & 0x1ff || (x >> 12u64) & 0x1ff != (y >> 12u64)
            & 0x1ff,
{
}

/// After `map_page` put page `i` of a run in place in a hierarchy with no
/// shared tables, the later pages of the run translate as before, and no
/// table has become shared.
pub proof fn lemma_later_pages_kept(
    mb: PhysMem,
    m1: PhysMem,
    lvb: Map<usize, int>,
    lv1: Map<usize, int>,
    b: usize,
    av1: Set<usize>,
    top: usize,
    i: int,
    n: int,
    leaf: u64,
)
    requires
        page_map_change(mb, m1, lvb, lv1, b, (top + i * 4096) as usize, leaf, true),
        levels_ok(m1, lv1, b, av1),
        unshared(mb, lvb),
        0 <= i < n,
        n <= 0x10_0000_0000,
        top + n * 4096 <= usize::MAX + 1,
    ensures
        unshared(m1, lv1),
        forall|j: int| i < j < n ==> #[trigger] walk(m1, b, (top + j * 4096) as usize) == walk(mb, b, (top + j * 4096) as usize),
{
    reveal(page_map_change);
    let vi = (top + i * 4096) as usize;
    assert forall|j: int| i < j < n implies #[trigger] walk(m1, b, (top + j * 4096) as usize) == walk(mb, b, (top + j * 4096) as usize) by {
        let vj = (top + j * 4096) as usize;
        assert(walk(m1, b, vj) == if pt_slot(m1, b, vj) == pt_slot(m1, b, vi) {
            Some((Mapping::Page4K(PageTableEntry(leaf)), addr_4k(leaf) | (vj & PAGE_MASK)))
        } else {
            walk(mb, b, vj)
        });
        if pt_slot(m1, b, vj) == pt_slot(m1, b, vi) {
            lemma_slot_indices(m1, lv1, b, av1, vi, vj);
            assert(vj as u64 == vi as u64 + ((j - i) as u64) * 4096);
            lemma_page_step_indices(vi as u64, vj as u64, (j - i) as u64);
        }
    }
}


/// A failed `map_page` keeps the frame of `direct_map_region`.
proof fn lemma_dm_frame_kept(
    m0: PhysMem,
    mb: PhysMem,
    m1: PhysMem,
    lvb: Map<usize, int>,
    b: usize,
    av: Set<usize>,
    offset: usize,
    n: int,
)
    requires
        dm_frame(m0, mb, b, offset, n),
        levels_ok(mb, lvb, b, av),
        present_kept(mb, m1, lvb),
        forall|x: usize| #[trigger] walk(m1, b, x) == walk(mb, b, x),
    ensures
        dm_frame(m0, m1, b, offset, n),
{
    reveal(dm_frame);
    assert forall|x: usize| #[trigger] walk(m1, b, x) == walk(m0, b, x) || aliases_earlier(m1, b, x, offset, n) by {
        if walk(mb, b, x) != walk(m0, b, x) {
            let j = choose|j: int|
                0 <= j < n && pt_slot(mb, b, x) is Some && #[trigger] pt_slot(mb, b, (offset + j * 4096) as usize)
                    == pt_slot(mb, b, x);
            lemma_pt_slot_kept(mb, m1, lvb, b, av, x);
            lemma_pt_slot_kept(mb, m1, lvb, b, av, (offset + j * 4096) as usize);
            assert(pt_slot(m1, b, (offset + j * 4096) as usize) == pt_slot(m1, b, x));
        }
    }
}

/// The frame of `direct_map_region`, spelled out for the first `n` pages and
/// for any longer run.
proof fn lemma_dm_frame_export(m0: PhysMem, m: PhysMem, b: usize, offset: usize, n: int, total: int)
    requires
        dm_frame(m0, m, b, offset, n),
        0 <= n <= total,
    ensures
        forall|x: usize| #[trigger] walk(m, b, x) == walk(m0, b, x) || aliases_earlier(m, b, x, offset, n),
        forall|x: usize| #[trigger] walk(m, b, x) == walk(m0, b, x) || aliases_earlier(m, b, x, offset, total),
{
    reveal(dm_frame);
    assert forall|x: usize| #[trigger] walk(m, b, x) == walk(m0, b, x) || aliases_earlier(m, b, x, offset, total) by {
        if walk(m, b, x) != walk(m0, b, x) {
            let j = choose|j: int|
                0 <= j < n && pt_slot(m, b, x) is Some && #[trigger] pt_slot(m, b, (offset + j * 4096) as usize)
                    == pt_slot(m, b, x);
            assert(pt_slot(m, b, (offset + j * 4096) as usize) == pt_slot(m, b, x));
        }
    }
}

/// `map_page` never makes a table shared.
pub proof fn lemma_change_unshared(
    m0: PhysMem,
    m1: PhysMem,
    lv0: Map<usize, int>,
    lv1: Map<usize, int>,
    b: usize,
    addr: usize,
    leaf: u64,
    ok: bool,
)
    requires
        page_map_change(m0, m1, lv0, lv1, b, addr, leaf, ok),
    ensures
        unshared(m0, lv0) ==> unshared(m1, lv1),
{
    reveal(page_map_change);
}


/// A failed step of a run of `map_page` calls (page `i` of `n` from `top`):
/// the run's frame, spelled out, and, with no shared tables, the pages from
/// `i` on still translate as at the start.
proof fn lemma_run_step_failed(
    m0: PhysMem,
    mb: PhysMem,
    m1: PhysMem,
    lvb: Map<usize, int>,
    lv1: Map<usize, int>,
    b: usize,
    av: Set<usize>,
    top: usize,
    i: int,
    n: int,
    leaf: u64,
    us: bool,
)
    requires
        page_map_change(mb, m1, lvb, lv1, b, (top + i * 4096) as usize, leaf, false),
        present_kept(mb, m1, lvb),
        levels_ok(mb, lvb, b, av),
        dm_frame(m0, mb, b, top, i),
        0 <= i < n,
        us ==> unshared(mb, lvb),
        us ==> run_kept(mb, m0, b, top, i, n),
    ensures
        forall|x: usize| #[trigger] walk(m1, b, x) == walk(m0, b, x) || aliases_earlier(m1, b, x, top, i),
        forall|x: usize| #[trigger] walk(m1, b, x) == walk(m0, b, x) || aliases_earlier(m1, b, x, top, n),
        forall|x: usize| #[trigger] walk(m1, b, x) == walk(mb, b, x),
        us ==> unshared(m1, lv1),
        us ==> forall|j: int|
            i <= j < n ==> #[trigger] walk(m1, b, (top + j * 4096) as usize) == walk(m0, b, (top + j * 4096) as usize),
{
    lemma_change_failed(mb, m1, lvb, lv1, b, (top + i * 4096) as usize, leaf);
    lemma_change_unshared(mb, m1, lvb, lv1, b, (top + i * 4096) as usize, leaf, false);
    lemma_dm_frame_kept(m0, mb, m1, lvb, b, av, top, i);
    lemma_dm_frame_export(m0, m1, b, top, i, n);
    if us {
        reveal(run_kept);
        assert forall|j: int| i <= j < n implies #[trigger] walk(m1, b, (top + j * 4096) as usize) == walk(
            m0,
            b,
            (top + j * 4096) as usize,
        ) by {
            assert(walk(mb, b, (top + j * 4096) as usize) == walk(m0, b, (top + j * 4096) as usize));
        }
    }
}

/// A successful step of such a run, with no shared tables: none appear, and
/// the later pages still translate as at the start.
proof fn lemma_run_step_ok(
    m0: PhysMem,
    mb: PhysMem,
    m1: PhysMem,
    lvb: Map<usize, int>,
    lv1: Map<usize, int>,
    b: usize,
    av1: Set<usize>,
    top: usize,
    i: int,
    n: int,
    leaf: u64,
)
    requires
        page_map_change(mb, m1, lvb, lv1, b, (top + i * 4096) as usize, leaf, true),
        levels_ok(m1, lv1, b, av1),
        unshared(mb, lvb),
        0 <= i < n,
        n <= 0x10_0000_0000,
        top + n * 4096 <= usize::MAX + 1,
        run_kept(mb, m0, b, top, i, n),
    ensures
        unshared(m1, lv1),
        run_kept(m1, m0, b, top, i + 1, n),
{
    reveal(run_kept);
    lemma_later_pages_kept(mb, m1, lvb, lv1, b, av1, top, i, n, leaf);
    assert forall|j: int| i + 1 <= j < n implies #[trigger] walk(m1, b, (top + j * 4096) as usize) == walk(
        m0,
        b,
        (top + j * 4096) as usize,
    ) by {
        assert(walk(mb, b, (top + j * 4096) as usize) == walk(m0, b, (top + j * 4096) as usize));
    }
}


/// The pages `from` to `n` of the run from `top` translate in `m` as in `m0`.
#[verifier::opaque]
spec fn run_kept(m: PhysMem, m0: PhysMem, b: usize, top: usize, from: int, n: int) -> bool {
    forall|j: int|
        from <= j < n ==> #[trigger] walk(m, b, (top + j * 4096) as usize) == walk(m0, b, (top + j * 4096) as usize)
}

proof fn lemma_run_kept_start(m0: PhysMem, b: usize, top: usize, n: int)
    ensures
        run_kept(m0, m0, b, top, 0, n),
{
    reveal(run_kept);
}

proof fn lemma_run_kept_at(m: PhysMem, m0: PhysMem, b: usize, top: usize, from: int, n: int, j: int)
    requires
        run_kept(m, m0, b, top, from, n),
        from <= j < n,
    ensures
        walk(m, b, (top + j * 4096) as usize) == walk(m0, b, (top + j * 4096) as usize),
{
    reveal(run_kept);
}


/// No two of the first `k` entries of the table at `d` (at `level`) link the same table.
pub open spec fn links_distinct(m: PhysMem, d: usize, k: int, level: int) -> bool {
    forall|j1: int, j2: int|
        #![trigger m.entry(d, j1), m.entry(d, j2)]
        0 <= j1 < k && 0 <= j2 < k && references_table(level, m.entry(d, j1)) && references_table(
            level,
            m.entry(d, j2),
        ) && addr_4k(m.entry(d, j1)) == addr_4k(m.entry(d, j2)) ==> j1 == j2
}

/// A hierarchy with no shared tables keeps that property while its entries do.
pub proof fn lemma_unshared_stable(m1: PhysMem, m2: PhysMem, lv: Map<usize, int>)
    requires
        unshared(m1, lv),
        forall|t: usize, i: int| lv.contains_key(t) ==> #[trigger] m2.entry(t, i) == m1.entry(t, i),
    ensures
        unshared(m2, lv),
{
    assert forall|t1: usize, i1: int, t2: usize, i2: int|
        #![trigger m2.entry(t1, i1), m2.entry(t2, i2)]
        lv.contains_key(t1) && lv.contains_key(t2) && 0 <= i1 < 512 && 0 <= i2 < 512 && references_table(
            lv[t1],
            m2.entry(t1, i1),
        ) && references_table(lv[t2], m2.entry(t2, i2)) && addr_4k(m2.entry(t1, i1)) == addr_4k(
            m2.entry(t2, i2),
        ) implies t1 == t2 && i1 == i2 by {
        assert(m2.entry(t1, i1) == m1.entry(t1, i1));
        assert(m2.entry(t2, i2) == m1.entry(t2, i2));
    }
}

/// One step of a copy loop: entry `k` of the table `d` being built now links
/// the copy `sub_c` of a subtree (or nothing new, with `sub_c` empty). The
/// tables copied so far stay unshared, below `level`, and linked from distinct entries.
pub proof fn lemma_dup_step_unshared(
    mb: PhysMem,
    m: PhysMem,
    subb: Map<usize, int>,
    sub_c: Map<usize, int>,
    d: usize,
    k: int,
    level: int,
    av: Set<usize>,
)
    requires
        unshared(mb, subb),
        forall|t: usize| #[trigger] subb.contains_key(t) ==> subb[t] <= level - 1,
        links_distinct(mb, d, k, level),
        forall|j: int|
            0 <= j < k && references_table(level, #[trigger] mb.entry(d, j)) ==> subb.contains_key(
                addr_4k(mb.entry(d, j)),
            ),
        hierarchy_ok(m, subb, av),
        hierarchy_ok(m, sub_c, av),
        unshared(m, sub_c),
        forall|t: usize| #[trigger] sub_c.contains_key(t) ==> sub_c[t] <= level - 1,
        forall|t: usize| #[trigger] subb.contains_key(t) ==> !sub_c.contains_key(t),
        !subb.contains_key(d),
        !sub_c.contains_key(d),
        forall|t: usize, i: int| subb.contains_key(t) ==> #[trigger] m.entry(t, i) == mb.entry(t, i),
        forall|j: int| j != k ==> #[trigger] m.entry(d, j) == mb.entry(d, j),
        references_table(level, m.entry(d, k)) ==> sub_c.contains_key(addr_4k(m.entry(d, k))),
        0 <= k < 512,
    ensures
        unshared(m, subb.union_prefer_right(sub_c)),
        forall|t: usize| #[trigger]
            subb.union_prefer_right(sub_c).contains_key(t) ==> subb.union_prefer_right(sub_c)[t] <= level - 1,
        links_distinct(m, d, k + 1, level),
{
    let sub = subb.union_prefer_right(sub_c);
    lemma_unshared_stable(mb, m, subb);
    assert forall|t1: usize, i1: int, t2: usize, i2: int|
        #![trigger m.entry(t1, i1), m.entry(t2, i2)]
        sub.contains_key(t1) && sub.contains_key(t2) && 0 <= i1 < 512 && 0 <= i2 < 512 && references_table(
            sub[t1],
            m.entry(t1, i1),
        ) && references_table(sub[t2], m.entry(t2, i2)) && addr_4k(m.entry(t1, i1)) == addr_4k(
            m.entry(t2, i2),
        ) implies t1 == t2 && i1 == i2 by {
        if sub_c.contains_key(t1) && sub_c.contains_key(t2) {
        } else if sub_c.contains_key(t1) {
            assert(subb.contains_key(t2));
            assert(sub_c.contains_key(addr_4k(m.entry(t1, i1))));
            assert(subb.contains_key(addr_4k(m.entry(t2, i2))));
        } else if sub_c.contains_key(t2) {
            assert(subb.contains_key(t1));
            assert(sub_c.contains_key(addr_4k(m.entry(t2, i2))));
            assert(subb.contains_key(addr_4k(m.entry(t1, i1))));
        } else {
            assert(subb.contains_key(t1) && subb.contains_key(t2));
        }
    }
    assert forall|j1: int, j2: int|
        #![trigger m.entry(d, j1), m.entry(d, j2)]
        0 <= j1 < k + 1 && 0 <= j2 < k + 1 && references_table(level, m.entry(d, j1)) && references_table(
            level,
            m.entry(d, j2),
        ) && addr_4k(m.entry(d, j1)) == addr_4k(m.entry(d, j2)) implies j1 == j2 by {
        if j1 < k && j2 < k {
            assert(m.entry(d, j1) == mb.entry(d, j1));
            assert(m.entry(d, j2) == mb.entry(d, j2));
        } else if j1 < k {
            assert(m.entry(d, j1) == mb.entry(d, j1));
            assert(subb.contains_key(addr_4k(mb.entry(d, j1))));
        } else if j2 < k {
            assert(m.entry(d, j2) == mb.entry(d, j2));
            assert(subb.contains_key(addr_4k(mb.entry(d, j2))));
        }
    }
}

/// The table `d` at `level`, whose entries link distinct tables of `sub` at
/// the level below, joins a copy with no shared tables: the result has none either.
pub proof fn lemma_dup_root_unshared(m: PhysMem, sub: Map<usize, int>, d: usize, level: int, av: Set<usize>)
    requires
        unshared(m, sub),
        hierarchy_ok(m, sub, av),
        forall|t: usize| #[trigger] sub.contains_key(t) ==> sub[t] <= level - 1,
        !sub.contains_key(d),
        links_distinct(m, d, 512, level),
        forall|j: int|
            0 <= j < 512 && references_table(level, #[trigger] m.entry(d, j)) ==> sub.contains_key(
                addr_4k(m.entry(d, j)),
            ) && sub[addr_4k(m.entry(d, j))] == level - 1,
    ensures
        unshared(m, sub.insert(d, level)),
        forall|t: usize| #[trigger] sub.insert(d, level).contains_key(t) ==> sub.insert(d, level)[t] <= level,
{
    let s2 = sub.insert(d, level);
    assert forall|t1: usize, i1: int, t2: usize, i2: int|
        #![trigger m.entry(t1, i1), m.entry(t2, i2)]
        s2.contains_key(t1) && s2.contains_key(t2) && 0 <= i1 < 512 && 0 <= i2 < 512 && references_table(
            s2[t1],
            m.entry(t1, i1),
        ) && references_table(s2[t2], m.entry(t2, i2)) && addr_4k(m.entry(t1, i1)) == addr_4k(
            m.entry(t2, i2),
        ) implies t1 == t2 && i1 == i2 by {
        if t1 == d && t2 == d {
        } else if t1 == d {
            assert(sub.contains_key(t2));
            assert(sub[addr_4k(m.entry(t2, i2))] == sub[t2] - 1);
        } else if t2 == d {
            assert(sub.contains_key(t1));
            assert(sub[addr_4k(m.entry(t1, i1))] == sub[t1] - 1);
        } else {
            assert(sub.contains_key(t1) && sub.contains_key(t2));
        }
    }
}


/// `x` and `y` agree on all four table indices: their walks read the same slots.
pub open spec fn same_indices(x: usize, y: usize) -> bool {
    &&& pml4_index(x) == pml4_index(y)
    &&& pdpt_index(x) == pdpt_index(y)
    &&& pd_index(x) == pd_index(y)
    &&& pt_index(x) == pt_index(y)
}

/// `x` has the table indices of one of the `n` pages from `top`.
pub open spec fn in_pages(x: usize, top: usize, n: int) -> bool {
    exists|j: int| 0 <= j < n && #[trigger] same_indices(x, (top + j * 4096) as usize)
}

/// With no shared tables, an address whose walk reads the slot of one of
/// the `n` pages from `top` has that page's table indices.
pub proof fn lemma_alias_in_pages(
    m: PhysMem,
    lv: Map<usize, int>,
    b: usize,
    av: Set<usize>,
    x: usize,
    top: usize,
    n: int,
)
    requires
        levels_ok(m, lv, b, av),
        unshared(m, lv),
        aliases_earlier(m, b, x, top, n),
    ensures
        in_pages(x, top, n),
{
    let j = choose|j: int|
        0 <= j < n && pt_slot(m, b, x) is Some && #[trigger] pt_slot(m, b, (top + j * 4096) as usize) == pt_slot(
            m,
            b,
            x,
        );
    lemma_slot_indices(m, lv, b, av, x, (top + j * 4096) as usize);
    assert(same_indices(x, (top + j * 4096) as usize));
}


/// With no shared tables, an address that translates otherwise than before
/// has the table indices of one of the `n` pages from `top`.
pub proof fn lemma_frame_in_pages(
    m0: PhysMem,
    m: PhysMem,
    lv: Map<usize, int>,
    b: usize,
    av: Set<usize>,
    top: usize,
    n: int,
)
    requires
        levels_ok(m, lv, b, av),
        unshared(m, lv),
        forall|x: usize| #[trigger] walk(m, b, x) == walk(m0, b, x) || aliases_earlier(m, b, x, top, n),
    ensures
        forall|x: usize| #[trigger] walk(m, b, x) == walk(m0, b, x) || in_pages(x, top, n),
{
    assert forall|x: usize| #[trigger] walk(m, b, x) == walk(m0, b, x) || in_pages(x, top, n) by {
        if walk(m, b, x) != walk(m0, b, x) {
            lemma_alias_in_pages(m, lv, b, av, x, top, n);
        }
    }
}


/// Or-ing the low bits of an address into a frame address whose low bits
/// are clear keeps those low bits of the address and the frame above them.
pub proof fn lemma_frame_or_offset(e: u64, a: usize)
    by (bit_vector)
    ensures
        ((e & 0x000f_ffff_c000_0000) as usize | (a & 0x3fff_ffff)) % 0x4000_0000 == a % 0x4000_0000,
        ((e & 0x000f_ffff_c000_0000) as usize | (a & 0x3fff_ffff)) - ((e & 0x000f_ffff_c000_0000) as usize | (a
            & 0x3fff_ffff)) % 0x4000_0000 == (e & 0x000f_ffff_c000_0000) as usize,
        ((e & 0x000f_ffff_ffe0_0000) as usize | (a & 0x1f_ffff)) % 0x20_0000 == a % 0x20_0000,
        ((e & 0x000f_ffff_ffe0_0000) as usize | (a & 0x1f_ffff)) - ((e & 0x000f_ffff_ffe0_0000) as usize | (a
            & 0x1f_ffff)) % 0x20_0000 == (e & 0x000f_ffff_ffe0_0000) as usize,
        ((e & 0x000f_ffff_ffff_f000) as usize | (a & 0xfff)) % 0x1000 == a % 0x1000,
        ((e & 0x000f_ffff_ffff_f000) as usize | (a & 0xfff)) - ((e & 0x000f_ffff_ffff_f000) as usize | (a
            & 0xfff)) % 0x1000 == (e & 0x000f_ffff_ffff_f000) as usize,
{
}

/// What a translation found by the walk is: a 1 GiB page keeps the low 30
/// bits of the address and takes the frame of the directory-pointer entry
/// it was read from (present, page-size bit set); a 2 MiB page keeps the low
/// 21 bits and takes the frame of its directory entry; a 4 KiB page keeps
/// the low 12 bits and takes the frame of its page-table entry.
pub proof fn lemma_walk_translation(mem: PhysMem, base: usize, a: usize)
    ensures
        walk(mem, base, a) matches Some((Mapping::Page1G(h), p)) ==> {
            let e4 = mem.entry(base, pml4_index(a));
            &&& e4 & 1 != 0
            &&& h.0 == mem.entry((e4 & 0x000f_ffff_ffff_f000) as usize, pdpt_index(a))
            &&& h.0 & 1 != 0 && h.0 & 0x80 != 0
            &&& p % 0x4000_0000 == a % 0x4000_0000
            &&& p - p % 0x4000_0000 == (h.0 & 0x000f_ffff_c000_0000) as usize
        },
        walk(mem, base, a) matches Some((Mapping::Page2M(h), p)) ==> {
            let e4 = mem.entry(base, pml4_index(a));
            let e3 = mem.entry((e4 & 0x000f_ffff_ffff_f000) as usize, pdpt_index(a));
            &&& e3 & 1 != 0 && e3 & 0x80 == 0
            &&& h.0 == mem.entry((e3 & 0x000f_ffff_ffff_f000) as usize, pd_index(a))
            &&& h.0 & 1 != 0 && h.0 & 0x80 != 0
            &&& p % 0x20_0000 == a % 0x20_0000
            &&& p - p % 0x20_0000 == (h.0 & 0x000f_ffff_ffe0_0000) as usize
        },
        walk(mem, base, a) matches Some((Mapping::Page4K(e), p)) ==> {
            let e4 = mem.entry(base, pml4_index(a));
            let e3 = mem.entry((e4 & 0x000f_ffff_ffff_f000) as usize, pdpt_index(a));
            let e2 = mem.entry((e3 & 0x000f_ffff_ffff_f000) as usize, pd_index(a));
            &&& e3 & 1 != 0 && e3 & 0x80 == 0
            &&& e2 & 1 != 0 && e2 & 0x80 == 0
            &&& e.0 == mem.entry((e2 & 0x000f_ffff_ffff_f000) as usize, pt_index(a))
            &&& e.0 & 1 != 0
            &&& p % 0x1000 == a % 0x1000
            &&& p - p % 0x1000 == (e.0 & 0x000f_ffff_ffff_f000) as usize
        },
{
    let e4 = mem.entry(base, pml4_index(a));
    let e3 = mem.entry(addr_4k(e4), pdpt_index(a));
    let e2 = mem.entry(addr_4k(e3), pd_index(a));
    let e1 = mem.entry(addr_4k(e2), pt_index(a));
    lemma_frame_or_offset(e3, a);
    lemma_frame_or_offset(e2, a);
    lemma_frame_or_offset(e1, a);
}


/// The four table indices of an address are its 9-bit digits above the
/// 12-bit page offset: bits 39..48, 30..39, 21..30 and 12..21.
pub proof fn lemma_index_digits(a: usize)
    ensures
        pml4_index(a) == (a as u64 / 0x80_0000_0000) % 512,
        pdpt_index(a) == (a as u64 / 0x4000_0000) % 512,
        pd_index(a) == (a as u64 / 0x20_0000) % 512,
        pt_index(a) == (a as u64 / 0x1000) % 512,
{
    let x = a as u64;
    assert((x >> 39u64) & 0x1ff == (x / 0x80_0000_0000) % 512) by (bit_vector);
    assert((x >> 30u64) & 0x1ff == (x / 0x4000_0000) % 512) by (bit_vector);
    assert((x >> 21u64) & 0x1ff == (x / 0x20_0000) % 512) by (bit_vector);
    assert((x >> 12u64) & 0x1ff == (x / 0x1000) % 512) by (bit_vector);
}

} // verus!
