//! Page-table entries of x86_64 four-level paging, and their flags.

use vstd::prelude::*;
use crate::addr::Paddr;

verus! {

/// Bit of a present entry.
pub const PRESENT: u64 = 0x1;
/// Bit of a writable entry.
pub const WRITABLE: u64 = 0x2;
/// Bit of an entry reachable from user mode.
pub const USER_ACCESSIBLE: u64 = 0x4;
/// Write-through caching.
pub const WRITE_THROUGH: u64 = 0x8;
/// Caching disabled.
pub const CACHE_DISABLE: u64 = 0x10;
/// Set by the processor when the page is accessed.
pub const ACCESSED: u64 = 0x20;
/// Set by the processor when the page is written.
pub const DIRTY: u64 = 0x40;
/// The entry maps a 2 MiB or 1 GiB page instead of pointing to a table.
pub const HUGE_PAGE: u64 = 0x80;
/// Not flushed on a CR3 switch.
pub const GLOBAL: u64 = 0x100;
/// Software bit: copy on write.
pub const COPY_ON_WRITE: u64 = 0x10_0000_0000_0000;
/// Software bit: mapped from a file.
pub const FILE_MAPPED: u64 = 0x20_0000_0000_0000;
/// Software bit: swapped out.
pub const SWAPPED: u64 = 0x40_0000_0000_0000;
/// Instruction fetches are not allowed.
pub const NO_EXECUTE: u64 = 0x8000_0000_0000_0000;
/// Every defined flag bit.
pub const ALL_FLAGS: u64 = 0x8070_0000_0000_01ff;
/// The physical-address bits of an entry (bits 12 to 51).
pub const ADDRESS_MASK: u64 = 0x000f_ffff_ffff_f000;

/// A set of entry flags.
#[derive(Clone, Copy, Debug, PartialEq, Eq, Structural)]
pub struct EntryFlags(pub u64);

impl EntryFlags {
    /// The flags given by `bits`, keeping only defined bits.
    pub fn from_bits_truncate(bits: u64) -> (f: Self)
        ensures
            f.0 == bits & ALL_FLAGS,
    {
        EntryFlags(bits & ALL_FLAGS)
    }

    /// The empty set.
    pub fn empty() -> (f: Self)
        ensures
            f.0 == 0,
    {
        EntryFlags(0)
    }

    /// Every defined flag.
    pub fn all() -> (f: Self)
        ensures
            f.0 == ALL_FLAGS,
    {
        EntryFlags(ALL_FLAGS)
    }

    /// The raw bits.
    pub fn bits(self) -> (b: u64)
        ensures
            b == self.0,
    {
        self.0
    }

    /// Whether every flag of `other` is set here.
    pub fn contains(self, other: EntryFlags) -> (b: bool)
        ensures
            b == (self.0 & other.0 == other.0),
    {
        self.0 & other.0 == other.0
    }

    /// The union of both sets.
    pub fn union(self, other: EntryFlags) -> (f: Self)
        ensures
            f.0 == self.0 | other.0,
    {
        EntryFlags(self.0 | other.0)
    }

    /// The flags of this set that are not in `other`.
    pub fn difference(self, other: EntryFlags) -> (f: Self)
        ensures
            f.0 == self.0 & !other.0,
    {
        EntryFlags(self.0 & !other.0)
    }

    /// Adds the flags of `other`.
    pub fn insert(&mut self, other: EntryFlags)
        ensures
            final(self).0 == old(self).0 | other.0,
    {
        self.0 = self.0 | other.0;
    }

    /// Removes the flags of `other`.
    pub fn remove(&mut self, other: EntryFlags)
        ensures
            final(self).0 == old(self).0 & !other.0,
    {
        self.0 = self.0 & !other.0;
    }
}

/// The entry value that maps `paddr` with flag bits `flags`.
pub open spec fn entry_bits(paddr: u64, flags: u64) -> u64 {
    (paddr & ADDRESS_MASK) | flags
}

/// Whether entry value `e` is present.
pub open spec fn is_present_bits(e: u64) -> bool {
    e & PRESENT != 0
}

/// Whether entry value `e` has the huge-page bit.
pub open spec fn is_huge_bits(e: u64) -> bool {
    e & HUGE_PAGE != 0
}

/// The physical address held by entry value `e`.
pub open spec fn address_bits(e: u64) -> u64 {
    e & ADDRESS_MASK
}

/// A page-table entry.
#[derive(Clone, Copy, Debug, PartialEq, Eq, Structural)]
pub struct Entry(pub u64);

impl Entry {
    /// The entry that maps `physical_address` with `flags`; the address is
    /// cut to its page-frame bits.
    pub fn new(physical_address: Paddr, flags: EntryFlags) -> (e: Self)
        ensures
            e.0 == entry_bits(physical_address.0 as u64, flags.0),
    {
        Entry(((physical_address.0 as u64) & ADDRESS_MASK) | flags.0)
    }

    /// The empty (not present) entry.
    pub fn default() -> (e: Self)
        ensures
            e.0 == 0,
    {
        Entry(0)
    }

    /// The raw value.
    pub fn as_u64(&self) -> (r: u64)
        ensures
            r == self.0,
    {
        self.0
    }

    /// The flags of the entry.
    pub fn flags(&self) -> (f: EntryFlags)
        ensures
            f.0 == self.0 & ALL_FLAGS,
    {
        EntryFlags(self.0 & ALL_FLAGS)
    }

    /// Replaces the flags, keeping every other bit.
    pub fn set_flags(&mut self, flags: EntryFlags)
        ensures
            final(self).0 == (old(self).0 & !ALL_FLAGS) | flags.0,
    {
        self.0 = (self.0 & !ALL_FLAGS) | flags.0;
    }

    /// The physical address the entry holds.
    pub fn address(&self) -> (p: Paddr)
        ensures
            p.0 == address_bits(self.0) as usize,
    {
        Paddr((self.0 & ADDRESS_MASK) as usize)
    }

    /// Replaces the address, keeping every other bit.
    pub fn set_address(&mut self, paddr: Paddr)
        ensures
            final(self).0 == (old(self).0 & !ADDRESS_MASK) | ((paddr.0 as u64) & ADDRESS_MASK),
    {
        self.0 = (self.0 & !ADDRESS_MASK) | ((paddr.0 as u64) & ADDRESS_MASK);
    }

    /// Whether the entry is present.
    pub fn is_present(&self) -> (b: bool)
        ensures
            b == is_present_bits(self.0),
    {
        let x = self.0;
        proof { lemma_flag_bits(x); }
        self.flags().contains(EntryFlags(PRESENT))
    }

    /// Whether the entry is writable.
    pub fn is_writable(&self) -> (b: bool)
        ensures
            b == (self.0 & WRITABLE != 0),
    {
        let x = self.0;
        proof { lemma_flag_bits(x); }
        self.flags().contains(EntryFlags(WRITABLE))
    }

    /// Whether instructions may be fetched from the page.
    pub fn is_executable(&self) -> (b: bool)
        ensures
            b == (self.0 & NO_EXECUTE == 0),
    {
        let x = self.0;
        proof { lemma_flag_bits(x); }
        !self.flags().contains(EntryFlags(NO_EXECUTE))
    }
}

/// Keeping the flag bits keeps each flag.
proof fn lemma_flag_bits(x: u64) by (bit_vector)
    ensures
        ((x & ALL_FLAGS) & PRESENT == PRESENT) == (x & PRESENT != 0),
        ((x & ALL_FLAGS) & WRITABLE == WRITABLE) == (x & WRITABLE != 0),
        ((x & ALL_FLAGS) & NO_EXECUTE == NO_EXECUTE) == (x & NO_EXECUTE != 0),
        ((x & ALL_FLAGS) & HUGE_PAGE == HUGE_PAGE) == (x & HUGE_PAGE != 0),
{
}

/// Whether an entry maps a huge page (2 MiB or 1 GiB).
pub fn is_huge(entry: &Entry) -> (b: bool)
    ensures
        b == is_huge_bits(entry.0),
{
    let x = entry.0;
    proof { lemma_flag_bits(x); }
    entry.flags().contains(EntryFlags(HUGE_PAGE))
}

} // verus!
