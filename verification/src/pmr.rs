//! Physical memory regions as reported by the boot loader.

use vstd::prelude::*;

verus! {

/// Type of a physical memory region, as the boot loader numbers it; a
/// number outside the known list is kept as it came.
#[allow(non_camel_case_types)]
#[derive(Clone, Copy, Debug, PartialEq, Eq, Structural)]
pub enum Kind {
    /// Normal RAM, free for the kernel (0).
    USABLE,
    /// Reserved by hardware or firmware (1).
    RESERVED,
    /// ACPI reclaimable memory (2).
    ACPI,
    /// ACPI non-volatile storage (3).
    ACPI_NVS,
    /// Memory with errors (4).
    BAD,
    /// Memory held by the boot loader (5).
    BOOTLOADER,
    /// The kernel image (6).
    KERNEL,
    /// The frame buffer (7).
    FRAMEBUF,
    /// Reserved for memory-mapped I/O (8).
    MAPRESERVED,
    /// Any other number.
    OTHER(u64),
}

/// The kind that the boot loader's number `raw` stands for.
pub open spec fn kind_of(raw: u64) -> Kind {
    if raw == 0 { Kind::USABLE }
    else if raw == 1 { Kind::RESERVED }
    else if raw == 2 { Kind::ACPI }
    else if raw == 3 { Kind::ACPI_NVS }
    else if raw == 4 { Kind::BAD }
    else if raw == 5 { Kind::BOOTLOADER }
    else if raw == 6 { Kind::KERNEL }
    else if raw == 7 { Kind::FRAMEBUF }
    else if raw == 8 { Kind::MAPRESERVED }
    else { Kind::OTHER(raw) }
}

/// The boot loader's number for a kind.
pub open spec fn kind_raw(k: Kind) -> u64 {
    match k {
        Kind::USABLE => 0,
        Kind::RESERVED => 1,
        Kind::ACPI => 2,
        Kind::ACPI_NVS => 3,
        Kind::BAD => 4,
        Kind::BOOTLOADER => 5,
        Kind::KERNEL => 6,
        Kind::FRAMEBUF => 7,
        Kind::MAPRESERVED => 8,
        Kind::OTHER(r) => r,
    }
}

impl Kind {
    /// The kind for the boot loader's number `raw`.
    pub fn from_raw(raw: u64) -> (k: Kind)
        ensures
            k == kind_of(raw),
    {
        if raw == 0 { Kind::USABLE }
        else if raw == 1 { Kind::RESERVED }
        else if raw == 2 { Kind::ACPI }
        else if raw == 3 { Kind::ACPI_NVS }
        else if raw == 4 { Kind::BAD }
        else if raw == 5 { Kind::BOOTLOADER }
        else if raw == 6 { Kind::KERNEL }
        else if raw == 7 { Kind::FRAMEBUF }
        else if raw == 8 { Kind::MAPRESERVED }
        else { Kind::OTHER(raw) }
    }

    /// The boot loader's number for this kind.
    pub fn to_raw(self) -> (r: u64)
        ensures
            r == kind_raw(self),
    {
        match self {
            Kind::USABLE => 0,
            Kind::RESERVED => 1,
            Kind::ACPI => 2,
            Kind::ACPI_NVS => 3,
            Kind::BAD => 4,
            Kind::BOOTLOADER => 5,
            Kind::KERNEL => 6,
            Kind::FRAMEBUF => 7,
            Kind::MAPRESERVED => 8,
            Kind::OTHER(r) => r,
        }
    }
}

/// A contiguous range of physical memory with one kind.
#[derive(Clone, Copy, Debug, PartialEq, Eq, Structural)]
pub struct Region {
    /// First byte of the region.
    pub base: usize,
    /// Length of the region in bytes.
    pub len: usize,
    /// What the memory is used for.
    pub kind: Kind,
}

impl Default for Region {
    fn default() -> (r: Self)
        ensures
            r == (Region { base: 0, len: 0, kind: Kind::USABLE }),
    {
        Region { base: 0, len: 0, kind: Kind::USABLE }
    }
}

/// The region at index `n` of the memory map, if there is one.
pub fn nth(map: &[Region], n: usize) -> (r: Option<Region>)
    ensures
        r == (if n < map@.len() { Some(map@[n as int]) } else { None::<Region> }),
{
    if n < map.len() {
        Some(map[n])
    } else {
        None
    }
}

/// The region at index `n` of the memory map, which must exist.
pub fn nth_unchecked(map: &[Region], n: usize) -> (r: Region)
    requires
        n < map@.len(),
    ensures
        r == map@[n as int],
{
    map[n]
}

/// Number of regions in the memory map.
pub fn len(map: &[Region]) -> (n: usize)
    ensures
        n == map@.len(),
{
    map.len()
}

/// A cursor over the regions of a memory map.
pub struct Iter {
    /// Index of the next region to hand out.
    pub next: usize,
}

/// A cursor positioned at the first region.
pub fn iter() -> (it: Iter)
    ensures
        it.next == 0,
{
    Iter { next: 0 }
}

impl Iter {
    /// The next region of `map`; at the end, `None`, and the cursor starts over.
    pub fn next_reg(&mut self, map: &[Region]) -> (r: Option<Region>)
        ensures
            old(self).next < map@.len() ==> r == Some(map@[old(self).next as int])
                && final(self).next == old(self).next + 1,
            old(self).next >= map@.len() ==> r is None && final(self).next == 0,
    {
        if self.next < map.len() {
            let e = map[self.next];
            self.next = self.next + 1;
            Some(e)
        } else {
            self.next = 0;
            None
        }
    }

    /// Same as [`Iter::next_reg`].
    pub fn next(&mut self, map: &[Region]) -> (r: Option<Region>)
        ensures
            old(self).next < map@.len() ==> r == Some(map@[old(self).next as int])
                && final(self).next == old(self).next + 1,
            old(self).next >= map@.len() ==> r is None && final(self).next == 0,
    {
        self.next_reg(map)
    }
}

} // verus!
