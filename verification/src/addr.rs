//! Physical and virtual addresses, and the direct map between them.

use vstd::prelude::*;

verus! {

/// Size of a base page in bytes.
pub const PAGE_SIZE: usize = 4096;

/// A physical address.
#[derive(Clone, Copy, Debug, PartialEq, Eq, Structural)]
pub struct Paddr(pub usize);

/// A virtual address.
#[derive(Clone, Copy, Debug, PartialEq, Eq, Structural)]
pub struct Vaddr(pub usize);

impl Paddr {
    /// Wraps a raw physical address.
    pub fn from_raw(r: usize) -> (p: Self)
        ensures
            p.0 == r,
    {
        Paddr(r)
    }

    /// The raw value of the address.
    pub fn to_raw(self) -> (r: usize)
        ensures
            r == self.0,
    {
        self.0
    }

    /// The address through the higher-half direct map that starts at `hhdm`.
    pub fn to_virt(self, hhdm: usize) -> (v: Vaddr)
        requires
            self.0 + hhdm <= usize::MAX,
        ensures
            v.0 == self.0 + hhdm,
    {
        Vaddr(self.0 + hhdm)
    }
}

impl Vaddr {
    /// Wraps a raw virtual address.
    pub fn from_raw(r: usize) -> (v: Self)
        ensures
            v.0 == r,
    {
        Vaddr(r)
    }

    /// The raw value of the address.
    pub fn to_raw(self) -> (r: usize)
        ensures
            r == self.0,
    {
        self.0
    }

    /// The physical address behind a direct-map address, with the map at `hhdm`.
    pub fn to_phys(self, hhdm: usize) -> (p: Paddr)
        requires
            hhdm <= self.0,
        ensures
            p.0 == self.0 - hhdm,
    {
        Paddr(self.0 - hhdm)
    }

    /// Whether the address lies at or above the start `hhdm` of the direct map.
    pub fn is_in_hhdm(self, hhdm: usize) -> (b: bool)
        ensures
            b == (self.0 >= hhdm),
    {
        self.0 >= hhdm
    }
}

} // verus!
