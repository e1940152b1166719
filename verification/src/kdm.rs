//! The kernel's direct map of physical memory (HHDM) and the regions it covers.

use vstd::prelude::*;
use crate::addr::{Paddr, Vaddr};
use crate::bounded::{region_table_get, region_table_items, region_table_len, region_table_new, region_table_push};
use crate::pmr::{Kind, Region, kind_of, kind_raw};

verus! {

/// Whether a region of this kind is covered by the direct map.
pub open spec fn kind_is_mapped(k: Kind) -> bool {
    k == Kind::USABLE || k == Kind::KERNEL || k == Kind::BOOTLOADER || k == Kind::FRAMEBUF
        || k == Kind::ACPI || k == Kind::ACPI_NVS || k == Kind::RESERVED
}

/// A region as the table stores it.
pub open spec fn region_entry(r: Region) -> (usize, usize, u64) {
    (r.base, r.len, kind_raw(r.kind))
}

/// The direct-mapped regions taken from memory map `map`: those of a
/// mapped kind, in order, as long as the table has room (its capacity is 128).
pub open spec fn mapped_regions(map: Seq<Region>) -> Seq<(usize, usize, u64)>
    decreases map.len(),
{
    if map.len() == 0 {
        Seq::empty()
    } else {
        let prev = mapped_regions(map.drop_last());
        if kind_is_mapped(map.last().kind) && prev.len() < 128 {
            prev.push(region_entry(map.last()))
        } else {
            prev
        }
    }
}

/// The table never holds more entries than the map has regions.
proof fn lemma_mapped_regions_len(map: Seq<Region>)
    ensures
        mapped_regions(map).len() <= map.len(),
    decreases map.len(),
{
    if map.len() > 0 {
        lemma_mapped_regions_len(map.drop_last());
    }
}

/// The direct map covers the usable, kernel, bootloader, framebuffer,
/// ACPI, ACPI NVS and reserved regions: each such region among the first
/// 128 of the memory map is in the table, so every address of it lies in a
/// covered region (and `Paddr::try_to_virt` maps it at the offset).
pub proof fn lemma_covered_regions(map: Seq<Region>, j: int, p: int)
    requires
        0 <= j < map.len(),
        j < 128,
        map[j].kind == Kind::USABLE || map[j].kind == Kind::KERNEL || map[j].kind == Kind::BOOTLOADER
            || map[j].kind == Kind::FRAMEBUF || map[j].kind == Kind::ACPI || map[j].kind == Kind::ACPI_NVS
            || map[j].kind == Kind::RESERVED,
        map[j].base <= p < map[j].base + map[j].len,
    ensures
        mapped_regions(map).contains((map[j].base, map[j].len, kind_raw(map[j].kind))),
        exists|i: int| 0 <= i < mapped_regions(map).len() && entry_contains(#[trigger] mapped_regions(map)[i], p),
    decreases map.len(),
{
    let d = map.drop_last();
    let e = (map[j].base, map[j].len, kind_raw(map[j].kind));
    let w = mapped_regions(map);
    if j == map.len() - 1 {
        lemma_mapped_regions_len(d);
        assert(w == mapped_regions(d).push(e));
        assert(w[w.len() - 1] == e);
    } else {
        assert(d[j] == map[j]);
        lemma_covered_regions(d, j, p);
        let k = choose|k: int| 0 <= k < mapped_regions(d).len() && mapped_regions(d)[k] == e;
        assert(w[k] == mapped_regions(d)[k]);
    }
    let k = choose|k: int| 0 <= k < w.len() && w[k] == e;
    assert(entry_contains(w[k], p));
}

/// Whether entry `e` is a region of `map` of a kind that the direct map
/// covers (usable, kernel, bootloader, framebuffer, ACPI, ACPI NVS or
/// reserved).
pub open spec fn from_covered_kind(map: Seq<Region>, e: (usize, usize, u64)) -> bool {
    exists|j: int| 0 <= j < map.len() && e == (map[j].base, map[j].len, kind_raw(#[trigger] map[j].kind))
        && (map[j].kind == Kind::USABLE || map[j].kind == Kind::KERNEL || map[j].kind == Kind::BOOTLOADER
            || map[j].kind == Kind::FRAMEBUF || map[j].kind == Kind::ACPI || map[j].kind == Kind::ACPI_NVS
            || map[j].kind == Kind::RESERVED)
}

/// The direct map covers nothing else: the table holds at most 128
/// entries, each a region of the memory map of a covered kind.
pub proof fn lemma_covered_only(map: Seq<Region>)
    ensures
        mapped_regions(map).len() <= 128,
        forall|i: int| 0 <= i < mapped_regions(map).len() ==> #[trigger] from_covered_kind(map, mapped_regions(map)[i]),
    decreases map.len(),
{
    if map.len() > 0 {
        let d = map.drop_last();
        lemma_covered_only(d);
        let w = mapped_regions(map);
        let rest = mapped_regions(d);
        assert forall|i: int| 0 <= i < w.len() implies #[trigger] from_covered_kind(map, w[i]) by {
            if i < rest.len() {
                assert(w[i] == rest[i]);
                assert(from_covered_kind(d, rest[i]));
                let j = choose|j: int| 0 <= j < d.len() && rest[i] == (d[j].base, d[j].len, kind_raw(#[trigger] d[j].kind))
                    && (d[j].kind == Kind::USABLE || d[j].kind == Kind::KERNEL || d[j].kind == Kind::BOOTLOADER
                        || d[j].kind == Kind::FRAMEBUF || d[j].kind == Kind::ACPI || d[j].kind == Kind::ACPI_NVS
                        || d[j].kind == Kind::RESERVED);
                assert(map[j] == d[j]);
            } else {
                let j = map.len() - 1;
                assert(map[j] == map.last());
                assert(kind_raw(map[j].kind) == kind_raw(map[j].kind));
            }
        }
    }
}

/// Whether `paddr` lies in region entry `e`.
pub open spec fn entry_contains(e: (usize, usize, u64), paddr: int) -> bool {
    e.0 <= paddr < e.0 + e.1
}

/// Whether `[paddr, paddr + size)` lies in region entry `e`.
pub open spec fn entry_contains_range(e: (usize, usize, u64), paddr: int, size: int) -> bool {
    e.0 <= paddr && paddr + size <= e.0 + e.1
}

/// The direct map: its offset and the regions it covers.
pub struct Kdm {
    /// Virtual address at which physical address 0 is mapped.
    pub hhdm: usize,
    /// The covered regions, as (base, length, kind number).
    pub regions: heapless::Vec<(usize, usize, u64), 128>,
}

impl Kdm {
    /// The covered regions, in the order of the memory map.
    pub open spec fn entries(&self) -> Seq<(usize, usize, u64)> {
        region_table_items(self.regions)
    }
}

/// Builds the direct map at offset `hhdm` over the regions of `map` whose
/// kind is mapped (at most 128 of them).
pub fn init(hhdm: usize, map: &[Region]) -> (k: Kdm)
    ensures
        k.hhdm == hhdm,
        k.entries() == mapped_regions(map@),
{
    let mut regions = region_table_new();
    let mut i: usize = 0;
    while i < map.len()
        invariant
            i <= map@.len(),
            region_table_items(regions) == mapped_regions(map@.subrange(0, i as int)),
        decreases map@.len() - i,
    {
        let r = map[i];
        proof {
            assert(map@.subrange(0, i as int + 1).drop_last() == map@.subrange(0, i as int));
        }
        if r.kind == Kind::USABLE || r.kind == Kind::KERNEL || r.kind == Kind::BOOTLOADER
            || r.kind == Kind::FRAMEBUF || r.kind == Kind::ACPI || r.kind == Kind::ACPI_NVS
            || r.kind == Kind::RESERVED {
            let _ = region_table_push(&mut regions, (r.base, r.len, r.kind.to_raw()));
        }
        i = i + 1;
    }
    proof {
        assert(map@.subrange(0, map@.len() as int) == map@);
    }
    Kdm { hhdm, regions }
}

impl Kdm {
    /// The covered regions.
    pub fn regions(&self) -> (v: Vec<Region>)
        ensures
            v@.len() == self.entries().len(),
            forall|i: int| 0 <= i < v@.len() ==> #[trigger] v@[i] == (Region {
                base: self.entries()[i].0,
                len: self.entries()[i].1,
                kind: kind_of(self.entries()[i].2),
            }),
    {
        let n = region_table_len(&self.regions);
        let mut v: Vec<Region> = Vec::new();
        let mut i: usize = 0;
        while i < n
            invariant
                n == self.entries().len(),
                i <= n,
                v@.len() == i,
                forall|j: int| 0 <= j < i ==> #[trigger] v@[j] == (Region {
                    base: self.entries()[j].0,
                    len: self.entries()[j].1,
                    kind: kind_of(self.entries()[j].2),
                }),
            decreases n - i,
        {
            let e = region_table_get(&self.regions, i);
            v.push(Region { base: e.0, len: e.1, kind: Kind::from_raw(e.2) });
            i = i + 1;
        }
        v
    }

    /// Number of covered regions.
    pub fn region_count(&self) -> (n: usize)
        ensures
            n == self.entries().len(),
    {
        region_table_len(&self.regions)
    }

    /// Whether physical address `paddr` lies in a covered region.
    pub fn is_mapped(&self, paddr: usize) -> (b: bool)
        ensures
            b == exists|i: int| 0 <= i < self.entries().len()
                && entry_contains(#[trigger] self.entries()[i], paddr as int),
    {
        match self.find_region(paddr) {
            Some(_) => true,
            None => false,
        }
    }

    /// Whether `[paddr, paddr + size)` lies entirely in one covered region.
    pub fn is_range_mapped(&self, paddr: usize, size: usize) -> (b: bool)
        ensures
            b == exists|i: int| 0 <= i < self.entries().len()
                && entry_contains_range(#[trigger] self.entries()[i], paddr as int, size as int),
    {
        let n = region_table_len(&self.regions);
        let mut i: usize = 0;
        while i < n
            invariant
                n == self.entries().len(),
                i <= n,
                forall|j: int| 0 <= j < i ==> !entry_contains_range(#[trigger] self.entries()[j], paddr as int, size as int),
            decreases n - i,
        {
            let e = region_table_get(&self.regions, i);
            if paddr >= e.0 && size <= e.1 && paddr - e.0 <= e.1 - size {
                return true;
            }
            i = i + 1;
        }
        false
    }

    /// The first covered region that holds `paddr`.
    pub fn find_region(&self, paddr: usize) -> (r: Option<Region>)
        ensures
            r is None <==> !exists|i: int| 0 <= i < self.entries().len()
                && entry_contains(#[trigger] self.entries()[i], paddr as int),
            r matches Some(reg) ==> exists|i: int| 0 <= i < self.entries().len()
                && entry_contains(#[trigger] self.entries()[i], paddr as int)
                && (forall|j: int| 0 <= j < i ==> !entry_contains(#[trigger] self.entries()[j], paddr as int))
                && reg == (Region { base: self.entries()[i].0, len: self.entries()[i].1, kind: kind_of(self.entries()[i].2) }),
    {
        let n = region_table_len(&self.regions);
        let mut i: usize = 0;
        while i < n
            invariant
                n == self.entries().len(),
                i <= n,
                forall|j: int| 0 <= j < i ==> !entry_contains(#[trigger] self.entries()[j], paddr as int),
            decreases n - i,
        {
            let e = region_table_get(&self.regions, i);
            if paddr >= e.0 && paddr - e.0 < e.1 {
                return Some(Region { base: e.0, len: e.1, kind: Kind::from_raw(e.2) });
            }
            i = i + 1;
        }
        None
    }
}

impl Paddr {
    /// The direct-map address of this physical address, if it lies in a covered region.
    pub fn try_to_virt(self, kdm: &Kdm) -> (v: Option<Vaddr>)
        requires
            self.0 + kdm.hhdm <= usize::MAX,
        ensures
            v is Some <==> exists|i: int| 0 <= i < kdm.entries().len()
                && entry_contains(#[trigger] kdm.entries()[i], self.0 as int),
            v matches Some(va) ==> va.0 == self.0 + kdm.hhdm,
    {
        if kdm.is_mapped(self.0) {
            Some(self.to_virt(kdm.hhdm))
        } else {
            None
        }
    }

    /// Whether this physical address lies in a covered region.
    pub fn is_mapped(self, kdm: &Kdm) -> (b: bool)
        ensures
            b == exists|i: int| 0 <= i < kdm.entries().len()
                && entry_contains(#[trigger] kdm.entries()[i], self.0 as int),
    {
        kdm.is_mapped(self.0)
    }
}

} // verus!
