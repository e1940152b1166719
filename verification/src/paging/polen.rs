//! The policy engine above one hierarchy: maps, remaps and unmaps ranges,
//! choosing page sizes and splitting huge pages that are in the way.

use vstd::prelude::*;
use crate::addr::Paddr;
use crate::paging::entry::{ADDRESS_MASK, ALL_FLAGS, Entry, EntryFlags, HUGE_PAGE, PRESENT, address_bits, entry_bits, is_huge, is_huge_bits, is_present_bits};
use crate::paging::exco::{Exco, MASK_1G, MASK_2M, MASK_4K, pml4_huge, unmap_slot, updated_along};
use crate::paging::table::{
    PHYS_LIMIT, PtError, PtMem, is_root, lemma_path_slot, path_ent, path_ok, path_slot, pml4_index, translate,
    walk_mut_spec, walk_spec,
};
use crate::paging::walk::{blocked_1g, blocked_2m, walk_entry, walk_entry_mut};
use crate::paging::frame::{
    leaf_level, lemma_entry_address, lemma_offset_masks, lemma_same_page, unmap_level, lemma_split_no_new_mapping, lemma_unmap_no_new_mapping, no_pml4_huge, same_region,
};
use crate::paging::remap::{
    addr_kept, huge_at, huge_frames_ok, lemma_merge_keeps_small, lemma_merge_unmergeable, mergeable, leaf0_kept, lemma_block_offset, lemma_clear_huge_frames, lemma_split_unhuge, lemma_walk_same_region, lemma_mapped_small, lemma_addr_kept_trans, lemma_kept_compose, lemma_merge_step, lemma_kept_refl, lemma_rewrite_leaf, lemma_split_kept,
};
use crate::paging::run::{
    kept_outside, lemma_base_same_region, lemma_kept_grow, lemma_kept_map4k, lemma_kept_split, lemma_kept_trans,
    lemma_in_block, lemma_run_empty, lemma_run_kept, lemma_run_step_4k, lemma_run_step_huge, maps_run, run_flags, run_page,
};
use crate::pmr::{Kind, Region};

verus! {

/// Whether memory of this kind may back a mapping.
pub open spec fn mappable(k: Kind) -> bool {
    k == Kind::USABLE || k == Kind::KERNEL || k == Kind::BOOTLOADER
}

/// Whether `[start, start + size)` lies inside one mappable region of `map`.
pub open spec fn in_one_region(map: Seq<Region>, start: int, size: int) -> bool {
    exists|i: int| 0 <= i < map.len() && mappable(#[trigger] map[i].kind)
        && map[i].base <= start && start + size <= map[i].base + map[i].len
}

/// Whether `[paddr, paddr + size)` lies inside one mappable region of the
/// memory map.
pub fn is_phys_range_contiguous(map: &[Region], paddr: Paddr, size: u64) -> (b: bool)
    ensures
        b == in_one_region(map@, paddr.0 as int, size as int),
{
    let start = paddr.0;
    let mut i: usize = 0;
    while i < map.len()
        invariant
            i <= map@.len(),
            start == paddr.0,
            forall|k: int| 0 <= k < i ==> !(mappable(#[trigger] map@[k].kind)
                && map@[k].base <= start && start + size <= map@[k].base + map@[k].len),
        decreases map@.len() - i,
    {
        let r = map[i];
        let ok_kind = match r.kind {
            Kind::USABLE | Kind::KERNEL | Kind::BOOTLOADER => true,
            _ => false,
        };
        if ok_kind && start >= r.base && (start - r.base) as u64 <= r.len as u64
            && size <= (r.len - (start - r.base)) as u64 {
            proof {
                assert(mappable(map@[i as int].kind));
            }
            return true;
        }
        i = i + 1;
    }
    false
}

/// A page size.
#[derive(Clone, Copy, Debug, PartialEq, Eq, Structural)]
pub enum PageSize {
    /// 4 KiB.
    Size4K,
    /// 2 MiB.
    Size2M,
    /// 1 GiB.
    Size1G,
}

impl PageSize {
    /// The size in bytes.
    pub open spec fn spec_bytes(self) -> u64 {
        match self {
            PageSize::Size4K => 4096,
            PageSize::Size2M => 0x20_0000,
            PageSize::Size1G => 0x4000_0000,
        }
    }

    /// The size in bytes.
    pub fn bytes(self) -> (b: u64)
        ensures
            b == self.spec_bytes(),
    {
        match self {
            PageSize::Size4K => 4096,
            PageSize::Size2M => 0x20_0000,
            PageSize::Size1G => 0x4000_0000,
        }
    }
}

/// The largest page size that fits `size` bytes at `vaddr` and `paddr`:
/// both aligned to it and the physical page inside one mappable region.
pub open spec fn page_size_for(map: Seq<Region>, vaddr: u64, paddr: int, size: u64) -> PageSize {
    if size >= 0x4000_0000 && vaddr & MASK_1G == 0 && (paddr as u64) & MASK_1G == 0
        && in_one_region(map, paddr, 0x4000_0000) {
        PageSize::Size1G
    } else if size >= 0x20_0000 && vaddr & MASK_2M == 0 && (paddr as u64) & MASK_2M == 0
        && in_one_region(map, paddr, 0x20_0000) {
        PageSize::Size2M
    } else {
        PageSize::Size4K
    }
}

/// Chooses the page size for the next piece of a mapping.
pub fn select_page_size(map: &[Region], vaddr: u64, paddr: Paddr, size: u64) -> (ps: PageSize)
    ensures
        ps == page_size_for(map@, vaddr, paddr.0 as int, size),
{
    if size >= 0x4000_0000 && vaddr & MASK_1G == 0 && (paddr.0 as u64) & MASK_1G == 0
        && is_phys_range_contiguous(map, paddr, 0x4000_0000) {
        PageSize::Size1G
    } else if size >= 0x20_0000 && vaddr & MASK_2M == 0 && (paddr.0 as u64) & MASK_2M == 0
        && is_phys_range_contiguous(map, paddr, 0x20_0000) {
        PageSize::Size2M
    } else {
        PageSize::Size4K
    }
}

/// The policy engine: one hierarchy.
pub struct Polen {
    /// The hierarchy it edits.
    pub exco: Exco,
}

impl Polen {
    /// The invariant of the hierarchy.
    pub open spec fn wf(&self) -> bool {
        self.exco.wf()
    }

    /// What the hierarchy maps `v` to.
    pub open spec fn view_at(&self, v: u64) -> Option<(int, u64)> {
        self.exco.view_at(v)
    }

    /// The mapped areas, at most `cap` of them; see [`Exco::report`].
    pub fn report(&self, cap: usize) -> (r: Vec<crate::paging::space::Area>)
        requires
            self.wf(),
        ensures
            r@ == crate::paging::report::push_all(Seq::empty(), cap as int,
                crate::paging::report::tab_leaves(&self.exco.mem, self.exco.root as int, 3, 0, 512)),
    {
        self.exco.report(cap)
    }

    /// Whether `new` is the same hierarchy as `old` (edited in place).
    pub open spec fn same_space(old: &Polen, new: &Polen) -> bool {
        &&& new.wf()
        &&& new.exco.root == old.exco.root
        &&& new.exco.cr3 == old.exco.cr3
        &&& new.exco.owned == old.exco.owned
        &&& new.exco.mem.base == old.exco.mem.base
    }

    /// An engine over a new, empty hierarchy in the pool `mem`.
    pub fn new(mem: PtMem) -> (p: Polen)
        requires
            mem.wf(),
            mem.base + 4096 * (mem.len() + 1) <= PHYS_LIMIT,
        ensures
            p.wf(),
            p.exco.owned,
            p.exco.root == mem.len(),
            p.exco.cr3 == p.exco.mem.tab_addr(p.exco.root as int),
            p.exco.mem.len() == mem.len() + 1,
            forall|t: int, j: int| 0 <= t < mem.len() && 0 <= j < 512 ==> #[trigger] p.exco.mem.ent(t, j) == mem.ent(t, j),
            forall|j: int| 0 <= j < 512 ==> #[trigger] p.exco.mem.ent(p.exco.root as int, j) == 0,
            forall|v: u64| #[trigger] p.view_at(v) is None,
    {
        Polen { exco: Exco::new(mem) }
    }

    /// An engine over `exco`.
    pub fn from_exco(exco: Exco) -> (p: Polen)
        ensures
            p.exco == exco,
    {
        Polen { exco }
    }

    /// The physical address and the flags that `vaddr` is mapped to: by a
    /// 4 KiB page, else a 2 MiB page, else a 1 GiB page.
    pub fn query(&self, vaddr: u64) -> (r: Option<(Paddr, EntryFlags)>)
        requires
            self.wf(),
        ensures
            r is None <==> self.view_at(vaddr) is None,
            r matches Some(pf) ==> pf.0.0 == (self.view_at(vaddr)->Some_0.0) as usize
                && pf.1.0 == self.view_at(vaddr)->Some_0.1,
    {
        let mem = &self.exco.mem;
        let root = self.exco.root;
        if let Ok(e) = walk_entry(mem, root, vaddr, 0) {
            if e.is_present() {
                let ev: u64 = e.0;
                let a: u64 = ev & ADDRESS_MASK;
                proof { lemma_query_bounds(ev, vaddr); }
                return Some((Paddr((a + (vaddr & MASK_4K)) as usize), e.flags()));
            }
        }
        if let Ok(e) = walk_entry(mem, root, vaddr, 1) {
            if e.is_present() && is_huge(&e) {
                let ev: u64 = e.0;
                let a: u64 = ev & ADDRESS_MASK;
                proof { lemma_query_bounds(ev, vaddr); }
                return Some((Paddr((a + (vaddr & MASK_2M)) as usize), e.flags()));
            }
        }
        if let Ok(e) = walk_entry(mem, root, vaddr, 2) {
            if e.is_present() && is_huge(&e) {
                let ev: u64 = e.0;
                let a: u64 = ev & ADDRESS_MASK;
                proof { lemma_query_bounds(ev, vaddr); }
                return Some((Paddr((a + (vaddr & MASK_1G)) as usize), e.flags()));
            }
        }
        None
    }
}

/// The address bits of an entry lie below 2^52, and the offsets of an
/// address in its pages below the page sizes.
proof fn lemma_query_bounds(ev: u64, vaddr: u64)
    ensures
        ev & 0x000f_ffff_ffff_f000u64 < 0x10_0000_0000_0000,
        vaddr & 0xfffu64 <= 0xfff,
        vaddr & 0x1f_ffffu64 <= 0x1f_ffff,
        vaddr & 0x3fff_ffffu64 <= 0x3fff_ffff,
{
    assert(ev & 0x000f_ffff_ffff_f000u64 < 0x10_0000_0000_0000 && vaddr & 0xfffu64 <= 0xfff
        && vaddr & 0x1f_ffffu64 <= 0x1f_ffff && vaddr & 0x3fff_ffffu64 <= 0x3fff_ffff) by (bit_vector);
}

/// When mapping `size` bytes at `paddr` with `flags` into `p` gives each
/// address its offset from `paddr`: no PML4 entry of `p` is marked huge,
/// the physical range is page-aligned and lies below the physical limit,
/// the flags leave the address bits clear, and the range is no longer than
/// the 2^48 bytes that the four levels index.
pub open spec fn map_law_pre(p: &Polen, paddr: Paddr, size: u64, flags: EntryFlags) -> bool {
    &&& no_pml4_huge(&p.exco.mem, p.exco.root as int)
    &&& paddr.0 % 4096 == 0
    &&& paddr.0 + size <= PHYS_LIMIT
    &&& flags.0 & ADDRESS_MASK == 0
    &&& size <= 0x1_0000_0000_0000
}

/// When remapping with `new_flags` in `p` keeps every address's physical
/// address: every huge page of `p` lies below the physical limit, no PML4
/// entry is marked huge, and the flags leave the address bits clear.
pub open spec fn remap_law_pre(p: &Polen, new_flags: EntryFlags) -> bool {
    &&& huge_frames_ok(&p.exco.mem)
    &&& no_pml4_huge(&p.exco.mem, p.exco.root as int)
    &&& new_flags.0 & ADDRESS_MASK == 0
}

/// Whether `a` shares no 4 KiB page with `[vaddr, vaddr + size)`: its four
/// table indices differ from those of every address of the range.
pub open spec fn apart_from_range(a: u64, vaddr: u64, size: u64) -> bool {
    forall|b: u64| vaddr <= b < vaddr + size ==> !#[trigger] same_region(a, b, 0)
}

/// When unmapping `[vaddr, vaddr + size)` in `p` succeeds: the range is
/// page-aligned, not empty and less than 2^48 bytes long (so that no two of
/// its pages share their table slots), every address of it is mapped (by
/// pages of any size), huge pages lie on frames of their size
/// ([`huge_frames_ok`]), and the pool has room for two tables per page
/// (for the splits of the huge pages at the ends).
pub open spec fn unmap_owed(p: &Polen, vaddr: u64, size: u64) -> bool {
    &&& vaddr & MASK_4K == 0
    &&& 0 < size <= 0x1_0000_0000_0000
    &&& forall|a: u64| vaddr <= a < vaddr + size ==> #[trigger] p.view_at(a) is Some
    &&& huge_frames_ok(&p.exco.mem)
    &&& p.exco.mem.base + 4096 * (p.exco.mem.len() + 2 * (size / 4096 + 1)) <= PHYS_LIMIT
}

/// When remapping `[vaddr, vaddr + size)` in `p` succeeds: the range is
/// page-aligned and not empty, every address of it is mapped, the pool has
/// room for two tables per page (for the splits), and the conditions of
/// [`remap_law_pre`] hold.
pub open spec fn remap_owed(p: &Polen, vaddr: u64, size: u64, new_flags: EntryFlags) -> bool {
    &&& remap_law_pre(p, new_flags)
    &&& vaddr & MASK_4K == 0
    &&& size > 0
    &&& forall|a: u64| vaddr <= a < vaddr + size ==> #[trigger] p.view_at(a) is Some
    &&& p.exco.mem.base + 4096 * (p.exco.mem.len() + 2 * ((size + 4095) / 4096)) <= PHYS_LIMIT
}

/// What a 4 KiB page at `vaddr` mapped to `paddr` with `flags` translates
/// `vaddr` to.
pub open spec fn mapped_4k(paddr: u64, flags: u64, vaddr: u64) -> (int, u64) {
    let e = entry_bits(paddr, flags | PRESENT);
    (address_bits(e) + (vaddr & MASK_4K), e & ALL_FLAGS)
}

/// Whether address `a` lies in none of the 2 MiB blocks that lie whole
/// inside `[start, start + size)` (by table indices).
pub open spec fn outside_blocks(a: u64, start: u64, size: u64) -> bool {
    forall|w: u64| w as int % 0x20_0000 == 0 && start <= w && w + 0x20_0000 <= start + size ==> !#[trigger] same_region(a, w, 1)
}

/// The flags that a mapping with `f` gives its leaves, apart from the
/// huge-page bit: `f` with the present bit, as far as entries hold flags.
pub open spec fn leaf_flags(f: u64) -> u64 {
    ((f | PRESENT) & ALL_FLAGS) & !HUGE_PAGE
}

/// The flags that a mapping with `f` gives its 4 KiB leaves: `f` with the
/// present bit, as far as entries hold flags. Its huge leaves have these
/// with the huge-page bit.
pub open spec fn leaf4_flags(f: u64) -> u64 {
    (f | PRESENT) & ALL_FLAGS
}

/// The flags of an entry made by a mapping are the 4 KiB leaf flags of the
/// flags it was given (with the huge-page bit for a huge page); apart from
/// that bit they are the leaf flags.
proof fn lemma_leaf_bits(p: u64, f: u64)
    ensures
        (entry_bits(p, f | PRESENT) & ALL_FLAGS) & !HUGE_PAGE == leaf_flags(f),
        (entry_bits(p, f | PRESENT | HUGE_PAGE) & ALL_FLAGS) & !HUGE_PAGE == leaf_flags(f),
        entry_bits(p, f | PRESENT) & ALL_FLAGS == leaf4_flags(f),
        entry_bits(p, f | PRESENT | HUGE_PAGE) & ALL_FLAGS == leaf4_flags(f) | HUGE_PAGE,
        leaf4_flags(f) & !HUGE_PAGE == leaf_flags(f),
        (leaf4_flags(f) | HUGE_PAGE) & !HUGE_PAGE == leaf_flags(f),
{
    assert(((((p & 0x000f_ffff_ffff_f000u64) | (f | 1u64)) & 0x8070_0000_0000_01ffu64) & !0x80u64
            == ((f | 1u64) & 0x8070_0000_0000_01ffu64) & !0x80u64)
        && ((((p & 0x000f_ffff_ffff_f000u64) | (f | 1u64 | 0x80u64)) & 0x8070_0000_0000_01ffu64) & !0x80u64
            == ((f | 1u64) & 0x8070_0000_0000_01ffu64) & !0x80u64)
        && (((p & 0x000f_ffff_ffff_f000u64) | (f | 1u64)) & 0x8070_0000_0000_01ffu64
            == (f | 1u64) & 0x8070_0000_0000_01ffu64)
        && (((p & 0x000f_ffff_ffff_f000u64) | (f | 1u64 | 0x80u64)) & 0x8070_0000_0000_01ffu64
            == ((f | 1u64) & 0x8070_0000_0000_01ffu64) | 0x80u64)
        && ((((f | 1u64) & 0x8070_0000_0000_01ffu64) | 0x80u64) & !0x80u64
            == ((f | 1u64) & 0x8070_0000_0000_01ffu64) & !0x80u64)) by (bit_vector);
}

/// The size `size` rounded up to whole 4 KiB pages.
pub open spec fn page_round(size: u64) -> int {
    (size + 4095) - (size + 4095) % 4096
}

/// When mapping `[vaddr, vaddr + size)` to `paddr` in `p` succeeds: the
/// conditions of [`map_law_pre`] hold, the address is page-aligned and the
/// size not zero, no address of the pages that the range touches is mapped
/// yet, and the pool has room for four tables per page.
pub open spec fn map_owed(p: &Polen, vaddr: u64, paddr: Paddr, size: u64, flags: EntryFlags) -> bool {
    &&& map_law_pre(p, paddr, size, flags)
    &&& vaddr & MASK_4K == 0
    &&& size > 0
    &&& forall|a: u64| vaddr <= a < vaddr + page_round(size) ==> #[trigger] p.view_at(a) is None
    &&& p.exco.mem.base + 4096 * (p.exco.mem.len() + 4 * (page_round(size) / 4096)) <= PHYS_LIMIT
}

/// An unmapped address, in a hierarchy without huge PML4 entries, has no
/// huge page on its walk.
proof fn lemma_unmapped_unblocked(m: &PtMem, root: int, v: u64)
    requires
        no_pml4_huge(m, root),
        translate(m, root, v) is None,
    ensures
        !blocked_1g(m, root, v, 0),
        !blocked_1g(m, root, v, 1),
        !blocked_2m(m, root, v, 0),
        !huge_at(m, root, v, 2),
        !huge_at(m, root, v, 1),
{
    assert(!pml4_huge(m, root, v));
}

/// After a mapping of the aligned block at `v` on level `lvl`, the
/// addresses past the block up to `end` that were unmapped still are.
proof fn lemma_map_step(m0: &PtMem, m1: &PtMem, rt: int, v: u64, lvl: int, e: u64, end: int)
    requires
        m0.wf(),
        m1.wf(),
        is_root(m0, rt),
        0 <= lvl <= 2,
        updated_along(m0, m1, rt, v, lvl, e),
        no_pml4_huge(m0, rt),
        v as int % crate::paging::frame::region_size(lvl) == 0,
        end - v <= 0x1_0000_0000_0000,
        forall|a: u64| v <= a < end ==> #[trigger] translate(m0, rt, a) is None,
    ensures
        forall|a: u64| v + crate::paging::frame::region_size(lvl) <= a < end ==> #[trigger] translate(m1, rt, a) is None,
{
    assert forall|a: u64| v + crate::paging::frame::region_size(lvl) <= a < end implies #[trigger] translate(m1, rt, a) is None by {
        assert(translate(m0, rt, a) is None);
        crate::paging::run::lemma_apart(v, a, lvl);
        crate::paging::frame::lemma_map_keeps_unmapped(m0, m1, rt, v, lvl, e, a);
    }
}

/// A mapping of the aligned block at `v` on level `lvl`, inside
/// `[vaddr, vaddr + n)`, leaves every address that shares no page with that
/// range as it was.
proof fn lemma_map_step_apart(m0: &PtMem, m1: &PtMem, rt: int, v: u64, lvl: int, e: u64, vaddr: u64, n: u64, a: u64)
    requires
        m0.wf(),
        m1.wf(),
        is_root(m0, rt),
        0 <= lvl <= 2,
        updated_along(m0, m1, rt, v, lvl, e),
        no_pml4_huge(m0, rt),
        v as int % crate::paging::frame::region_size(lvl) == 0,
        vaddr <= v,
        v + crate::paging::frame::region_size(lvl) <= vaddr + n,
        vaddr + n <= u64::MAX,
        apart_from_range(a, vaddr, n),
    ensures
        translate(m1, rt, a) == translate(m0, rt, a),
{
    lemma_offset_masks(v);
    lemma_block_offset(a, v);
    if lvl == 0 {
        assert(!same_region(a, v, 0));
    } else if lvl == 1 {
        if same_region(a, v, 1) {
            let b = (v + (a & 0x1f_ffffu64)) as u64;
            assert(!same_region(a, b, 0));
        }
    } else {
        if same_region(a, v, 2) {
            let b = (v + (a & 0x3fff_ffffu64)) as u64;
            assert(!same_region(a, b, 0));
        }
    }
    if translate(m0, rt, a) is Some {
        crate::paging::frame::lemma_map_frame(m0, m1, rt, v, lvl, e, a);
    } else {
        crate::paging::frame::lemma_map_keeps_unmapped(m0, m1, rt, v, lvl, e, a);
    }
}

/// `x & 0xfff == 0` says that `x` is a multiple of 4096.
proof fn lemma_page_aligned(x: u64)
    ensures
        (x & 0xfffu64 == 0) <==> (x % 4096 == 0),
{
    assert((x & 0xfffu64 == 0) <==> (x % 4096 == 0)) by (bit_vector);
}

impl Polen {
    /// Maps one 4 KiB page, splitting a huge page that is in the way; gives
    /// up with `Unresolvable` when the blocking page cannot be found, and
    /// after four attempts.
    pub fn map_4k_block(&mut self, vaddr: u64, paddr: Paddr, flags: EntryFlags) -> (r: Result<(), PtError>)
        requires
            old(self).wf(),
        ensures
            Polen::same_space(old(self), final(self)),
            r is Ok ==> final(self).view_at(vaddr) == Some(mapped_4k(paddr.0 as u64, flags.0, vaddr))
                || pml4_huge(&final(self).exco.mem, final(self).exco.root as int, vaddr),
            r is Ok && no_pml4_huge(&old(self).exco.mem, old(self).exco.root as int) ==> {
                &&& no_pml4_huge(&final(self).exco.mem, final(self).exco.root as int)
                &&& leaf_level(&final(self).exco.mem, final(self).exco.root as int, vaddr) == 0
                &&& kept_outside(&old(self).exco.mem, &final(self).exco.mem, old(self).exco.root as int, vaddr)
            },
            r is Ok ==> vaddr & MASK_4K == 0,
            vaddr & MASK_4K == 0 && old(self).exco.mem.base + 4096 * (old(self).exco.mem.len() + 3) <= PHYS_LIMIT
                && !blocked_1g(&old(self).exco.mem, old(self).exco.root as int, vaddr, 0)
                && !blocked_2m(&old(self).exco.mem, old(self).exco.root as int, vaddr, 0) ==> {
                &&& r is Ok
                &&& updated_along(&old(self).exco.mem, &final(self).exco.mem, old(self).exco.root as int, vaddr, 0,
                    entry_bits(paddr.0 as u64, flags.0 | PRESENT))
                &&& final(self).exco.mem.len() <= old(self).exco.mem.len() + 3
            },
    {
        let ghost m_start = self.exco.mem;
        let ghost root0 = self.exco.root as int;
        let ghost clean = no_pml4_huge(&m_start, root0);
        let ghost owed = vaddr & MASK_4K == 0 && m_start.base + 4096 * (m_start.len() + 3) <= PHYS_LIMIT
            && !blocked_1g(&m_start, root0, vaddr, 0) && !blocked_2m(&m_start, root0, vaddr, 0);
        proof { lemma_base_same_region(vaddr); }
        let mut attempt: u8 = 0;
        loop
            invariant
                Polen::same_space(old(self), self),
                attempt <= 3,
                m_start == old(self).exco.mem,
                root0 == old(self).exco.root,
                clean == no_pml4_huge(&m_start, root0),
                same_region(vaddr & !0x1f_ffffu64, vaddr, 1),
                same_region(vaddr & !0x3fff_ffffu64, vaddr, 2),
                clean ==> no_pml4_huge(&self.exco.mem, root0) && kept_outside(&m_start, &self.exco.mem, root0, vaddr),
                attempt == 0 ==> self.exco.mem == m_start,
                owed == (vaddr & MASK_4K == 0 && m_start.base + 4096 * (m_start.len() + 3) <= PHYS_LIMIT
                    && !blocked_1g(&m_start, root0, vaddr, 0) && !blocked_2m(&m_start, root0, vaddr, 0)),
                owed ==> attempt == 0,
            decreases 3 - attempt,
        {
            let ghost m0 = self.exco.mem;
            let r = self.exco.try_map4k(vaddr, paddr, flags);
            proof {
                if clean && vaddr & MASK_4K == 0 {
                    if r is Ok {
                        lemma_kept_map4k(&m0, &self.exco.mem, root0, vaddr, entry_bits(paddr.0 as u64, flags.0 | PRESENT));
                    } else {
                        lemma_kept_grow(&m0, &self.exco.mem, root0, vaddr, 1, vaddr);
                    }
                    lemma_kept_trans(&m_start, &m0, &self.exco.mem, root0, vaddr);
                }
            }
            if r.is_ok() {
                return Ok(());
            }
            assert(!owed);
            if attempt == 3 {
                return Err(PtError::Unresolvable);
            }
            attempt = attempt + 1;
            let root = self.exco.root;
            match walk_entry_mut(&mut self.exco.mem, root, vaddr, 1, false) {
                Ok(_) => {
                    let ghost m1 = self.exco.mem;
                    self.exco.try_split2m(vaddr & !MASK_2M)?;
                    proof {
                        if clean {
                            lemma_kept_split(&m1, &self.exco.mem, root0, vaddr & !MASK_2M, 1, vaddr);
                            lemma_kept_trans(&m_start, &m1, &self.exco.mem, root0, vaddr);
                        }
                    }
                },
                Err(_) => {
                    match walk_entry_mut(&mut self.exco.mem, root, vaddr, 2, false) {
                        Ok(_) => {
                            let ghost m1 = self.exco.mem;
                            self.exco.try_split1g(vaddr & !MASK_1G)?;
                            proof {
                                if clean {
                                    lemma_kept_split(&m1, &self.exco.mem, root0, vaddr & !MASK_1G, 2, vaddr);
                                    lemma_kept_trans(&m_start, &m1, &self.exco.mem, root0, vaddr);
                                }
                            }
                        },
                        Err(_) => {
                            return Err(PtError::Unresolvable);
                        },
                    }
                },
            }
        }
    }

    /// Maps `[vaddr, vaddr + size)` to the physical range at `paddr`: a head
    /// up to the first 2 MiB boundary and a tail after the last one with
    /// 4 KiB pages, the middle with the largest page that alignment and the
    /// memory map `map` allow; huge pages in the way are split. The size is
    /// rounded up to whole pages.
    #[verifier::spinoff_prover]
    #[verifier::rlimit(100)]
    pub fn try_map(&mut self, vaddr: u64, paddr: Paddr, size: u64, flags: EntryFlags, map: &[Region]) -> (r: Result<(), PtError>)
        requires
            old(self).wf(),
            vaddr & MASK_4K == 0 && size > 0 ==> size <= u64::MAX - 4095
                && vaddr + size + 4095 + 0x20_0000 <= u64::MAX
                && paddr.0 + size + 4095 <= usize::MAX,
        ensures
            Polen::same_space(old(self), final(self)),
            vaddr & MASK_4K != 0 ==> r == Err::<(), PtError>(PtError::MisalignedVaddr) && *final(self) == *old(self),
            vaddr & MASK_4K == 0 && size == 0 ==> r == Err::<(), PtError>(PtError::ZeroSize) && *final(self) == *old(self),
            r is Ok && map_law_pre(old(self), paddr, size, flags) ==> forall|a: u64| vaddr <= a < vaddr + page_round(size)
                ==> #[trigger] final(self).view_at(a) is Some && final(self).view_at(a)->Some_0.0 == paddr.0 + (a - vaddr)
                    && final(self).view_at(a)->Some_0.1 & !HUGE_PAGE == leaf_flags(flags.0)
                    && final(self).view_at(a)->Some_0.1 == run_flags(leaf4_flags(flags.0),
                        leaf_level(&final(self).exco.mem, final(self).exco.root as int, a)),
            map_owed(old(self), vaddr, paddr, size, flags) ==> r is Ok,
            map_owed(old(self), vaddr, paddr, size, flags) ==> forall|a: u64| apart_from_range(a, vaddr, page_round(size) as u64)
                ==> #[trigger] final(self).view_at(a) == old(self).view_at(a),
    {
        if vaddr & MASK_4K != 0 {
            return Err(PtError::MisalignedVaddr);
        }
        if size == 0 {
            return Err(PtError::ZeroSize);
        }
        let ghost law = map_law_pre(old(self), paddr, size, flags);
        let ghost rt = self.exco.root as int;
        let ghost pa = paddr.0 as int;
        let s0: u64 = size;
        let asize: u64 = (s0 + 4095) & !4095u64;
        assert(asize >= s0 && asize <= s0 + 4095 && asize & 0xfffu64 == 0) by (bit_vector)
            requires asize == ((s0 + 4095) as u64) & !4095u64, s0 <= u64::MAX - 4095;
        proof {
            lemma_page_aligned(asize);
            lemma_page_aligned(vaddr);
            if law {
                assert(asize <= 0x1_0000_0000_0000);
                assert(paddr.0 + asize <= PHYS_LIMIT);
            }
        }
        let ghost end: int = vaddr + asize;
        let first_2m: u64 = (vaddr + 0x1f_ffff) & !MASK_2M;
        let head: u64 = if first_2m > vaddr {
            let hs = first_2m - vaddr;
            if hs > asize { asize } else { hs }
        } else {
            0
        };
        let last_2m: u64 = (vaddr + asize) & !MASK_2M;
        let tail: u64 = if last_2m > vaddr && last_2m < vaddr + asize {
            (vaddr + asize) - last_2m
        } else {
            0
        };
        proof {
            let v = vaddr;
            let sz = asize;
            let f = first_2m;
            let l = last_2m;
            assert(f >= v && f - v <= 0x1f_ffff && f & 0xfffu64 == 0 && l <= v + sz && l & 0xfffu64 == 0
                && (l > v ==> l >= f)) by (bit_vector)
                requires l == ((v + sz) as u64) & !0x1f_ffffu64, f == ((v + 0x1f_ffffu64) as u64) & !0x1f_ffffu64,
                    v + sz + 0x1f_ffffu64 <= u64::MAX;
            lemma_page_aligned(f);
            lemma_page_aligned(l);
            lemma_run_empty(&self.exco.mem, rt, vaddr, pa, leaf4_flags(flags.0));
        }
        let middle: u64 = asize - head - tail;
        let ghost owed = map_owed(old(self), vaddr, paddr, size, flags);
        let ghost len0 = self.exco.mem.len();
        let ghost npages: int = (asize / 4096) as int;
        let ghost mut i: int = 0;
        proof {
            lemma_offset_masks((s0 + 4095) as u64);
            assert(asize == page_round(size));
            if owed {
                assert forall|a: u64| vaddr <= a < vaddr + asize implies #[trigger] translate(&self.exco.mem, rt, a) is None by {
                    assert(old(self).view_at(a) is None);
                }
                assert(4 * (page_round(size) / 4096) == 4 * npages);
            }
        }
        let mut cur_v: u64 = vaddr;
        let mut cur_p: usize = paddr.0;
        let mut rem: u64 = head;
        while rem > 0
            invariant
                Polen::same_space(old(self), self),
                rem % 4096 == 0,
                cur_v + rem + middle + tail == vaddr + asize,
                cur_p + rem + middle + tail <= usize::MAX,
                vaddr + asize + 0x20_0000 <= u64::MAX,
                vaddr & MASK_4K == 0,
                size > 0,
                vaddr <= cur_v,
                cur_v % 4096 == 0,
                cur_p == paddr.0 + (cur_v - vaddr),
                end == vaddr + asize,
                rt == old(self).exco.root,
                pa == paddr.0,
                law == map_law_pre(old(self), paddr, size, flags),
                law ==> asize <= 0x1_0000_0000_0000 && paddr.0 + asize <= PHYS_LIMIT && paddr.0 % 4096 == 0
                    && flags.0 & ADDRESS_MASK == 0,
                law ==> no_pml4_huge(&self.exco.mem, rt) && maps_run(&self.exco.mem, rt, vaddr, pa, leaf4_flags(flags.0), cur_v as int),
                law ==> cur_p % 4096 == 0,
                owed == map_owed(old(self), vaddr, paddr, size, flags),
                owed ==> law,
                len0 == old(self).exco.mem.len(),
                npages == asize / 4096,
                asize % 4096 == 0,
                cur_v == vaddr + 4096 * i,
                0 <= i,
                owed ==> self.exco.mem.len() <= len0 + 3 * i,
                owed ==> self.exco.mem.base + 4096 * (len0 + 4 * npages) <= PHYS_LIMIT,
                owed ==> forall|a: u64| cur_v <= a < vaddr + asize ==> #[trigger] translate(&self.exco.mem, rt, a) is None,
                owed ==> forall|a: u64| apart_from_range(a, vaddr, asize)
                    ==> #[trigger] translate(&self.exco.mem, rt, a) == translate(&old(self).exco.mem, rt, a),
            decreases rem,
        {
            let ghost m0 = self.exco.mem;
            proof {
                if owed {
                    self.lemma_step_room(len0, npages, i, cur_v, vaddr, asize, 1);
                    lemma_unmapped_unblocked(&m0, rt, cur_v);
                    lemma_page_aligned(cur_v);
                }
            }
            self.map_4k_block(cur_v, Paddr(cur_p), flags)?;
            proof {
                if law {
                    self.lemma_after_4k(&m0, vaddr, pa, cur_v, cur_p as u64, flags.0, end);
                }
                if owed {
                    lemma_map_step(&m0, &self.exco.mem, rt, cur_v, 0, entry_bits(cur_p as u64, flags.0 | PRESENT), vaddr + asize);
                    assert forall|a: u64| apart_from_range(a, vaddr, asize) implies #[trigger] translate(&self.exco.mem, rt, a) == translate(&old(self).exco.mem, rt, a) by {
                        lemma_map_step_apart(&m0, &self.exco.mem, rt, cur_v, 0, entry_bits(cur_p as u64, flags.0 | PRESENT), vaddr, asize, a);
                    }
                }
                i = i + 1;
            }
            cur_v = cur_v + 4096;
            cur_p = cur_p + 4096;
            rem = rem - 4096;
        }
        rem = middle;
        while rem > 0
            invariant
                Polen::same_space(old(self), self),
                rem % 4096 == 0,
                cur_v + rem + tail == vaddr + asize,
                cur_p + rem + tail <= usize::MAX,
                vaddr + asize + 0x20_0000 <= u64::MAX,
                vaddr & MASK_4K == 0,
                size > 0,
                vaddr <= cur_v,
                cur_v % 4096 == 0,
                cur_p == paddr.0 + (cur_v - vaddr),
                end == vaddr + asize,
                rt == old(self).exco.root,
                pa == paddr.0,
                law == map_law_pre(old(self), paddr, size, flags),
                law ==> asize <= 0x1_0000_0000_0000 && paddr.0 + asize <= PHYS_LIMIT && paddr.0 % 4096 == 0
                    && flags.0 & ADDRESS_MASK == 0,
                law ==> no_pml4_huge(&self.exco.mem, rt) && maps_run(&self.exco.mem, rt, vaddr, pa, leaf4_flags(flags.0), cur_v as int),
                law ==> cur_p % 4096 == 0,
                owed == map_owed(old(self), vaddr, paddr, size, flags),
                owed ==> law,
                len0 == old(self).exco.mem.len(),
                npages == asize / 4096,
                asize % 4096 == 0,
                cur_v == vaddr + 4096 * i,
                0 <= i,
                owed ==> self.exco.mem.len() <= len0 + 3 * i,
                owed ==> self.exco.mem.base + 4096 * (len0 + 4 * npages) <= PHYS_LIMIT,
                owed ==> forall|a: u64| cur_v <= a < vaddr + asize ==> #[trigger] translate(&self.exco.mem, rt, a) is None,
                owed ==> forall|a: u64| apart_from_range(a, vaddr, asize)
                    ==> #[trigger] translate(&self.exco.mem, rt, a) == translate(&old(self).exco.mem, rt, a),
            decreases rem,
        {
            let ps = select_page_size(map, cur_v, Paddr(cur_p), rem);
            let root = self.exco.root;
            match ps {
                PageSize::Size1G => {
                    let ghost m0 = self.exco.mem;
                    proof {
                        if owed {
                            self.lemma_step_room(len0, npages, i, cur_v, vaddr, asize, 0x4_0000);
                            lemma_unmapped_unblocked(&m0, rt, cur_v);
                        }
                    }
                    self.place_huge(cur_v, cur_p, flags, true, Ghost(vaddr), Ghost(pa), Ghost(end), Ghost(law))?;
                    proof {
                        if owed {
                            lemma_offset_masks(cur_v);
                            lemma_map_step(&m0, &self.exco.mem, rt, cur_v, 2, entry_bits(cur_p as u64, flags.0 | PRESENT | HUGE_PAGE), vaddr + asize);
                            assert forall|a: u64| apart_from_range(a, vaddr, asize) implies #[trigger] translate(&self.exco.mem, rt, a) == translate(&old(self).exco.mem, rt, a) by {
                                lemma_map_step_apart(&m0, &self.exco.mem, rt, cur_v, 2, entry_bits(cur_p as u64, flags.0 | PRESENT | HUGE_PAGE), vaddr, asize, a);
                            }
                        }
                        i = i + 0x4_0000;
                    }
                    cur_v = cur_v + 0x4000_0000;
                    cur_p = cur_p + 0x4000_0000;
                    rem = rem - 0x4000_0000;
                },
                PageSize::Size2M => {
                    let ghost m0 = self.exco.mem;
                    proof {
                        if owed {
                            self.lemma_step_room(len0, npages, i, cur_v, vaddr, asize, 0x200);
                            lemma_unmapped_unblocked(&m0, rt, cur_v);
                        }
                    }
                    self.place_huge(cur_v, cur_p, flags, false, Ghost(vaddr), Ghost(pa), Ghost(end), Ghost(law))?;
                    proof {
                        if owed {
                            lemma_offset_masks(cur_v);
                            lemma_map_step(&m0, &self.exco.mem, rt, cur_v, 1, entry_bits(cur_p as u64, flags.0 | PRESENT | HUGE_PAGE), vaddr + asize);
                            assert forall|a: u64| apart_from_range(a, vaddr, asize) implies #[trigger] translate(&self.exco.mem, rt, a) == translate(&old(self).exco.mem, rt, a) by {
                                lemma_map_step_apart(&m0, &self.exco.mem, rt, cur_v, 1, entry_bits(cur_p as u64, flags.0 | PRESENT | HUGE_PAGE), vaddr, asize, a);
                            }
                        }
                        i = i + 0x200;
                    }
                    cur_v = cur_v + 0x20_0000;
                    cur_p = cur_p + 0x20_0000;
                    rem = rem - 0x20_0000;
                },
                PageSize::Size4K => {
                    let ghost m0 = self.exco.mem;
                    proof {
                        if owed {
                            self.lemma_step_room(len0, npages, i, cur_v, vaddr, asize, 1);
                            lemma_unmapped_unblocked(&m0, rt, cur_v);
                            lemma_page_aligned(cur_v);
                        }
                    }
                    self.map_4k_block(cur_v, Paddr(cur_p), flags)?;
                    proof {
                        if law {
                            self.lemma_after_4k(&m0, vaddr, pa, cur_v, cur_p as u64, flags.0, end);
                        }
                        if owed {
                            lemma_map_step(&m0, &self.exco.mem, rt, cur_v, 0, entry_bits(cur_p as u64, flags.0 | PRESENT), vaddr + asize);
                            assert forall|a: u64| apart_from_range(a, vaddr, asize) implies #[trigger] translate(&self.exco.mem, rt, a) == translate(&old(self).exco.mem, rt, a) by {
                                lemma_map_step_apart(&m0, &self.exco.mem, rt, cur_v, 0, entry_bits(cur_p as u64, flags.0 | PRESENT), vaddr, asize, a);
                            }
                        }
                        i = i + 1;
                    }
                    cur_v = cur_v + 4096;
                    cur_p = cur_p + 4096;
                    rem = rem - 4096;
                },
            }
        }
        rem = tail;
        while rem > 0
            invariant
                Polen::same_space(old(self), self),
                rem % 4096 == 0,
                cur_v + rem == vaddr + asize,
                cur_p + rem <= usize::MAX,
                vaddr + asize + 0x20_0000 <= u64::MAX,
                vaddr & MASK_4K == 0,
                size > 0,
                vaddr <= cur_v,
                cur_v % 4096 == 0,
                cur_p == paddr.0 + (cur_v - vaddr),
                end == vaddr + asize,
                rt == old(self).exco.root,
                pa == paddr.0,
                law == map_law_pre(old(self), paddr, size, flags),
                law ==> asize <= 0x1_0000_0000_0000 && paddr.0 + asize <= PHYS_LIMIT && paddr.0 % 4096 == 0
                    && flags.0 & ADDRESS_MASK == 0,
                law ==> no_pml4_huge(&self.exco.mem, rt) && maps_run(&self.exco.mem, rt, vaddr, pa, leaf4_flags(flags.0), cur_v as int),
                law ==> cur_p % 4096 == 0,
                owed == map_owed(old(self), vaddr, paddr, size, flags),
                owed ==> law,
                len0 == old(self).exco.mem.len(),
                npages == asize / 4096,
                asize % 4096 == 0,
                cur_v == vaddr + 4096 * i,
                0 <= i,
                owed ==> self.exco.mem.len() <= len0 + 3 * i,
                owed ==> self.exco.mem.base + 4096 * (len0 + 4 * npages) <= PHYS_LIMIT,
                owed ==> forall|a: u64| cur_v <= a < vaddr + asize ==> #[trigger] translate(&self.exco.mem, rt, a) is None,
                owed ==> forall|a: u64| apart_from_range(a, vaddr, asize)
                    ==> #[trigger] translate(&self.exco.mem, rt, a) == translate(&old(self).exco.mem, rt, a),
            decreases rem,
        {
            let ghost m0 = self.exco.mem;
            proof {
                if owed {
                    self.lemma_step_room(len0, npages, i, cur_v, vaddr, asize, 1);
                    lemma_unmapped_unblocked(&m0, rt, cur_v);
                    lemma_page_aligned(cur_v);
                }
            }
            self.map_4k_block(cur_v, Paddr(cur_p), flags)?;
            proof {
                if law {
                    self.lemma_after_4k(&m0, vaddr, pa, cur_v, cur_p as u64, flags.0, end);
                }
                if owed {
                    lemma_map_step(&m0, &self.exco.mem, rt, cur_v, 0, entry_bits(cur_p as u64, flags.0 | PRESENT), vaddr + asize);
                    assert forall|a: u64| apart_from_range(a, vaddr, asize) implies #[trigger] translate(&self.exco.mem, rt, a) == translate(&old(self).exco.mem, rt, a) by {
                        lemma_map_step_apart(&m0, &self.exco.mem, rt, cur_v, 0, entry_bits(cur_p as u64, flags.0 | PRESENT), vaddr, asize, a);
                    }
                }
                i = i + 1;
            }
            cur_v = cur_v + 4096;
            cur_p = cur_p + 4096;
            rem = rem - 4096;
        }
        proof {
            if owed {
                assert forall|a: u64| apart_from_range(a, vaddr, page_round(size) as u64) implies #[trigger] self.view_at(a) == old(self).view_at(a) by {
                    assert(translate(&self.exco.mem, rt, a) == translate(&old(self).exco.mem, rt, a));
                }
            }
            if law {
                assert forall|a: u64| vaddr <= a < vaddr + page_round(size) implies #[trigger] self.view_at(a) is Some
                    && self.view_at(a)->Some_0.0 == paddr.0 + (a - vaddr)
                    && self.view_at(a)->Some_0.1 & !HUGE_PAGE == leaf_flags(flags.0)
                    && self.view_at(a)->Some_0.1 == run_flags(leaf4_flags(flags.0), leaf_level(&self.exco.mem, rt, a)) by {
                    assert(run_page(&self.exco.mem, rt, vaddr, pa, leaf4_flags(flags.0), cur_v as int, a));
                    lemma_leaf_bits(0, flags.0);
                }
            }
        }
        Ok(())
    }

    /// Maps the 1 GiB (`big`) or 2 MiB page at `v` to `p`, splitting a huge
    /// page of that size that is in the way. Where the run from `vaddr`
    /// ends at `v`, it then ends past the page.
    fn place_huge(&mut self, v: u64, p: usize, flags: EntryFlags, big: bool, Ghost(vaddr): Ghost<u64>, Ghost(pa): Ghost<int>,
        Ghost(end): Ghost<int>, Ghost(law): Ghost<bool>) -> (r: Result<(), PtError>)
        requires
            old(self).wf(),
            law ==> {
                let s = if big { 0x4000_0000int } else { 0x20_0000int };
                &&& no_pml4_huge(&old(self).exco.mem, old(self).exco.root as int)
                &&& maps_run(&old(self).exco.mem, old(self).exco.root as int, vaddr, pa, leaf4_flags(flags.0), v as int)
                &&& vaddr <= v
                &&& v + s <= end
                &&& end - vaddr <= 0x1_0000_0000_0000
                &&& end <= u64::MAX
                &&& p == pa + (v - vaddr)
                &&& p % 4096 == 0
                &&& p + s <= PHYS_LIMIT
                &&& flags.0 & ADDRESS_MASK == 0
            },
        ensures
            Polen::same_space(old(self), final(self)),
            law && r is Ok ==> no_pml4_huge(&final(self).exco.mem, final(self).exco.root as int)
                && maps_run(&final(self).exco.mem, final(self).exco.root as int, vaddr, pa, leaf4_flags(flags.0),
                    v + if big { 0x4000_0000int } else { 0x20_0000int }),
            r is Ok ==> (big ==> v & MASK_1G == 0) && (!big ==> v & MASK_2M == 0),
            (big ==> v & MASK_1G == 0 && (p as u64) & MASK_1G == 0)
                && (!big ==> v & MASK_2M == 0 && (p as u64) & MASK_2M == 0
                    && !blocked_1g(&old(self).exco.mem, old(self).exco.root as int, v, 1))
                && old(self).exco.mem.base + 4096 * (old(self).exco.mem.len() + 4) <= PHYS_LIMIT ==> r is Ok,
            (big ==> v & MASK_1G == 0 && (p as u64) & MASK_1G == 0)
                && (!big ==> v & MASK_2M == 0 && (p as u64) & MASK_2M == 0
                    && !blocked_1g(&old(self).exco.mem, old(self).exco.root as int, v, 1))
                && !huge_at(&old(self).exco.mem, old(self).exco.root as int, v, if big { 2int } else { 1int })
                && old(self).exco.mem.base + 4096 * (old(self).exco.mem.len() + 4) <= PHYS_LIMIT ==> {
                &&& updated_along(&old(self).exco.mem, &final(self).exco.mem, old(self).exco.root as int, v,
                    if big { 2int } else { 1int }, entry_bits(p as u64, flags.0 | PRESENT | HUGE_PAGE))
                &&& final(self).exco.mem.len() <= old(self).exco.mem.len() + 3
            },
    {
        let root = self.exco.root;
        let ghost rt = root as int;
        let ghost m1 = self.exco.mem;
        let ghost owed = (big ==> v & MASK_1G == 0 && (p as u64) & MASK_1G == 0)
            && (!big ==> v & MASK_2M == 0 && (p as u64) & MASK_2M == 0 && !blocked_1g(&m1, rt, v, 1))
            && m1.base + 4096 * (m1.len() + 4) <= PHYS_LIMIT;
        if big {
            if let Ok((t, j)) = walk_entry_mut(&mut self.exco.mem, root, v, 2, false) {
                let e = self.exco.mem.read(t, j);
                if e.is_present() && is_huge(&e) {
                    self.exco.try_split1g(v)?;
                    proof {
                        if law {
                            lemma_kept_split(&m1, &self.exco.mem, rt, v, 2, v);
                            lemma_run_kept(&m1, &self.exco.mem, rt, vaddr, pa, leaf4_flags(flags.0), v as int, v);
                        }
                    }
                }
            }
            let ghost m2 = self.exco.mem;
            self.exco.try_map1g(v, Paddr(p), flags)?;
            proof {
                if law {
                    lemma_offset_masks(v);
                    lemma_entry_address(p as u64, flags.0);
                    lemma_leaf_bits(p as u64, flags.0);
                    assert(!pml4_huge(&m2, rt, v));
                    lemma_run_step_huge(&m2, &self.exco.mem, rt, vaddr, pa, leaf4_flags(flags.0), v, 2,
                        entry_bits(p as u64, flags.0 | PRESENT | HUGE_PAGE), end);
                }
            }
        } else {
            if let Ok((t, j)) = walk_entry_mut(&mut self.exco.mem, root, v, 1, false) {
                let e = self.exco.mem.read(t, j);
                if e.is_present() && is_huge(&e) {
                    self.exco.try_split2m(v)?;
                    proof {
                        if law {
                            lemma_kept_split(&m1, &self.exco.mem, rt, v, 1, v);
                            lemma_run_kept(&m1, &self.exco.mem, rt, vaddr, pa, leaf4_flags(flags.0), v as int, v);
                        }
                    }
                }
            }
            let ghost m2 = self.exco.mem;
            proof {
                if owed && m2 != m1 {
                    lemma_split_unhuge(&m1, &m2, rt, v, 1, v);
                }
            }
            self.exco.try_map2m(v, Paddr(p), flags)?;
            proof {
                if law {
                    lemma_offset_masks(v);
                    lemma_entry_address(p as u64, flags.0);
                    lemma_leaf_bits(p as u64, flags.0);
                    assert(!pml4_huge(&m2, rt, v));
                    lemma_run_step_huge(&m2, &self.exco.mem, rt, vaddr, pa, leaf4_flags(flags.0), v, 1,
                        entry_bits(p as u64, flags.0 | PRESENT | HUGE_PAGE), end);
                }
            }
        }
        Ok(())
    }

    /// Room for one more step of a mapping of `npages` pages of which `i`
    /// are done, `n` pages long, when each step takes at most three tables.
    proof fn lemma_step_room(&self, len0: int, npages: int, i: int, cur_v: u64, vaddr: u64, asize: u64, n: int)
        requires
            n >= 1,
            0 <= i,
            asize % 4096 == 0,
            npages == asize / 4096,
            cur_v == vaddr + 4096 * i,
            cur_v + 4096 * n <= vaddr + asize,
            self.exco.mem.len() <= len0 + 3 * i,
            self.exco.mem.base + 4096 * (len0 + 4 * npages) <= PHYS_LIMIT,
        ensures
            i + n <= npages,
            self.exco.mem.base + 4096 * (self.exco.mem.len() + 4) <= PHYS_LIMIT,
    {
        assert(i + n <= npages) by (nonlinear_arith)
            requires cur_v == vaddr + 4096 * i, cur_v + 4096 * n <= vaddr + asize, asize % 4096 == 0, npages == asize / 4096;
        assert(self.exco.mem.len() + 4 <= len0 + 4 * npages) by (nonlinear_arith)
            requires self.exco.mem.len() <= len0 + 3 * i, i + n <= npages, n >= 1, i >= 0;
        assert(4096 * (self.exco.mem.len() + 4) <= 4096 * (len0 + 4 * npages)) by (nonlinear_arith)
            requires self.exco.mem.len() + 4 <= len0 + 4 * npages;
    }

    /// After a 4 KiB page at `b`, the end of the run, was mapped to
    /// `paddr` plus its offset, the run reaches past the page.
    proof fn lemma_after_4k(&self, old: &PtMem, vaddr: u64, paddr: int, b: u64, p: u64, flags: u64, end: int)
        requires
            self.wf(),
            no_pml4_huge(old, self.exco.root as int),
            maps_run(old, self.exco.root as int, vaddr, paddr, leaf4_flags(flags), b as int),
            no_pml4_huge(&self.exco.mem, self.exco.root as int),
            leaf_level(&self.exco.mem, self.exco.root as int, b) == 0,
            kept_outside(old, &self.exco.mem, self.exco.root as int, b),
            self.view_at(b) == Some(mapped_4k(p, flags, b)) || pml4_huge(&self.exco.mem, self.exco.root as int, b),
            vaddr <= b,
            b as int % 4096 == 0,
            b + 4096 <= end,
            end - vaddr <= 0x1_0000_0000_0000,
            end <= u64::MAX,
            p == paddr + (b - vaddr),
            p % 4096 == 0,
            p + 4096 <= PHYS_LIMIT,
            flags & ADDRESS_MASK == 0,
        ensures
            maps_run(&self.exco.mem, self.exco.root as int, vaddr, paddr, leaf4_flags(flags), b + 4096),
    {
        lemma_entry_address(p, flags);
        lemma_offset_masks(b);
        assert(!pml4_huge(&self.exco.mem, self.exco.root as int, b));
        lemma_leaf_bits(p, flags);
        lemma_run_step_4k(old, &self.exco.mem, self.exco.root as int, vaddr, paddr, leaf4_flags(flags), b, end);
    }
}

impl Polen {
    /// Maps `[vaddr, vaddr + size)` to the physical range at `paddr`; see
    /// [`Polen::try_map`]. The address must be page-aligned and the size
    /// not zero. A failure of the mapping is not reported: the hierarchy
    /// stays as the attempt left it.
    pub fn map(&mut self, vaddr: u64, paddr: Paddr, size: u64, flags: EntryFlags, map: &[Region])
        requires
            old(self).wf(),
            vaddr & MASK_4K == 0,
            size > 0,
            size <= u64::MAX - 4095,
            vaddr + size + 4095 + 0x20_0000 <= u64::MAX,
            paddr.0 + size + 4095 <= usize::MAX,
        ensures
            Polen::same_space(old(self), final(self)),
            map_owed(old(self), vaddr, paddr, size, flags) ==> forall|a: u64| vaddr <= a < vaddr + page_round(size)
                ==> #[trigger] final(self).view_at(a) is Some && final(self).view_at(a)->Some_0.0 == paddr.0 + (a - vaddr)
                    && final(self).view_at(a)->Some_0.1 & !HUGE_PAGE == leaf_flags(flags.0)
                    && final(self).view_at(a)->Some_0.1 == run_flags(leaf4_flags(flags.0),
                        leaf_level(&final(self).exco.mem, final(self).exco.root as int, a)),
            map_owed(old(self), vaddr, paddr, size, flags) ==> forall|a: u64| apart_from_range(a, vaddr, page_round(size) as u64)
                ==> #[trigger] final(self).view_at(a) == old(self).view_at(a),
    {
        let _ = self.try_map(vaddr, paddr, size, flags, map);
    }

    /// Splits the huge pages that hold `v` down to a 4 KiB page when
    /// `split_1g` and `split_2m` ask for it.
    fn split_down(&mut self, v: u64, size: u64, whole: bool) -> (r: Result<(), PtError>)
        requires
            old(self).wf(),
        ensures
            Polen::same_space(old(self), final(self)),
            forall|x: u64| #[trigger] old(self).view_at(x) is None ==> final(self).view_at(x) is None,
            huge_frames_ok(&old(self).exco.mem) ==> huge_frames_ok(&final(self).exco.mem)
                && addr_kept(&old(self).exco.mem, &final(self).exco.mem, old(self).exco.root as int)
                && leaf0_kept(&old(self).exco.mem, &final(self).exco.mem, old(self).exco.root as int),
            no_pml4_huge(&old(self).exco.mem, old(self).exco.root as int) ==> no_pml4_huge(&final(self).exco.mem, old(self).exco.root as int),
            r is Ok && huge_at(&final(self).exco.mem, final(self).exco.root as int, v, 2) ==> whole && v & MASK_1G == 0
                && size >= 0x4000_0000,
            r is Ok && huge_at(&final(self).exco.mem, final(self).exco.root as int, v, 1) ==> whole && v & MASK_2M == 0
                && size >= 0x20_0000,
            final(self).exco.mem.len() <= old(self).exco.mem.len() + 2,
            old(self).exco.mem.base + 4096 * (old(self).exco.mem.len() + 2) <= PHYS_LIMIT ==> r is Ok,
            !huge_at(&old(self).exco.mem, old(self).exco.root as int, v, 2)
                && !huge_at(&old(self).exco.mem, old(self).exco.root as int, v, 1) ==> r is Ok && *final(self) == *old(self),
    {
        let root = self.exco.root;
        let ghost m_in = self.exco.mem;
        proof {
            lemma_kept_refl(&m_in, root as int);
            lemma_base_same_region(v);
            lemma_offset_masks(v);
        }
        if let Ok((t, j)) = walk_entry_mut(&mut self.exco.mem, root, v, 2, false) {
            let e = self.exco.mem.read(t, j);
            if e.is_present() && is_huge(&e) {
                let base = v & !MASK_1G;
                if !whole || base != v || size < 0x4000_0000 {
                    let ghost m0 = self.exco.mem;
                    proof {
                        lemma_offset_masks(base);
                        lemma_walk_same_region(&m0, root as int, base, v, 2);
                    }
                    let r1 = self.exco.try_split1g(base);
                    proof {
                        if r1 is Ok {
                            lemma_split_no_new_mapping(&m0, &self.exco.mem, root as int, base, 2);
                            if huge_frames_ok(&m0) {
                                lemma_split_kept(&m0, &self.exco.mem, root as int, base, 2);
                            }
                            if no_pml4_huge(&m0, root as int) {
                                lemma_kept_split(&m0, &self.exco.mem, root as int, base, 2, base);
                            }
                            lemma_split_unhuge(&m0, &self.exco.mem, root as int, base, 2, v);
                        }
                    }
                    r1?;
                }
            }
        }
        let ghost mid = *self;
        assert(huge_frames_ok(&m_in) ==> huge_frames_ok(&self.exco.mem) && addr_kept(&m_in, &self.exco.mem, root as int)
            && leaf0_kept(&m_in, &self.exco.mem, root as int));
        assert(no_pml4_huge(&m_in, root as int) ==> no_pml4_huge(&self.exco.mem, root as int));
        assert(huge_at(&self.exco.mem, root as int, v, 2) ==> whole && v & MASK_1G == 0 && size >= 0x4000_0000);
        assert(self.exco.mem.len() <= m_in.len() + 1);
        assert(m_in.base + 4096 * (m_in.len() + 2) <= PHYS_LIMIT ==> self.exco.mem.base + 4096 * (self.exco.mem.len() + 1) <= PHYS_LIMIT);
        if let Ok((t, j)) = walk_entry_mut(&mut self.exco.mem, root, v, 1, false) {
            let e = self.exco.mem.read(t, j);
            if e.is_present() && is_huge(&e) {
                let base = v & !MASK_2M;
                if !whole || base != v || size < 0x20_0000 {
                    let ghost m0 = self.exco.mem;
                    proof {
                        lemma_offset_masks(base);
                        lemma_walk_same_region(&m0, root as int, base, v, 1);
                    }
                    let r2 = self.exco.try_split2m(base);
                    proof {
                        if r2 is Ok {
                            lemma_split_no_new_mapping(&m0, &self.exco.mem, root as int, base, 1);
                            if huge_frames_ok(&m_in) {
                                assert(m0 == mid.exco.mem);
                                lemma_split_kept(&m0, &self.exco.mem, root as int, base, 1);
                                lemma_kept_compose(&m_in, &m0, &self.exco.mem, root as int);
                            }
                            if no_pml4_huge(&m0, root as int) {
                                lemma_kept_split(&m0, &self.exco.mem, root as int, base, 1, base);
                            }
                            lemma_split_unhuge(&m0, &self.exco.mem, root as int, base, 1, v);
                        }
                    }
                    r2?;
                }
            }
        }
        Ok(())
    }

    /// Gives the 4 KiB page at `v` the flags `new_flags` (plus present),
    /// keeping its address; huge pages that hold it are split first.
    fn remap_page(&mut self, v: u64, new_flags: EntryFlags) -> (r: Result<(), PtError>)
        requires
            old(self).wf(),
        ensures
            Polen::same_space(old(self), final(self)),
            remap_law_pre(old(self), new_flags) ==> {
                let m0 = &old(self).exco.mem;
                let m1 = &final(self).exco.mem;
                let rt = old(self).exco.root as int;
                &&& huge_frames_ok(m1)
                &&& no_pml4_huge(m1, rt)
                &&& addr_kept(m0, m1, rt)
                &&& forall|a: u64| translate(m0, rt, a) is Some && leaf_level(m0, rt, a) == 0 && !same_region(a, v, 0)
                    ==> #[trigger] translate(m1, rt, a) == translate(m0, rt, a) && leaf_level(m1, rt, a) == 0
                &&& r is Ok ==> forall|a: u64| #[trigger] same_region(a, v, 0) ==> translate(m0, rt, a) is Some
                    && translate(m1, rt, a) == Some((translate(m0, rt, a)->Some_0.0, (new_flags.0 | PRESENT) & ALL_FLAGS))
                    && leaf_level(m1, rt, a) == 0
            },
            final(self).exco.mem.len() <= old(self).exco.mem.len() + 2,
            huge_frames_ok(&old(self).exco.mem) && no_pml4_huge(&old(self).exco.mem, old(self).exco.root as int)
                && old(self).view_at(v) is Some
                && old(self).exco.mem.base + 4096 * (old(self).exco.mem.len() + 2) <= PHYS_LIMIT ==> r is Ok,
    {
        let ghost m0 = self.exco.mem;
        let ghost law = remap_law_pre(old(self), new_flags);
        self.split_down(v, 0, false)?;
        let ghost mid = self.exco.mem;
        let root = self.exco.root;
        proof {
            if huge_frames_ok(&m0) && no_pml4_huge(&m0, root as int) && translate(&m0, root as int, v) is Some {
                assert(translate(&mid, root as int, v) is Some);
                lemma_mapped_small(&mid, root as int, v);
            }
        }
        let (t, j) = walk_entry_mut(&mut self.exco.mem, root, v, 0, false)?;
        let e = self.exco.mem.read(t, j);
        if !e.is_present() {
            return Err(PtError::NotMapped);
        }
        let ne = Entry((e.0 & ADDRESS_MASK) | (new_flags.0 | PRESENT));
        self.exco.mem.write(t, j, ne);
        proof {
            if law {
                assert(!pml4_huge(&mid, root as int, v));
                lemma_rewrite_leaf(&mid, &self.exco.mem, root as int, v, new_flags.0);
                lemma_addr_kept_trans(&m0, &mid, &self.exco.mem, root as int);
                assert(no_pml4_huge(&self.exco.mem, root as int)) by {
                    assert forall|a: u64| !#[trigger] pml4_huge(&self.exco.mem, root as int, a) by {
                        assert(!pml4_huge(&mid, root as int, a));
                    }
                }
                assert forall|a: u64| translate(&m0, root as int, a) is Some && leaf_level(&m0, root as int, a) == 0
                    && !same_region(a, v, 0) implies #[trigger] translate(&self.exco.mem, root as int, a) == translate(&m0, root as int, a)
                    && leaf_level(&self.exco.mem, root as int, a) == 0 by {
                    assert(translate(&mid, root as int, a) == translate(&m0, root as int, a));
                }
            }
        }
        Ok(())
    }

    /// Changes the flags of every 4 KiB page in `[vaddr, vaddr + size)`,
    /// splitting huge pages; every page must be mapped.
    pub fn try_remap(&mut self, vaddr: u64, size: u64, new_flags: EntryFlags) -> (r: Result<(), PtError>)
        requires
            old(self).wf(),
            vaddr + size + 4096 <= u64::MAX,
        ensures
            Polen::same_space(old(self), final(self)),
            vaddr & MASK_4K != 0 || size == 0 ==> r == Err::<(), PtError>(PtError::BadRemapRange) && *final(self) == *old(self),
            remap_law_pre(old(self), new_flags) ==> addr_kept(&old(self).exco.mem, &final(self).exco.mem, old(self).exco.root as int),
            r is Ok && remap_law_pre(old(self), new_flags) ==> forall|a: u64| vaddr <= a < vaddr + size
                ==> old(self).view_at(a) is Some
                    && #[trigger] final(self).view_at(a) == Some((old(self).view_at(a)->Some_0.0, (new_flags.0 | PRESENT) & ALL_FLAGS))
                    && leaf_level(&final(self).exco.mem, final(self).exco.root as int, a) == 0,
            remap_owed(old(self), vaddr, size, new_flags) ==> r is Ok,
    {
        if vaddr & MASK_4K != 0 || size == 0 {
            return Err(PtError::BadRemapRange);
        }
        let ghost law = remap_law_pre(old(self), new_flags);
        let ghost owed = remap_owed(old(self), vaddr, size, new_flags);
        let ghost npages: int = (size + 4095) / 4096;
        let ghost len0 = self.exco.mem.len();
        let ghost mut i: int = 0;
        let ghost m0 = self.exco.mem;
        let ghost rt = self.exco.root as int;
        let ghost nfp = (new_flags.0 | PRESENT) & ALL_FLAGS;
        let mut v = vaddr;
        let mut rem = size;
        proof {
            lemma_page_aligned(vaddr);
            lemma_kept_refl(&m0, rt);
        }
        while rem > 0
            invariant
                Polen::same_space(old(self), self),
                rem > 0 ==> v + rem == vaddr + size,
                v + rem >= vaddr + size,
                v <= vaddr + size + 4096,
                vaddr + size + 4096 <= u64::MAX,
                vaddr & MASK_4K == 0,
                v % 4096 == 0,
                v >= vaddr,
                size > 0,
                m0 == old(self).exco.mem,
                rt == old(self).exco.root,
                law == remap_law_pre(old(self), new_flags),
                nfp == (new_flags.0 | PRESENT) & ALL_FLAGS,
                law ==> huge_frames_ok(&self.exco.mem) && no_pml4_huge(&self.exco.mem, rt) && addr_kept(&m0, &self.exco.mem, rt),
                law ==> forall|a: u64| vaddr <= a < v ==> translate(&m0, rt, a) is Some
                    && #[trigger] translate(&self.exco.mem, rt, a) == Some((translate(&m0, rt, a)->Some_0.0, nfp))
                    && leaf_level(&self.exco.mem, rt, a) == 0,
                owed == remap_owed(old(self), vaddr, size, new_flags),
                npages == (size + 4095) / 4096,
                len0 == old(self).exco.mem.len(),
                v == vaddr + 4096 * i,
                i >= 0,
                self.exco.mem.len() <= len0 + 2 * i,
            decreases rem,
        {
            let ghost m1 = self.exco.mem;
            let ghost p1 = *self;
            proof {
                if owed {
                    assert(i + 1 <= npages) by (nonlinear_arith)
                        requires v == vaddr + 4096 * i, v + rem == vaddr + size, rem > 0, npages == (size + 4095) / 4096, i >= 0;
                    assert(4096 * (len0 + 2 * npages) >= 4096 * (m1.len() + 2)) by (nonlinear_arith)
                        requires m1.len() <= len0 + 2 * i, i + 1 <= npages;
                    assert(old(self).view_at(v) is Some);
                    assert(translate(&m1, rt, v) is Some == translate(&m0, rt, v) is Some);
                }
            }
            self.remap_page(v, new_flags)?;
            proof { i = i + 1; }
            proof {
                if law {
                    assert(remap_law_pre(&p1, new_flags));
                    assert forall|a: u64| vaddr <= a < v + 4096 implies translate(&m0, rt, a) is Some
                        && #[trigger] translate(&self.exco.mem, rt, a) == Some((translate(&m0, rt, a)->Some_0.0, nfp))
                        && leaf_level(&self.exco.mem, rt, a) == 0 by {
                        if a < v {
                            assert(translate(&m1, rt, a) == Some((translate(&m0, rt, a)->Some_0.0, nfp)));
                            if same_region(a, v, 0) {
                            } else {
                            }
                        } else {
                            lemma_in_block(a, v, 0);
                            assert(same_region(a, v, 0));
                            assert(translate(&m1, rt, a) is Some == translate(&m0, rt, a) is Some);
                        }
                    }
                    lemma_addr_kept_trans(&m0, &m1, &self.exco.mem, rt);
                }
            }
            v = v + 4096;
            rem = if rem > 4096 { rem - 4096 } else { 0 };
        }
        Ok(())
    }

    /// Changes the flags of `[vaddr, vaddr + size)`; see [`Polen::try_remap`].
    /// A failure is not reported: the hierarchy stays as the attempt left it.
    pub fn remap(&mut self, vaddr: u64, size: u64, new_flags: EntryFlags)
        requires
            old(self).wf(),
            vaddr & MASK_4K == 0,
            size > 0,
            vaddr + size + 4096 <= u64::MAX,
        ensures
            Polen::same_space(old(self), final(self)),
            remap_law_pre(old(self), new_flags) ==> addr_kept(&old(self).exco.mem, &final(self).exco.mem, old(self).exco.root as int),
            remap_owed(old(self), vaddr, size, new_flags) ==> forall|a: u64| vaddr <= a < vaddr + size
                ==> #[trigger] final(self).view_at(a) == Some((old(self).view_at(a)->Some_0.0, (new_flags.0 | PRESENT) & ALL_FLAGS))
                    && leaf_level(&final(self).exco.mem, final(self).exco.root as int, a) == 0,
    {
        let _ = self.try_remap(vaddr, size, new_flags);
    }

    /// Unmaps `[vaddr, vaddr + size)` page by page; a huge page that the
    /// range does not cover whole is split first, one that it covers whole
    /// is cleared at its first page (its other pages are then passed over).
    /// A page of the range that nothing maps ends the call with `NotMapped`.
    pub fn try_unmap(&mut self, vaddr: u64, size: u64) -> (r: Result<(), PtError>)
        requires
            old(self).wf(),
            vaddr + size + 4096 <= u64::MAX,
        ensures
            Polen::same_space(old(self), final(self)),
            vaddr & MASK_4K != 0 || size == 0 ==> r == Err::<(), PtError>(PtError::BadUnmapRange) && *final(self) == *old(self),
            r is Ok ==> forall|a: u64| vaddr <= a < vaddr + size ==> #[trigger] final(self).view_at(a) is None,
            r is Ok && huge_frames_ok(&old(self).exco.mem) ==> forall|a: u64| apart_from_range(a, vaddr, size)
                ==> (#[trigger] final(self).view_at(a) is Some) == old(self).view_at(a) is Some
                    && (old(self).view_at(a) is Some ==> final(self).view_at(a)->Some_0.0 == old(self).view_at(a)->Some_0.0),
            unmap_owed(old(self), vaddr, size) ==> r is Ok,
    {
        if vaddr & MASK_4K != 0 || size == 0 {
            return Err(PtError::BadUnmapRange);
        }
        let ghost law = huge_frames_ok(&old(self).exco.mem);
        let ghost owed = unmap_owed(old(self), vaddr, size);
        let ghost m_orig = self.exco.mem;
        let ghost rt = self.exco.root as int;
        let mut v = vaddr;
        let mut rem = size;
        proof {
            lemma_page_aligned(vaddr);
            if owed {
                assert forall|a: u64| vaddr <= a < vaddr + size
                    implies #[trigger] translate(&m_orig, rt, a) is Some by {
                    assert(old(self).view_at(a) is Some);
                }
            }
        }
        let ghost len0 = self.exco.mem.len();
        let ghost mut i: int = 0;
        let mut cleared_end: u64 = 0;
        while rem > 0
            invariant
                Polen::same_space(old(self), self),
                rem > 0 ==> v + rem == vaddr + size,
                v + rem >= vaddr + size,
                v <= vaddr + size + 4096,
                vaddr + size + 4096 <= u64::MAX,
                vaddr & MASK_4K == 0,
                v % 4096 == 0,
                v >= vaddr,
                size > 0,
                forall|a: u64| vaddr <= a < v ==> #[trigger] self.view_at(a) is None,
                law == huge_frames_ok(&old(self).exco.mem),
                m_orig == old(self).exco.mem,
                rt == old(self).exco.root,
                law ==> huge_frames_ok(&self.exco.mem) && forall|a: u64| apart_from_range(a, vaddr, size)
                    ==> (#[trigger] translate(&self.exco.mem, rt, a) is Some) == translate(&m_orig, rt, a) is Some
                        && (translate(&m_orig, rt, a) is Some
                            ==> translate(&self.exco.mem, rt, a)->Some_0.0 == translate(&m_orig, rt, a)->Some_0.0),
                owed == unmap_owed(old(self), vaddr, size),
                owed ==> law,
                owed ==> forall|a: u64| v <= a < vaddr + size && cleared_end <= a
                    ==> #[trigger] translate(&self.exco.mem, rt, a) is Some,
                len0 == old(self).exco.mem.len(),
                v == vaddr + 4096 * i,
                0 <= i,
                owed ==> self.exco.mem.len() <= len0 + 2 * i,
                owed ==> self.exco.mem.base + 4096 * (len0 + 2 * (size / 4096 + 1)) <= PHYS_LIMIT,
            decreases rem,
        {
            let ghost p0 = *self;
            let ghost m0 = self.exco.mem;
            let skip = v < cleared_end && self.query(v).is_none();
            if skip {
                proof {
                    lemma_page_aligned(v);
                    assert forall|a: u64| vaddr <= a < v + 4096 implies #[trigger] self.view_at(a) is None by {
                        if a >= v {
                            lemma_same_page(&self.exco.mem, self.exco.root as int, v, a);
                        }
                    }
                }
            } else {
            proof {
                if owed {
                    if v < cleared_end {
                        assert(p0.view_at(v) is Some);
                    }
                    assert(translate(&m0, rt, v) is Some);
                    assert(4096 * i < size);
                    assert(i <= size / 4096);
                }
            }
            self.split_down(v, rem, true)?;
            let ghost p1 = *self;
            let ghost m1 = self.exco.mem;
            let root = self.exco.root;
            // The level of the entry that maps `v`: a huge page still there
            // lies whole in the range, and its other pages go with it.
            let lvl: u8 = match walk_entry_mut(&mut self.exco.mem, root, v, 0, false) {
                Ok(_) => 0,
                Err(_) => match walk_entry_mut(&mut self.exco.mem, root, v, 1, false) {
                    Ok((t, j)) => {
                        let e = self.exco.mem.read(t, j);
                        if e.is_present() && is_huge(&e) { 1 } else { 2 }
                    },
                    Err(_) => 2,
                },
            };
            let step: u64 = if lvl == 0 { 0x1000 } else if lvl == 1 { 0x20_0000 } else { 0x4000_0000 };
            proof {
                assert(self.exco.mem == m1);
                assert(lvl == unmap_level(&m1, rt, v));
            }
            proof {
                if owed {
                    assert(translate(&m1, rt, v) is Some);
                    assert(unmap_slot(&m1, rt, v) is Some);
                }
            }
            self.exco.try_unmap(v)?;
            let ce = if v <= u64::MAX - step { v + step } else { u64::MAX };
            if ce > cleared_end {
                cleared_end = ce;
            }
            proof {
                if owed {
                    lemma_offset_masks(v);
                    lemma_page_aligned(v);
                    let k = lvl as int;
                    assert(step == crate::paging::frame::region_size(k));
                    if k == 1 {
                        assert(huge_at(&m1, rt, v, 1));
                    } else if k == 2 {
                        assert(huge_at(&m1, rt, v, 2));
                    }
                    assert(crate::paging::frame::region_base(v, k) == v);
                    assert forall|a: u64| v + 4096 <= a < vaddr + size && cleared_end <= a
                        implies #[trigger] translate(&self.exco.mem, rt, a) is Some by {
                        assert(translate(&m0, rt, a) is Some);
                        assert(translate(&m1, rt, a) is Some);
                        crate::paging::run::lemma_apart(v, a, k);
                        crate::paging::frame::lemma_unmap_frame(&m1, &self.exco.mem, rt, v, a);
                    }
                    assert(self.exco.mem.len() == m1.len());
                }
            }
            proof {
                if law {
                    self.lemma_unmap_apart(&m_orig, &m0, &m1, vaddr, size, v, rem);
                }
                lemma_unmap_no_new_mapping(&m1, &self.exco.mem, root as int, v);
                assert forall|a: u64| vaddr <= a < v + 4096 implies #[trigger] self.view_at(a) is None by {
                    if a < v {
                        assert(p0.view_at(a) is None);
                        assert(p1.view_at(a) is None);
                    } else {
                        lemma_page_aligned(v);
                        lemma_same_page(&self.exco.mem, root as int, v, a);
                    }
                }
            }
            }
            proof { i = i + 1; }
            v = v + 4096;
            rem = if rem > 4096 { rem - 4096 } else { 0 };
        }
        Ok(())
    }

    /// One step of [`Polen::try_unmap`] at `v` (after the split that
    /// precedes it) keeps the addresses that share no page with the range.
    proof fn lemma_unmap_apart(&self, orig: &PtMem, m0: &PtMem, m1: &PtMem, vaddr: u64, size: u64, v: u64, rem: u64)
        requires
            self.wf(),
            m1.wf(),
            is_root(m1, self.exco.root as int),
            huge_frames_ok(m0),
            huge_frames_ok(m1),
            addr_kept(m0, m1, self.exco.root as int),
            forall|a: u64| apart_from_range(a, vaddr, size)
                ==> (#[trigger] translate(m0, self.exco.root as int, a) is Some) == translate(orig, self.exco.root as int, a) is Some
                    && (translate(orig, self.exco.root as int, a) is Some
                        ==> translate(m0, self.exco.root as int, a)->Some_0.0 == translate(orig, self.exco.root as int, a)->Some_0.0),
            huge_at(m1, self.exco.root as int, v, 2) ==> v & MASK_1G == 0 && rem >= 0x4000_0000,
            huge_at(m1, self.exco.root as int, v, 1) ==> v & MASK_2M == 0 && rem >= 0x20_0000,
            unmap_slot(m1, self.exco.root as int, v) is Some,
            crate::paging::exco::set_slot(m1, &self.exco.mem, unmap_slot(m1, self.exco.root as int, v)->Some_0, 0),
            vaddr <= v,
            rem > 0,
            v + rem == vaddr + size,
            vaddr + size + 4096 <= u64::MAX,
        ensures
            huge_frames_ok(&self.exco.mem),
            forall|a: u64| apart_from_range(a, vaddr, size)
                ==> (#[trigger] translate(&self.exco.mem, self.exco.root as int, a) is Some) == translate(orig, self.exco.root as int, a) is Some
                    && (translate(orig, self.exco.root as int, a) is Some
                        ==> translate(&self.exco.mem, self.exco.root as int, a)->Some_0.0 == translate(orig, self.exco.root as int, a)->Some_0.0),
    {
        let rt = self.exco.root as int;
        lemma_clear_huge_frames(m1, &self.exco.mem, unmap_slot(m1, rt, v)->Some_0);
        assert forall|a: u64| apart_from_range(a, vaddr, size)
            implies (#[trigger] translate(&self.exco.mem, rt, a) is Some) == translate(orig, rt, a) is Some
                && (translate(orig, rt, a) is Some
                    ==> translate(&self.exco.mem, rt, a)->Some_0.0 == translate(orig, rt, a)->Some_0.0) by {
            let k = unmap_level(m1, rt, v);
            lemma_offset_masks(v);
            lemma_block_offset(a, v);
            if k == 0 {
                assert(!same_region(a, v, 0));
            } else if k == 1 {
                assert(huge_at(m1, rt, v, 1));
                if same_region(a, v, 1) {
                    let b = (v + (a & 0x1f_ffffu64)) as u64;
                    assert(same_region(a, b, 0));
                }
            } else {
                assert(huge_at(m1, rt, v, 2));
                if same_region(a, v, 2) {
                    let b = (v + (a & 0x3fff_ffffu64)) as u64;
                    assert(same_region(a, b, 0));
                }
            }
            crate::paging::frame::lemma_unmap_frame(m1, &self.exco.mem, rt, v, a);
            assert(translate(m1, rt, a) is Some == translate(m0, rt, a) is Some);
        }
    }

    /// Unmaps `[vaddr, vaddr + size)`; see [`Polen::try_unmap`]. A failure
    /// is not reported: the hierarchy stays as the attempt left it.
    pub fn unmap(&mut self, vaddr: u64, size: u64)
        requires
            old(self).wf(),
            vaddr & MASK_4K == 0,
            size > 0,
            vaddr + size + 4096 <= u64::MAX,
        ensures
            Polen::same_space(old(self), final(self)),
            unmap_owed(old(self), vaddr, size) ==> forall|a: u64| vaddr <= a < vaddr + size ==> #[trigger] final(self).view_at(a) is None,
            unmap_owed(old(self), vaddr, size) && huge_frames_ok(&old(self).exco.mem) ==> forall|a: u64| apart_from_range(a, vaddr, size)
                ==> (#[trigger] final(self).view_at(a) is Some) == old(self).view_at(a) is Some
                    && (old(self).view_at(a) is Some ==> final(self).view_at(a)->Some_0.0 == old(self).view_at(a)->Some_0.0),
    {
        let _ = self.try_unmap(vaddr, size);
    }

    /// Merges, where possible, the 2 MiB blocks and then (for a size of
    /// 1 GiB or more) the 1 GiB blocks that lie whole inside
    /// `[start, start + size)` into huge pages; an unaligned head or tail
    /// stays as it is. Nothing is done for a size under 2 MiB.
    pub fn merge_range(&mut self, start: u64, size: u64)
        requires
            old(self).wf(),
            start + size + 0x4000_0000 <= u64::MAX,
        ensures
            Polen::same_space(old(self), final(self)),
            size < 0x20_0000 ==> *final(self) == *old(self),
            addr_kept(&old(self).exco.mem, &final(self).exco.mem, old(self).exco.root as int),
            size >= 0x20_0000 && no_pml4_huge(&old(self).exco.mem, old(self).exco.root as int)
                ==> forall|w: u64| w as int % 0x20_0000 == 0 && start <= w && w + 0x20_0000 <= start + size
                    ==> !#[trigger] mergeable(&final(self).exco.mem, final(self).exco.root as int, w, 1),
            size >= 0x4000_0000 && no_pml4_huge(&old(self).exco.mem, old(self).exco.root as int)
                ==> forall|w: u64| w as int % 0x4000_0000 == 0 && start <= w && w + 0x4000_0000 <= start + size
                    ==> !#[trigger] mergeable(&final(self).exco.mem, final(self).exco.root as int, w, 2),
            forall|a: u64| translate(&old(self).exco.mem, old(self).exco.root as int, a) is Some
                && leaf_level(&old(self).exco.mem, old(self).exco.root as int, a) == 0 && outside_blocks(a, start, size)
                ==> #[trigger] translate(&final(self).exco.mem, old(self).exco.root as int, a)
                    == translate(&old(self).exco.mem, old(self).exco.root as int, a)
                    && leaf_level(&final(self).exco.mem, old(self).exco.root as int, a) == 0,
    {
        let ghost m0 = self.exco.mem;
        let ghost rt = self.exco.root as int;
        let ghost clean = no_pml4_huge(&m0, rt);
        proof { lemma_kept_refl(&m0, rt); }
        let end = start + size;
        if size < 0x20_0000 {
            return;
        }
        let first_2m: u64 = (start + 0x1f_ffff) & !MASK_2M;
        proof {
            lemma_offset_masks((start + 0x1f_ffff) as u64);
            lemma_aligned_down((start + 0x1f_ffff) as int, 0x20_0000);
            if clean {
                assert forall|w: u64| w as int % 0x20_0000 == 0 && start <= w < first_2m
                    implies !#[trigger] mergeable(&self.exco.mem, rt, w, 1) by {
                    lemma_multiple_gap(w as int, first_2m as int, 0x20_0000);
                }
            }
        }
        let mut v = first_2m;
        while v + 0x20_0000 <= end
            invariant
                Polen::same_space(old(self), self),
                v <= end,
                end == start + size,
                end + 0x4000_0000 <= u64::MAX,
                m0 == old(self).exco.mem,
                rt == old(self).exco.root,
                addr_kept(&m0, &self.exco.mem, rt),
                start <= first_2m,
                first_2m <= v,
                forall|a: u64| translate(&m0, rt, a) is Some && leaf_level(&m0, rt, a) == 0 && outside_blocks(a, start, size)
                    ==> #[trigger] translate(&self.exco.mem, rt, a) == translate(&m0, rt, a) && leaf_level(&self.exco.mem, rt, a) == 0,
                v as int % 0x20_0000 == 0,
                clean == no_pml4_huge(&m0, rt),
                clean ==> no_pml4_huge(&self.exco.mem, rt),
                clean ==> forall|w: u64| w as int % 0x20_0000 == 0 && start <= w < v
                    ==> !#[trigger] mergeable(&self.exco.mem, rt, w, 1),
            decreases end - v,
        {
            let ghost m1 = self.exco.mem;
            let r = self.exco.try_merge2m(v);
            proof {
                lemma_merge_step(&m1, &self.exco.mem, rt, v, 1, r);
                lemma_addr_kept_trans(&m0, &m1, &self.exco.mem, rt);
                lemma_offset_masks(v);
                assert forall|a: u64| translate(&m0, rt, a) is Some && leaf_level(&m0, rt, a) == 0 && outside_blocks(a, start, size)
                    implies #[trigger] translate(&self.exco.mem, rt, a) == translate(&m0, rt, a) && leaf_level(&self.exco.mem, rt, a) == 0 by {
                    assert(!same_region(a, v, 1));
                    lemma_merge_keeps_small(&m1, &self.exco.mem, rt, v, 1, r, a);
                }
                if clean {
                    lemma_offset_masks(v);
                    assert forall|w: u64| w as int % 0x20_0000 == 0 && start <= w < v + 0x20_0000
                        implies !#[trigger] mergeable(&self.exco.mem, rt, w, 1) by {
                        if w < v {
                            lemma_merge_unmergeable(&m1, &self.exco.mem, rt, v, 1, r, w, 1);
                        } else if w == v {
                            lemma_merge_unmergeable(&m1, &self.exco.mem, rt, v, 1, r, w, 1);
                        } else {
                            lemma_multiple_gap(v as int, w as int, 0x20_0000);
                        }
                    }
                }
            }
            v = v + 0x20_0000;
        }
        proof {
            if clean {
                assert forall|w: u64| w as int % 0x20_0000 == 0 && start <= w && w + 0x20_0000 <= end
                    implies !#[trigger] mergeable(&self.exco.mem, rt, w, 1) by {
                }
            }
        }
        if size >= 0x4000_0000 {
            let first_1g: u64 = (start + 0x3fff_ffff) & !MASK_1G;
            proof {
                lemma_offset_masks((start + 0x3fff_ffff) as u64);
                lemma_aligned_down((start + 0x3fff_ffff) as int, 0x4000_0000);
                if clean {
                    assert forall|w: u64| w as int % 0x4000_0000 == 0 && start <= w < first_1g
                        implies !#[trigger] mergeable(&self.exco.mem, rt, w, 2) by {
                        lemma_multiple_gap(w as int, first_1g as int, 0x4000_0000);
                    }
                }
            }
            let mut g = first_1g;
            while g + 0x4000_0000 <= end
                invariant
                    Polen::same_space(old(self), self),
                    g <= end,
                    end == start + size,
                    end + 0x4000_0000 <= u64::MAX,
                    m0 == old(self).exco.mem,
                    rt == old(self).exco.root,
                    addr_kept(&m0, &self.exco.mem, rt),
                    forall|a: u64| translate(&m0, rt, a) is Some && leaf_level(&m0, rt, a) == 0 && outside_blocks(a, start, size)
                        ==> #[trigger] translate(&self.exco.mem, rt, a) == translate(&m0, rt, a) && leaf_level(&self.exco.mem, rt, a) == 0,
                    g as int % 0x4000_0000 == 0,
                    clean == no_pml4_huge(&m0, rt),
                    clean ==> no_pml4_huge(&self.exco.mem, rt),
                    clean ==> forall|w: u64| w as int % 0x20_0000 == 0 && start <= w && w + 0x20_0000 <= end
                        ==> !#[trigger] mergeable(&self.exco.mem, rt, w, 1),
                    clean ==> forall|w: u64| w as int % 0x4000_0000 == 0 && start <= w < g
                        ==> !#[trigger] mergeable(&self.exco.mem, rt, w, 2),
                decreases end - g,
            {
                let ghost m1 = self.exco.mem;
                let r = self.exco.try_merge1g(g);
                proof {
                    lemma_merge_step(&m1, &self.exco.mem, rt, g, 2, r);
                    lemma_addr_kept_trans(&m0, &m1, &self.exco.mem, rt);
                    lemma_offset_masks(g);
                    assert forall|a: u64| translate(&m0, rt, a) is Some && leaf_level(&m0, rt, a) == 0 && outside_blocks(a, start, size)
                        implies #[trigger] translate(&self.exco.mem, rt, a) == translate(&m0, rt, a) && leaf_level(&self.exco.mem, rt, a) == 0 by {
                        lemma_merge_keeps_small(&m1, &self.exco.mem, rt, g, 2, r, a);
                    }
                    if clean {
                        lemma_offset_masks(g);
                        assert forall|w: u64| w as int % 0x20_0000 == 0 && start <= w && w + 0x20_0000 <= end
                            implies !#[trigger] mergeable(&self.exco.mem, rt, w, 1) by {
                            lemma_merge_unmergeable(&m1, &self.exco.mem, rt, g, 2, r, w, 1);
                        }
                        assert forall|w: u64| w as int % 0x4000_0000 == 0 && start <= w < g + 0x4000_0000
                            implies !#[trigger] mergeable(&self.exco.mem, rt, w, 2) by {
                            if w < g {
                                lemma_merge_unmergeable(&m1, &self.exco.mem, rt, g, 2, r, w, 2);
                            } else if w == g {
                                lemma_merge_unmergeable(&m1, &self.exco.mem, rt, g, 2, r, w, 2);
                            } else {
                                lemma_multiple_gap(g as int, w as int, 0x4000_0000);
                            }
                        }
                    }
                }
                g = g + 0x4000_0000;
            }
            proof {
                if clean {
                    assert forall|w: u64| w as int % 0x4000_0000 == 0 && start <= w && w + 0x4000_0000 <= end
                        implies !#[trigger] mergeable(&self.exco.mem, rt, w, 2) by {
                    }
                }
            }
        }
    }
}

/// Two distinct multiples of `m` lie at least `m` apart.
proof fn lemma_multiple_gap(w: int, f: int, m: int)
    requires
        m > 0,
        w % m == 0,
        f % m == 0,
        w < f,
    ensures
        w + m <= f,
{
    vstd::arithmetic::div_mod::lemma_fundamental_div_mod(w, m);
    vstd::arithmetic::div_mod::lemma_fundamental_div_mod(f, m);
    let qw = w / m;
    let qf = f / m;
    assert(w + m <= f) by (nonlinear_arith)
        requires w == m * qw, f == m * qf, w < f, m > 0;
}

/// Rounding `x` down to a multiple of `m` gives a multiple of `m` up to `x`.
proof fn lemma_aligned_down(x: int, m: int)
    requires
        m > 0,
        x >= 0,
    ensures
        (x - x % m) % m == 0,
        x - x % m <= x,
{
    vstd::arithmetic::div_mod::lemma_fundamental_div_mod(x, m);
    let q = x / m;
    assert(x - x % m == m * q);
    vstd::arithmetic::div_mod::lemma_mod_multiples_basic(q, m);
    assert(m * q == q * m) by (nonlinear_arith);
}

/// A walk that starts from PML4 `r2` of `m2` whose entry for `v` equals
/// that of PML4 `r1` of `m1`, through tables below the PML4 level that the
/// two pools hold alike, translates alike.
pub proof fn lemma_translate_reroot(m1: &PtMem, r1: int, m2: &PtMem, r2: int, v: u64)
    requires
        m1.wf(),
        m2.wf(),
        is_root(m1, r1),
        is_root(m2, r2),
        m1.base == m2.base,
        m1.len() <= m2.len(),
        m2.ent(r2, pml4_index(v)) == m1.ent(r1, pml4_index(v)),
        forall|t: int| 0 <= t < m1.len() ==> #[trigger] m2.level(t) == m1.level(t),
        forall|t: int, j: int| 0 <= t < m1.len() && m1.level(t) < 3 && 0 <= j < 512
            ==> #[trigger] m2.ent(t, j) == m1.ent(t, j),
    ensures
        translate(m2, r2, v) == translate(m1, r1, v),
{
    reveal_with_fuel(path_slot, 4);
    reveal_with_fuel(path_ok, 4);
    lemma_path_slot(m1, r1, v, 3);
    lemma_path_slot(m2, r2, v, 3);
    let s3 = path_slot(m1, r1, v, 3);
    let q3 = path_slot(m2, r2, v, 3);
    assert(m2.ent(q3.0, q3.1) == m1.ent(s3.0, s3.1));
    if m1.is_ptr_slot(s3.0, s3.1) {
        assert(m2.is_ptr_slot(q3.0, q3.1));
        lemma_path_slot(m1, r1, v, 2);
        let s2 = path_slot(m1, r1, v, 2);
        assert(path_slot(m2, r2, v, 2) == s2);
        if m1.is_ptr_slot(s2.0, s2.1) {
            lemma_path_slot(m1, r1, v, 1);
            let s1 = path_slot(m1, r1, v, 1);
            assert(path_slot(m2, r2, v, 1) == s1);
            if m1.is_ptr_slot(s1.0, s1.1) {
                lemma_path_slot(m1, r1, v, 0);
                assert(path_slot(m2, r2, v, 0) == path_slot(m1, r1, v, 0));
            }
        }
    }
}

impl Polen {
    /// An engine over a new PML4 in the pool of `current` whose upper-half
    /// entries (256 to 511) are copies of those of `current`'s PML4, so that
    /// both share the tables below them; its lower half is empty. Every
    /// table of `current`, its PML4 included, stays as it was.
    pub fn reference(current: Exco) -> (p: Polen)
        requires
            current.wf(),
            current.mem.base + 4096 * (current.mem.len() + 1) <= PHYS_LIMIT,
        ensures
            p.wf(),
            p.exco.owned,
            p.exco.root == current.mem.len(),
            p.exco.cr3 == p.exco.mem.tab_addr(p.exco.root as int),
            forall|v: u64| #![trigger p.view_at(v)] pml4_index(v) >= 256 ==> p.view_at(v) == current.view_at(v),
            forall|v: u64| #![trigger p.view_at(v)] pml4_index(v) < 256 ==> p.view_at(v) is None,
            p.exco.mem.len() == current.mem.len() + 1,
            forall|j: int| 256 <= j < 512 ==> #[trigger] p.exco.mem.ent(p.exco.root as int, j) == current.mem.ent(current.root as int, j),
            forall|j: int| 0 <= j < 256 ==> #[trigger] p.exco.mem.ent(p.exco.root as int, j) == 0,
            forall|t: int, j: int| 0 <= t < current.mem.len() && 0 <= j < 512
                ==> #[trigger] p.exco.mem.ent(t, j) == current.mem.ent(t, j),
    {
        let ghost m0 = current.mem;
        let old_root = current.root;
        let mut mem = current.mem;
        let nr = match mem.alloc_tab_zeroed(3) {
            Ok(t) => t,
            Err(_) => {
                proof { assert(false); }
                0
            },
        };
        let ghost m1 = mem;
        assert(0u64 & 1u64 == 0) by { crate::paging::table::lemma_zero_flags(); }
        let mut i: usize = 256;
        while i < 512
            invariant
                mem.wf(),
                m0.wf(),
                m1.wf(),
                is_root(&m0, old_root as int),
                m1.len() == m0.len() + 1,
                nr == m0.len(),
                mem.len() == m1.len(),
                mem.base == m0.base,
                m1.base == m0.base,
                mem.levels == m1.levels,
                m1.level(nr as int) == 3,
                forall|t: int| 0 <= t < m0.len() ==> #[trigger] m1.level(t) == m0.level(t),
                forall|t: int, j: int| 0 <= t < m0.len() && 0 <= j < 512 ==> #[trigger] m1.ent(t, j) == m0.ent(t, j),
                forall|j: int| 0 <= j < 512 ==> #[trigger] m1.ent(nr as int, j) == 0,
                256 <= i <= 512,
                forall|t: int, j: int| 0 <= t < m1.len() && t != nr && 0 <= j < 512
                    ==> #[trigger] mem.ent(t, j) == m1.ent(t, j),
                forall|j: int| 0 <= j < 256 ==> #[trigger] mem.ent(nr as int, j) == 0,
                forall|j: int| 256 <= j < i ==> #[trigger] mem.ent(nr as int, j) == m1.ent(old_root as int, j),
                forall|j: int| i <= j < 512 ==> #[trigger] mem.ent(nr as int, j) == 0,
            decreases 512 - i,
        {
            let e = mem.read(old_root, i);
            let ghost ma = mem;
            proof {
                if is_present_bits(e.0) {
                    assert(m1.is_ptr_slot(old_root as int, i as int));
                    assert(ma.is_ptr_slot(old_root as int, i as int));
                    assert(ma.points_to(e.0, 2));
                    assert forall|t2: int, j2: int| #[trigger] ma.is_ptr_slot(t2, j2) && (t2, j2) != (nr as int, i as int)
                        && (ma.level(nr as int) < 3 || ma.level(t2) < 3 || t2 == nr)
                        implies ma.child(ma.ent(t2, j2)) != ma.child(e.0) by {
                        if t2 == nr {
                            if j2 >= i || j2 < 256 {
                                assert(ma.ent(nr as int, j2) == 0);
                                assert(0u64 & 1u64 == 0) by { crate::paging::table::lemma_zero_flags(); }
                                assert(false);
                            }
                            assert(ma.ent(t2, j2) == m1.ent(old_root as int, j2));
                            assert(m1.is_ptr_slot(old_root as int, j2));
                            assert(m1.level(old_root as int) == 3);
                        } else {
                            assert(ma.points_to(ma.ent(t2, j2), ma.level(t2) - 1));
                        }
                    }
                }
            }
            mem.write(nr, i, e);
            proof {
                assert forall|t: int, j: int| 0 <= t < m1.len() && t != nr && 0 <= j < 512
                    implies #[trigger] mem.ent(t, j) == m1.ent(t, j) by {
                    assert(mem.ent(t, j) == ma.ent(t, j));
                }
                assert forall|j: int| 0 <= j < 256 implies #[trigger] mem.ent(nr as int, j) == 0 by {
                    assert(mem.ent(nr as int, j) == ma.ent(nr as int, j));
                }
                assert forall|j: int| 256 <= j < i + 1 implies #[trigger] mem.ent(nr as int, j) == m1.ent(old_root as int, j) by {
                    if j < i { assert(mem.ent(nr as int, j) == ma.ent(nr as int, j)); }
                    assert(ma.ent(old_root as int, i as int) == m1.ent(old_root as int, i as int));
                }
                assert forall|j: int| i + 1 <= j < 512 implies #[trigger] mem.ent(nr as int, j) == 0 by {
                    assert(mem.ent(nr as int, j) == ma.ent(nr as int, j));
                }
            }
            i = i + 1;
        }
        let cr3 = mem.addr_of(nr);
        let p = Polen { exco: Exco { cr3, root: nr, owned: true, mem } };
        proof {
            assert forall|v: u64| #![trigger p.view_at(v)] pml4_index(v) >= 256 implies p.view_at(v) == current.view_at(v) by {
                assert(0 <= pml4_index(v) < 512) by { crate::paging::table::lemma_indices(v); }
                assert forall|t: int, j: int| 0 <= t < m0.len() && m0.level(t) < 3 && 0 <= j < 512
                    implies #[trigger] p.exco.mem.ent(t, j) == m0.ent(t, j) by {
                    assert(p.exco.mem.ent(t, j) == m1.ent(t, j));
                }
                assert forall|t: int| 0 <= t < m0.len() implies #[trigger] p.exco.mem.level(t) == m0.level(t) by {
                    assert(m1.level(t) == m0.level(t));
                }
                lemma_translate_reroot(&m0, old_root as int, &p.exco.mem, nr as int, v);
            }
            assert forall|v: u64| #![trigger p.view_at(v)] pml4_index(v) < 256 implies p.view_at(v) is None by {
                assert(0 <= pml4_index(v));
                assert(path_ent(&p.exco.mem, nr as int, v, 3) == p.exco.mem.ent(nr as int, pml4_index(v)));
            }
            assert(old_root as int != nr as int);
        }
        p
    }
}

} // verus!
