//! The page-table executor: one hierarchy and the edits of single entries
//! (map, unmap, split and merge of 4 KiB, 2 MiB and 1 GiB pages).

use vstd::prelude::*;
use crate::addr::Paddr;
use crate::paging::entry::{
    ACCESSED, ALL_FLAGS, DIRTY, Entry, EntryFlags, HUGE_PAGE, PRESENT, WRITABLE, address_bits, entry_bits,
    ADDRESS_MASK,
    is_huge, is_huge_bits, is_present_bits,
};
use crate::paging::table::{
    ADDRESS_MASK_EXEC, PHYS_LIMIT, PtError, PtMem, is_root, is_table_ptr, lemma_path_slot, lemma_table_pointer_bits, path_ent, path_ok, path_slot,
    translate, walk_mut_spec, walk_spec,
};
use crate::paging::walk::{blocked_1g, blocked_2m, grows_along, on_path, walk_entry, walk_entry_mut};
use crate::paging::frame::{
    leaf_level, lemma_map_frame, lemma_map_no_pml4_huge, lemma_split_frame_all, lemma_unmap_frame_all, no_pml4_huge, same_region,
    unmap_level,
};

verus! {

/// Mask of the offset inside a 4 KiB page.
pub const MASK_4K: u64 = 0xfff;
/// Mask of the offset inside a 2 MiB page.
pub const MASK_2M: u64 = 0x1f_ffff;
/// Mask of the offset inside a 1 GiB page.
pub const MASK_1G: u64 = 0x3fff_ffff;

/// Whether `new` differs from `old` only along the walk for `v`: upper
/// slots were filled with pointers to new tables (whose own filled slots
/// point to new tables), and the slot at `lvl` (which the walk now
/// reaches) holds `e`.
pub open spec fn updated_along(old: &PtMem, new: &PtMem, root: int, v: u64, lvl: int, e: u64) -> bool {
    let s = path_slot(new, root, v, lvl);
    &&& new.base == old.base
    &&& old.len() <= new.len()
    &&& path_ok(new, root, v, lvl)
    &&& new.ent(s.0, s.1) == e
    &&& forall|t: int| 0 <= t < old.len() ==> #[trigger] new.level(t) == old.level(t)
    &&& forall|t: int, j: int| 0 <= t < old.len() && 0 <= j < 512 && (t, j) != s && #[trigger] new.ent(t, j) != old.ent(t, j)
        ==> !is_present_bits(old.ent(t, j)) && !is_huge_bits(new.ent(t, j)) && on_path(new, root, v, t, j, lvl + 1)
            && new.child(new.ent(t, j)) >= old.len()
    &&& forall|t: int, j: int| old.len() <= t < new.len() && 0 <= j < 512 && (t, j) != s && #[trigger] new.ent(t, j) != 0
        ==> on_path(new, root, v, t, j, lvl + 1) && !is_huge_bits(new.ent(t, j)) && new.child(new.ent(t, j)) >= old.len()
}

/// One page-table hierarchy: its root PML4 in a pool of tables.
pub struct Exco {
    /// Value for CR3: the physical address of the root.
    pub cr3: u64,
    /// The root table.
    pub root: usize,
    /// Whether the tables below the root belong to this hierarchy.
    pub owned: bool,
    /// The table memory.
    pub mem: PtMem,
}

impl Exco {
    /// The invariant: a well-formed pool whose table `root` is a PML4.
    pub open spec fn wf(&self) -> bool {
        self.mem.wf() && is_root(&self.mem, self.root as int)
    }

    /// What the hierarchy maps `v` to.
    pub open spec fn view_at(&self, v: u64) -> Option<(int, u64)> {
        translate(&self.mem, self.root as int, v)
    }

    /// Wraps the hierarchy rooted at PML4 `root` of `mem`.
    pub fn from_root(mem: PtMem, root: usize, cr3: u64, owned: bool) -> (x: Self)
        requires
            mem.wf(),
            is_root(&mem, root as int),
        ensures
            x.wf(),
            x.mem == mem,
            x.root == root,
            x.cr3 == cr3,
            x.owned == owned,
    {
        Exco { cr3, root, owned, mem }
    }

    /// Walks (creating tables) to the slot at level `lvl` for `vaddr` and
    /// writes `e` there.
    fn map_at(&mut self, vaddr: u64, e: Entry, lvl: u8) -> (r: Result<(), PtError>)
        requires
            old(self).wf(),
            lvl <= 2,
            lvl > 0 ==> is_huge_bits(e.0),
        ensures
            final(self).wf(),
            final(self).root == old(self).root,
            final(self).cr3 == old(self).cr3,
            final(self).owned == old(self).owned,
            map_outcome(&old(self).mem, &final(self).mem, old(self).root as int, vaddr, lvl as int, e.0, r),
            final(self).mem.len() <= old(self).mem.len() + 3,
            r is Ok && is_present_bits(e.0) && !pml4_huge(&old(self).mem, old(self).root as int, vaddr)
                ==> final(self).view_at(vaddr) == Some((address_bits(e.0) + (vaddr & offset_mask(lvl as int)), e.0 & ALL_FLAGS)),
            r is Ok && pml4_huge(&old(self).mem, old(self).root as int, vaddr) ==> pml4_huge(&final(self).mem, old(self).root as int, vaddr),
    {
        let ghost m0 = self.mem;
        let (t, j) = walk_entry_mut(&mut self.mem, self.root, vaddr, lvl, true)?;
        let ghost m1 = self.mem;
        proof {
            lemma_path_slot(&self.mem, self.root as int, vaddr, lvl as int);
        }
        self.mem.write(t, j, e);
        proof {
            lemma_updated_after_write(&m0, &m1, &self.mem, self.root as int, vaddr, lvl as int);
            if is_present_bits(e.0) && !pml4_huge(&m0, self.root as int, vaddr) {
                lemma_translate_after_update(&m0, &self.mem, self.root as int, vaddr, lvl as int, e.0);
            }
            if pml4_huge(&m0, self.root as int, vaddr) {
                lemma_path_slot(&m0, self.root as int, vaddr, 3);
                lemma_path_slot(&self.mem, self.root as int, vaddr, lvl as int);
                let p3 = path_slot(&m0, self.root as int, vaddr, 3);
                assert(path_slot(&self.mem, self.root as int, vaddr, 3) == p3);
                assert(self.mem.ent(p3.0, p3.1) == m0.ent(p3.0, p3.1));
            }
        }
        Ok(())
    }

    /// Maps the 4 KiB page at `vaddr` to `paddr` with `flags` (plus present),
    /// creating missing tables on the way.
    pub fn try_map4k(&mut self, vaddr: u64, paddr: Paddr, flags: EntryFlags) -> (r: Result<(), PtError>)
        requires
            old(self).wf(),
        ensures
            final(self).wf(),
            final(self).root == old(self).root,
            final(self).cr3 == old(self).cr3,
            final(self).owned == old(self).owned,
            final(self).mem.len() <= old(self).mem.len() + 3,
            vaddr & MASK_4K != 0 ==> r == Err::<(), PtError>(PtError::Misaligned4K) && *final(self) == *old(self),
            vaddr & MASK_4K == 0 ==> map_outcome(&old(self).mem, &final(self).mem, old(self).root as int, vaddr, 0,
                entry_bits(paddr.0 as u64, flags.0 | PRESENT), r),
            r is Ok && !pml4_huge(&old(self).mem, old(self).root as int, vaddr) ==> final(self).view_at(vaddr) == Some((
                address_bits(entry_bits(paddr.0 as u64, flags.0 | PRESENT)) + (vaddr & MASK_4K),
                entry_bits(paddr.0 as u64, flags.0 | PRESENT) & ALL_FLAGS)),
            r is Ok && pml4_huge(&old(self).mem, old(self).root as int, vaddr) ==> pml4_huge(&final(self).mem, old(self).root as int, vaddr),
            r is Ok ==> forall|a: u64| old(self).view_at(a) is Some && !same_region(a, vaddr, 0)
                ==> #[trigger] final(self).view_at(a) == old(self).view_at(a),
            r is Ok && no_pml4_huge(&old(self).mem, old(self).root as int) ==> no_pml4_huge(&final(self).mem, final(self).root as int)
                && leaf_level(&final(self).mem, final(self).root as int, vaddr) == 0,
    {
        if vaddr & MASK_4K != 0 {
            return Err(PtError::Misaligned4K);
        }
        let e = Entry::new(paddr, EntryFlags(flags.0 | PRESENT));
        proof {
            let p = paddr.0 as u64;
            let f = flags.0;
            assert(((p & 0x000f_ffff_ffff_f000u64) | (f | 1u64)) & 1u64 != 0) by (bit_vector);
        }
        let ghost m0 = self.mem;
        let r = self.map_at(vaddr, e, 0);
        proof {
            if r is Ok {
                if no_pml4_huge(&m0, self.root as int) {
                    lemma_map_no_pml4_huge(&m0, &self.mem, self.root as int, vaddr, 0, e.0);
                }
                assert forall|a: u64| old(self).view_at(a) is Some && !same_region(a, vaddr, 0)
                    implies #[trigger] self.view_at(a) == old(self).view_at(a) by {
                    lemma_map_frame(&m0, &self.mem, self.root as int, vaddr, 0, e.0, a);
                }
            }
        }
        r
    }

    /// Maps the 2 MiB page at `vaddr` to `paddr` with `flags` (plus present
    /// and huge), creating missing tables on the way.
    pub fn try_map2m(&mut self, vaddr: u64, paddr: Paddr, flags: EntryFlags) -> (r: Result<(), PtError>)
        requires
            old(self).wf(),
        ensures
            final(self).wf(),
            final(self).root == old(self).root,
            final(self).cr3 == old(self).cr3,
            final(self).owned == old(self).owned,
            final(self).mem.len() <= old(self).mem.len() + 3,
            vaddr & MASK_2M != 0 ==> r == Err::<(), PtError>(PtError::Misaligned2M) && *final(self) == *old(self),
            vaddr & MASK_2M == 0 && (paddr.0 as u64) & MASK_2M != 0 ==> r == Err::<(), PtError>(PtError::PhysMisaligned2M)
                && *final(self) == *old(self),
            vaddr & MASK_2M == 0 && (paddr.0 as u64) & MASK_2M == 0 ==> map_outcome(&old(self).mem, &final(self).mem,
                old(self).root as int, vaddr, 1, entry_bits(paddr.0 as u64, flags.0 | PRESENT | HUGE_PAGE), r),
            r is Ok && !pml4_huge(&old(self).mem, old(self).root as int, vaddr) ==> final(self).view_at(vaddr) == Some((
                address_bits(entry_bits(paddr.0 as u64, flags.0 | PRESENT | HUGE_PAGE)) + (vaddr & MASK_2M),
                entry_bits(paddr.0 as u64, flags.0 | PRESENT | HUGE_PAGE) & ALL_FLAGS)),
            r is Ok ==> forall|a: u64| old(self).view_at(a) is Some && !same_region(a, vaddr, 1)
                ==> #[trigger] final(self).view_at(a) == old(self).view_at(a),
            r is Ok && no_pml4_huge(&old(self).mem, old(self).root as int) ==> no_pml4_huge(&final(self).mem, final(self).root as int)
                && leaf_level(&final(self).mem, final(self).root as int, vaddr) == 1,
    {
        if vaddr & MASK_2M != 0 {
            return Err(PtError::Misaligned2M);
        }
        if (paddr.0 as u64) & MASK_2M != 0 {
            return Err(PtError::PhysMisaligned2M);
        }
        let e = Entry::new(paddr, EntryFlags(flags.0 | PRESENT | HUGE_PAGE));
        proof {
            let p = paddr.0 as u64;
            let f = flags.0;
            assert(((p & 0x000f_ffff_ffff_f000u64) | (f | 1u64 | 0x80u64)) & 1u64 != 0) by (bit_vector);
            assert(((p & 0x000f_ffff_ffff_f000u64) | (f | 1u64 | 0x80u64)) & 0x80u64 != 0) by (bit_vector);
        }
        let ghost m0 = self.mem;
        let r = self.map_at(vaddr, e, 1);
        proof {
            if r is Ok {
                if no_pml4_huge(&m0, self.root as int) {
                    lemma_map_no_pml4_huge(&m0, &self.mem, self.root as int, vaddr, 1, e.0);
                }
                assert forall|a: u64| old(self).view_at(a) is Some && !same_region(a, vaddr, 1)
                    implies #[trigger] self.view_at(a) == old(self).view_at(a) by {
                    lemma_map_frame(&m0, &self.mem, self.root as int, vaddr, 1, e.0, a);
                }
            }
        }
        r
    }

    /// Maps the 1 GiB page at `vaddr` to `paddr` with `flags` (plus present
    /// and huge), creating a missing PDPT on the way.
    pub fn try_map1g(&mut self, vaddr: u64, paddr: Paddr, flags: EntryFlags) -> (r: Result<(), PtError>)
        requires
            old(self).wf(),
        ensures
            final(self).wf(),
            final(self).root == old(self).root,
            final(self).cr3 == old(self).cr3,
            final(self).owned == old(self).owned,
            final(self).mem.len() <= old(self).mem.len() + 3,
            vaddr & MASK_1G != 0 ==> r == Err::<(), PtError>(PtError::Misaligned1G) && *final(self) == *old(self),
            vaddr & MASK_1G == 0 && (paddr.0 as u64) & MASK_1G != 0 ==> r == Err::<(), PtError>(PtError::PhysMisaligned1G)
                && *final(self) == *old(self),
            vaddr & MASK_1G == 0 && (paddr.0 as u64) & MASK_1G == 0 ==> map_outcome(&old(self).mem, &final(self).mem,
                old(self).root as int, vaddr, 2, entry_bits(paddr.0 as u64, flags.0 | PRESENT | HUGE_PAGE), r),
            r is Ok && !pml4_huge(&old(self).mem, old(self).root as int, vaddr) ==> final(self).view_at(vaddr) == Some((
                address_bits(entry_bits(paddr.0 as u64, flags.0 | PRESENT | HUGE_PAGE)) + (vaddr & MASK_1G),
                entry_bits(paddr.0 as u64, flags.0 | PRESENT | HUGE_PAGE) & ALL_FLAGS)),
            r is Ok ==> forall|a: u64| old(self).view_at(a) is Some && !same_region(a, vaddr, 2)
                ==> #[trigger] final(self).view_at(a) == old(self).view_at(a),
            r is Ok && no_pml4_huge(&old(self).mem, old(self).root as int) ==> no_pml4_huge(&final(self).mem, final(self).root as int)
                && leaf_level(&final(self).mem, final(self).root as int, vaddr) == 2,
    {
        if vaddr & MASK_1G != 0 {
            return Err(PtError::Misaligned1G);
        }
        if (paddr.0 as u64) & MASK_1G != 0 {
            return Err(PtError::PhysMisaligned1G);
        }
        let e = Entry::new(paddr, EntryFlags(flags.0 | PRESENT | HUGE_PAGE));
        proof {
            let p = paddr.0 as u64;
            let f = flags.0;
            assert(((p & 0x000f_ffff_ffff_f000u64) | (f | 1u64 | 0x80u64)) & 1u64 != 0) by (bit_vector);
            assert(((p & 0x000f_ffff_ffff_f000u64) | (f | 1u64 | 0x80u64)) & 0x80u64 != 0) by (bit_vector);
        }
        let ghost m0 = self.mem;
        let r = self.map_at(vaddr, e, 2);
        proof {
            if r is Ok {
                if no_pml4_huge(&m0, self.root as int) {
                    lemma_map_no_pml4_huge(&m0, &self.mem, self.root as int, vaddr, 2, e.0);
                }
                assert forall|a: u64| old(self).view_at(a) is Some && !same_region(a, vaddr, 2)
                    implies #[trigger] self.view_at(a) == old(self).view_at(a) by {
                    lemma_map_frame(&m0, &self.mem, self.root as int, vaddr, 2, e.0, a);
                }
            }
        }
        r
    }
}

/// The outcome of a creating map at level `lvl` of entry value `e` for `v`:
/// success rewrites the slot the walk reaches; failure comes from a huge
/// page in the way or a full pool.
pub open spec fn map_outcome(old: &PtMem, new: &PtMem, root: int, v: u64, lvl: int, e: u64, r: Result<(), PtError>) -> bool {
    &&& r is Ok ==> updated_along(old, new, root, v, lvl, e)
    &&& r matches Err(x) ==> grows_along(old, new, root, v, lvl + 1) && (x == PtError::OutOfTables
        || (x == PtError::Huge1G && blocked_1g(old, root, v, lvl))
        || (x == PtError::Huge2M && blocked_2m(old, root, v, lvl)))
    &&& blocked_1g(old, root, v, lvl) ==> r == Err::<(), PtError>(PtError::Huge1G)
    &&& blocked_2m(old, root, v, lvl) ==> r == Err::<(), PtError>(PtError::Huge2M)
    &&& old.base + 4096 * (old.len() + 3) <= PHYS_LIMIT && !blocked_1g(old, root, v, lvl) && !blocked_2m(old, root, v, lvl)
        ==> r is Ok
}

/// A creating walk followed by a write of the slot it reached gives an
/// update along the walk.
proof fn lemma_updated_after_write(old: &PtMem, mid: &PtMem, new: &PtMem, root: int, v: u64, lvl: int)
    requires
        0 <= lvl <= 2,
        old.wf(), mid.wf(), new.wf(),
        is_root(mid, root),
        grows_along(old, mid, root, v, lvl + 1),
        path_ok(mid, root, v, lvl),
        new.base == mid.base,
        new.len() == mid.len(),
        new.levels == mid.levels,
        forall|t2: int, j2: int| 0 <= t2 < mid.len() && 0 <= j2 < 512 && (t2, j2) != path_slot(mid, root, v, lvl)
            ==> #[trigger] new.ent(t2, j2) == mid.ent(t2, j2),
    ensures
        forall|k: int| lvl <= k <= 3 ==> #[trigger] path_slot(new, root, v, k) == path_slot(mid, root, v, k),
        updated_along(old, new, root, v, lvl, new.ent(path_slot(mid, root, v, lvl).0, path_slot(mid, root, v, lvl).1)),
{
    reveal_with_fuel(path_slot, 4);
    reveal_with_fuel(path_ok, 4);
    let s = path_slot(mid, root, v, lvl);
    lemma_path_slot(mid, root, v, lvl);
    lemma_path_slot(mid, root, v, 3);
    if lvl <= 1 { lemma_path_slot(mid, root, v, 2); }
    if lvl == 0 { lemma_path_slot(mid, root, v, 1); }
    assert forall|k: int| lvl <= k <= 3 implies #[trigger] path_slot(new, root, v, k) == path_slot(mid, root, v, k) by {
    }
    assert(path_ok(new, root, v, lvl));
    assert forall|t: int, j: int| 0 <= t < old.len() && 0 <= j < 512 && (t, j) != s && #[trigger] new.ent(t, j) != old.ent(t, j)
        implies !is_present_bits(old.ent(t, j)) && !is_huge_bits(new.ent(t, j)) && on_path(new, root, v, t, j, lvl + 1) && new.child(new.ent(t, j)) >= old.len() by {
        assert(new.ent(t, j) == mid.ent(t, j));
        assert(on_path(mid, root, v, t, j, lvl + 1));
    }
    assert forall|t: int, j: int| old.len() <= t < new.len() && 0 <= j < 512 && (t, j) != s && #[trigger] new.ent(t, j) != 0
        implies on_path(new, root, v, t, j, lvl + 1) && !is_huge_bits(new.ent(t, j)) && new.child(new.ent(t, j)) >= old.len() by {
        assert(new.ent(t, j) == mid.ent(t, j));
        assert(on_path(mid, root, v, t, j, lvl + 1));
    }
    assert(path_slot(new, root, v, lvl) == s);
    assert forall|t: int| 0 <= t < old.len() implies #[trigger] new.level(t) == old.level(t) by {
        assert(mid.level(t) == old.level(t));
    }
    assert(new.base == old.base);
    assert(old.len() <= new.len());
}

/// The offset mask of a page mapped at `lvl` (0: 4 KiB, 1: 2 MiB, 2: 1 GiB).
pub open spec fn offset_mask(lvl: int) -> u64 {
    if lvl == 0 { 0xfffu64 } else if lvl == 1 { 0x1f_ffffu64 } else { 0x3fff_ffffu64 }
}

/// Whether the PML4 entry that the walk for `v` starts from is present with
/// the huge-page bit (which x86_64 reserves at that level).
pub open spec fn pml4_huge(mem: &PtMem, root: int, v: u64) -> bool {
    is_present_bits(path_ent(mem, root, v, 3)) && is_huge_bits(path_ent(mem, root, v, 3))
}

/// After an update along the walk for `v` that leaves a present entry at
/// level `lvl` (a huge page above level 0), `v` translates through it.
pub proof fn lemma_translate_after_update(old: &PtMem, new: &PtMem, root: int, v: u64, lvl: int, e: u64)
    requires
        old.wf(), new.wf(),
        is_root(old, root),
        0 <= lvl <= 2,
        updated_along(old, new, root, v, lvl, e),
        is_present_bits(e),
        lvl > 0 ==> is_huge_bits(e),
        !pml4_huge(old, root, v),
    ensures
        translate(new, root, v) == Some((address_bits(e) + (v & offset_mask(lvl)), e & ALL_FLAGS)),
{
    reveal_with_fuel(path_slot, 4);
    reveal_with_fuel(path_ok, 4);
    let r = path_slot(new, root, v, 3);
    assert(0 <= r.1 < 512) by { lemma_path_slot(new, root, v, 3); }
    if lvl < 3 {
        // the PML4 entry is either the old one or a new pointer
        if new.ent(r.0, r.1) != old.ent(r.0, r.1) {
        }
    }
    assert(!is_huge_bits(path_ent(new, root, v, 3)));
}

/// The slot that unmapping `v` clears: the present PT entry, else a
/// present 2 MiB page, else a present 1 GiB page.
pub open spec fn unmap_slot(mem: &PtMem, root: int, v: u64) -> Option<(int, int)> {
    match walk_mut_spec(mem, root, v, 0) {
        Ok(s) => Some(s),
        Err(_) => match walk_mut_spec(mem, root, v, 1) {
            Ok(s) if is_present_bits(mem.ent(s.0, s.1)) && is_huge_bits(mem.ent(s.0, s.1)) => Some(s),
            _ => match walk_mut_spec(mem, root, v, 2) {
                Ok(s) if is_present_bits(mem.ent(s.0, s.1)) && is_huge_bits(mem.ent(s.0, s.1)) => Some(s),
                _ => None,
            },
        },
    }
}

/// Whether `new` is `old` with slot `s` set to `e`.
pub open spec fn set_slot(old: &PtMem, new: &PtMem, s: (int, int), e: u64) -> bool {
    &&& new.base == old.base
    &&& new.len() == old.len()
    &&& new.levels == old.levels
    &&& new.ent(s.0, s.1) == e
    &&& forall|t: int, j: int| 0 <= t < old.len() && 0 <= j < 512 && (t, j) != s ==> #[trigger] new.ent(t, j) == old.ent(t, j)
}

impl Exco {
    /// Unmaps the page (4 KiB, 2 MiB or 1 GiB) that holds `vaddr`.
    pub fn try_unmap(&mut self, vaddr: u64) -> (r: Result<(), PtError>)
        requires
            old(self).wf(),
        ensures
            final(self).wf(),
            final(self).root == old(self).root,
            final(self).cr3 == old(self).cr3,
            final(self).owned == old(self).owned,
            unmap_slot(&old(self).mem, old(self).root as int, vaddr) is None
                ==> r == Err::<(), PtError>(PtError::NotMapped) && *final(self) == *old(self),
            unmap_slot(&old(self).mem, old(self).root as int, vaddr) matches Some(s)
                ==> r is Ok && set_slot(&old(self).mem, &final(self).mem, s, 0),
            r is Ok ==> final(self).view_at(vaddr) is None,
            r is Ok ==> forall|a: u64| !same_region(a, vaddr, unmap_level(&old(self).mem, old(self).root as int, vaddr))
                ==> #[trigger] final(self).view_at(a) == old(self).view_at(a),
    {
        reveal_with_fuel(path_slot, 4);
        reveal_with_fuel(path_ok, 4);
        let ghost m0 = self.mem;
        let ghost rt = self.root as int;
        assert(0u64 & 1u64 == 0) by { crate::paging::table::lemma_zero_flags(); }
        if let Ok((t, j)) = walk_entry_mut(&mut self.mem, self.root, vaddr, 0, false) {
            let e = self.mem.read(t, j);
            if e.is_present() {
                self.mem.write(t, j, Entry(0));
                proof {
                    lemma_unmapped(&m0, &self.mem, rt, vaddr, 0);
                    lemma_unmap_frame_all(&m0, &self.mem, rt, vaddr);
                }
                return Ok(());
            }
        }
        if let Ok((t, j)) = walk_entry_mut(&mut self.mem, self.root, vaddr, 1, false) {
            let e = self.mem.read(t, j);
            if e.is_present() && is_huge(&e) {
                self.mem.write(t, j, Entry(0));
                proof {
                    lemma_unmapped(&m0, &self.mem, rt, vaddr, 1);
                    lemma_unmap_frame_all(&m0, &self.mem, rt, vaddr);
                }
                return Ok(());
            }
        }
        if let Ok((t, j)) = walk_entry_mut(&mut self.mem, self.root, vaddr, 2, false) {
            let e = self.mem.read(t, j);
            if e.is_present() && is_huge(&e) {
                self.mem.write(t, j, Entry(0));
                proof {
                    lemma_unmapped(&m0, &self.mem, rt, vaddr, 2);
                    lemma_unmap_frame_all(&m0, &self.mem, rt, vaddr);
                }
                return Ok(());
            }
        }
        Err(PtError::NotMapped)
    }
}

/// Clearing the slot that the walk for `v` reaches at `lvl` unmaps `v`.
proof fn lemma_unmapped(old: &PtMem, new: &PtMem, root: int, v: u64, lvl: int)
    requires
        old.wf(), new.wf(),
        is_root(old, root),
        0 <= lvl <= 2,
        walk_mut_spec(old, root, v, lvl) is Ok,
        set_slot(old, new, walk_mut_spec(old, root, v, lvl)->Ok_0, 0),
        lvl == 0 || is_huge_bits(old.ent(walk_mut_spec(old, root, v, lvl)->Ok_0.0, walk_mut_spec(old, root, v, lvl)->Ok_0.1)),
        lvl >= 1 ==> walk_mut_spec(old, root, v, 0) is Err,
        lvl == 2 ==> !(walk_mut_spec(old, root, v, 1) matches Ok(s) && is_present_bits(old.ent(s.0, s.1)) && is_huge_bits(old.ent(s.0, s.1))),
    ensures
        translate(new, root, v) is None,
{
    reveal_with_fuel(path_slot, 4);
    reveal_with_fuel(path_ok, 4);
    assert(0u64 & 1u64 == 0) by { crate::paging::table::lemma_zero_flags(); }
    lemma_path_slot(old, root, v, 3);
    assert(old.is_ptr_slot(path_slot(old, root, v, 3).0, path_slot(old, root, v, 3).1));
    lemma_path_slot(old, root, v, 2);
    if lvl <= 1 {
        assert(path_ok(old, root, v, 1));
        lemma_path_slot(old, root, v, 1);
        if lvl == 0 {
            assert(path_ok(old, root, v, 0));
            lemma_path_slot(old, root, v, 0);
        }
    }
}

/// Whether `new` is `old` with the huge page at slot `s` (of a table of
/// level `lvl`, 1 or 2) replaced by a new table `old.len()` of 512 entries,
/// entry `i` mapping `address + i * step` with the huge page's flags (less the
/// huge-page bit at level 1, kept at level 2).
pub open spec fn split_slot(old: &PtMem, new: &PtMem, s: (int, int), lvl: int) -> bool {
    let e = old.ent(s.0, s.1);
    let c = old.len();
    let step: int = if lvl == 1 { 4096 } else { 0x20_0000 };
    let flags: u64 = if lvl == 1 { (e & ALL_FLAGS) & !HUGE_PAGE } else { e & ALL_FLAGS };
    &&& new.base == old.base
    &&& new.len() == c + 1
    &&& new.level(c) == lvl - 1
    &&& forall|t: int| 0 <= t < c ==> #[trigger] new.level(t) == old.level(t)
    &&& new.is_ptr_slot(s.0, s.1)
    &&& new.child(new.ent(s.0, s.1)) == c
    &&& !is_huge_bits(new.ent(s.0, s.1))
    &&& forall|i: int| 0 <= i < 512 ==> #[trigger] new.ent(c, i)
        == (((address_bits(e) + i * step) as u64 & address_mask_spec()) | flags)
    &&& forall|t: int, j: int| 0 <= t < c && 0 <= j < 512 && (t, j) != s ==> #[trigger] new.ent(t, j) == old.ent(t, j)
}

/// The physical-address bits of an entry (for specifications).
pub open spec fn address_mask_spec() -> u64 {
    0x000f_ffff_ffff_f000u64
}

impl Exco {
    /// Replaces the huge page at slot `(t, j)` (level `lvl`) by a table of 512
    /// smaller pages covering the same memory.
    fn split_at(&mut self, t: usize, j: usize, lvl: u8) -> (r: Result<(), PtError>)
        requires
            old(self).wf(),
            1 <= lvl <= 2,
            t < old(self).mem.len(),
            j < 512,
            old(self).mem.level(t as int) == lvl,
            is_present_bits(old(self).mem.ent(t as int, j as int)),
            is_huge_bits(old(self).mem.ent(t as int, j as int)),
        ensures
            final(self).wf(),
            final(self).root == old(self).root,
            final(self).cr3 == old(self).cr3,
            final(self).owned == old(self).owned,
            r is Err <==> old(self).mem.base + 4096 * (old(self).mem.len() + 1) > PHYS_LIMIT,
            r matches Err(x) ==> x == PtError::OutOfTables && *final(self) == *old(self),
            r is Ok ==> split_slot(&old(self).mem, &final(self).mem, (t as int, j as int), lvl as int),
    {
        let ghost m0 = self.mem;
        let e = self.mem.read(t, j);
        let ev: u64 = e.0;
        let base = ev & ADDRESS_MASK_EXEC;
        let flags: u64 = if lvl == 1 { (ev & ALL_FLAGS) & !HUGE_PAGE } else { ev & ALL_FLAGS };
        let step: u64 = if lvl == 1 { 4096 } else { 0x20_0000 };
        let c = self.mem.alloc_tab_zeroed(lvl - 1)?;
        let ghost m1 = self.mem;
        assert(base < 0x10_0000_0000_0000) by (bit_vector)
            requires base == ev & 0x000f_ffff_ffff_f000u64;
        let mut i: usize = 0;
        while i < 512
            invariant
                self.mem.wf(),
                1 <= lvl <= 2,
                t < m0.len(),
                j < 512,
                self.root == old(self).root,
                self.cr3 == old(self).cr3,
                self.owned == old(self).owned,
                is_root(&self.mem, self.root as int),
                self.mem.base == m1.base,
                self.mem.len() == m1.len(),
                self.mem.levels == m1.levels,
                c == m0.len(),
                c < self.mem.len(),
                i <= 512,
                base == address_bits(m0.ent(t as int, j as int)),
                base < 0x10_0000_0000_0000,
                ev == m0.ent(t as int, j as int),
                is_huge_bits(ev),
                flags == (if lvl == 1 { (ev & ALL_FLAGS) & !HUGE_PAGE } else { ev & ALL_FLAGS }),
                step == (if lvl == 1 { 4096u64 } else { 0x20_0000u64 }),
                lvl - 1 == self.mem.level(c as int),
                forall|k: int| 0 <= k < i ==> #[trigger] self.mem.ent(c as int, k)
                    == (((base + k * step) as u64 & address_mask_spec()) | flags),
                forall|t2: int, j2: int| 0 <= t2 < m0.len() && 0 <= j2 < 512 ==> #[trigger] self.mem.ent(t2, j2) == m1.ent(t2, j2),
            decreases 512 - i,
        {
            let a: u64 = base + (i as u64) * step;
            let ne = Entry((a & ADDRESS_MASK_EXEC) | flags);
            proof {
                if lvl == 2 {
                    lemma_or_keeps_huge(a, flags, ev);
                    assert(is_huge_bits(ne.0));
                    assert(self.mem.level(c as int) == 1);
                    assert(!is_table_ptr(self.mem.level(c as int), ne.0));
                } else {
                    assert(self.mem.level(c as int) == 0);
                    assert(!is_table_ptr(self.mem.level(c as int), ne.0));
                }
            }
            let ghost mi = self.mem;
            self.mem.write(c, i, ne);
            proof {
                assert forall|k: int| 0 <= k < i + 1 implies #[trigger] self.mem.ent(c as int, k)
                    == (((base + k * step) as u64 & address_mask_spec()) | flags) by {
                    if k < i {
                        assert(self.mem.ent(c as int, k) == mi.ent(c as int, k));
                    }
                }
                assert forall|t2: int, j2: int| 0 <= t2 < m0.len() && 0 <= j2 < 512 implies #[trigger] self.mem.ent(t2, j2) == m1.ent(t2, j2) by {
                    assert(self.mem.ent(t2, j2) == mi.ent(t2, j2));
                }
            }
            i = i + 1;
        }
        let a = self.mem.addr_of(c);
        let ghost m2 = self.mem;
        proof {
            assert(m1.level(t as int) == m0.level(t as int));
            lemma_table_pointer_bits(a);
            assert(self.mem.child(a | 3u64) == c);
            assert forall|t2: int, j2: int| #[trigger] self.mem.is_ptr_slot(t2, j2) && (t2, j2) != (t as int, j as int)
                implies self.mem.child(self.mem.ent(t2, j2)) != self.mem.child(a | 3u64) by {
                if t2 == c {
                    if lvl == 2 {
                        let x = (base + j2 * step) as u64;
                        lemma_or_keeps_huge(x, flags, ev);
                    }
                } else {
                    assert(self.mem.ent(t2, j2) == m0.ent(t2, j2));
                    assert(m1.level(t2) == m0.level(t2));
                    assert(m0.is_ptr_slot(t2, j2));
                }
            }
        }
        self.mem.write(t, j, Entry(a | 3));
        proof {
            assert(self.mem.level(t as int) == lvl);
            assert(self.mem.is_ptr_slot(t as int, j as int));
            assert forall|k: int| 0 <= k < 512 implies #[trigger] self.mem.ent(c as int, k)
                == (((address_bits(m0.ent(t as int, j as int)) + k * (if lvl == 1 { 4096int } else { 0x20_0000int })) as u64 & address_mask_spec())
                    | (if lvl == 1 { (m0.ent(t as int, j as int) & ALL_FLAGS) & !HUGE_PAGE } else { m0.ent(t as int, j as int) & ALL_FLAGS })) by {
                assert(self.mem.ent(c as int, k) == m2.ent(c as int, k));
            }
            assert forall|t2: int, j2: int| 0 <= t2 < c && 0 <= j2 < 512 && (t2, j2) != (t as int, j as int)
                implies #[trigger] self.mem.ent(t2, j2) == m0.ent(t2, j2) by {
                assert(self.mem.ent(t2, j2) == m2.ent(t2, j2));
            }
            assert forall|t2: int| 0 <= t2 < c implies #[trigger] self.mem.level(t2) == m0.level(t2) by {
                assert(m1.level(t2) == m0.level(t2));
            }
        }
        Ok(())
    }
}

/// An entry built with the flags of a huge page is a huge page.
proof fn lemma_or_keeps_huge(x: u64, f: u64, e: u64)
    requires
        f == e & 0x8070_0000_0000_01ffu64,
        e & 0x80u64 != 0,
    ensures
        is_huge_bits((x & 0x000f_ffff_ffff_f000u64) | f),
{
    assert(((x & 0x000f_ffff_ffff_f000u64) | f) & 0x80u64 != 0) by (bit_vector)
        requires f == e & 0x8070_0000_0000_01ffu64, e & 0x80u64 != 0;
}

/// The flags of an entry that a merge compares: all defined flags but the
/// accessed and dirty bits.
pub open spec fn merge_flags(e: u64) -> u64 {
    (e & ALL_FLAGS) & !ACCESSED & !DIRTY
}

/// Whether entry `i` of table `c` keeps a merge at `lvl` (1: PT entries
/// into a 2 MiB page, 2: PD 2 MiB pages into a 1 GiB page) from happening.
pub open spec fn merge_bad(mem: &PtMem, c: int, lvl: int, i: int) -> bool {
    let e = mem.ent(c, i);
    let first = mem.ent(c, 0);
    let step: int = if lvl == 1 { 4096 } else { 0x20_0000 };
    ||| !is_present_bits(e)
    ||| lvl == 2 && !is_huge_bits(e)
    ||| i > 0 && merge_flags(e) != merge_flags(first)
    ||| i > 0 && address_bits(e) != address_bits(first) + i * step
}

/// The error that a merge reports for its first blocking entry `i`.
pub open spec fn merge_error(mem: &PtMem, c: int, lvl: int, i: int) -> PtError {
    let e = mem.ent(c, i);
    if !is_present_bits(e) || (lvl == 2 && !is_huge_bits(e)) {
        if lvl == 2 { PtError::MergeNotHuge } else { PtError::MergeHole }
    } else if merge_flags(e) != merge_flags(mem.ent(c, 0)) {
        PtError::MergeFlags
    } else {
        PtError::MergeDiscontiguous
    }
}

/// The entry that a successful merge of table `c` writes: the first
/// entry's address with its compared flags, present and huge.
pub open spec fn merged_entry(mem: &PtMem, c: int) -> u64 {
    address_bits(mem.ent(c, 0)) | merge_flags(mem.ent(c, 0)) | 0x80u64 | 0x1u64
}

impl Exco {
    /// Replaces the table that slot `(t, j)` (level `lvl`, 1 or 2) points to
    /// by one huge page, if its 512 entries map one contiguous range with
    /// the same flags; the table is released.
    fn merge_at(&mut self, t: usize, j: usize, lvl: u8) -> (r: Result<(), PtError>)
        requires
            old(self).wf(),
            1 <= lvl <= 2,
            t < old(self).mem.len(),
            j < 512,
            old(self).mem.level(t as int) == lvl,
            old(self).mem.is_ptr_slot(t as int, j as int),
        ensures
            final(self).wf(),
            final(self).root == old(self).root,
            final(self).cr3 == old(self).cr3,
            final(self).owned == old(self).owned,
            ({
                let c = old(self).mem.child(old(self).mem.ent(t as int, j as int));
                &&& r is Ok <==> forall|i: int| 0 <= i < 512 ==> !#[trigger] merge_bad(&old(self).mem, c, lvl as int, i)
                &&& r matches Err(x) ==> final(self).mem.tabs@ == old(self).mem.tabs@
                    && final(self).mem.levels == old(self).mem.levels && final(self).mem.base == old(self).mem.base
                    && exists|i: int| 0 <= i < 512 && #[trigger] merge_bad(&old(self).mem, c, lvl as int, i)
                        && (forall|k: int| 0 <= k < i ==> !#[trigger] merge_bad(&old(self).mem, c, lvl as int, k))
                        && x == merge_error(&old(self).mem, c, lvl as int, i)
                &&& r is Ok ==> set_slot(&old(self).mem, &final(self).mem, (t as int, j as int), merged_entry(&old(self).mem, c))
                &&& r is Ok ==> released_alone(&old(self).mem, &final(self).mem, c)
            }),
    {
        let e = self.mem.read(t, j);
        let c = self.mem.tab_index(&e, Ghost(lvl - 1));
        let first = self.mem.read(c, 0);
        let fv: u64 = first.0;
        let first_flags: u64 = (fv & ALL_FLAGS) & !ACCESSED & !DIRTY;
        let first_addr: u64 = fv & ADDRESS_MASK_EXEC;
        let step: u64 = if lvl == 1 { 4096 } else { 0x20_0000 };
        let ghost m0 = self.mem;
        let ghost cc = c as int;
        if !first.is_present() || (lvl == 2 && !is_huge(&first)) {
            proof {
                assert(merge_bad(&m0, cc, lvl as int, 0));
            }
            return Err(if lvl == 2 { PtError::MergeNotHuge } else { PtError::MergeHole });
        }
        proof {
            assert(!merge_bad(&m0, cc, lvl as int, 0));
        }
        assert(first_addr < 0x10_0000_0000_0000) by (bit_vector)
            requires first_addr == fv & 0x000f_ffff_ffff_f000u64;
        let mut i: usize = 1;
        while i < 512
            invariant
                self.mem == m0,
                m0 == old(self).mem,
                cc == old(self).mem.child(old(self).mem.ent(t as int, j as int)),
                t < m0.len(),
                j < 512,
                m0.level(t as int) == lvl,
                m0.is_ptr_slot(t as int, j as int),
                self.mem.wf(),
                self.root == old(self).root,
                self.cr3 == old(self).cr3,
                self.owned == old(self).owned,
                is_root(&self.mem, self.root as int),
                c < self.mem.len(),
                cc == c,
                1 <= i <= 512,
                fv == m0.ent(cc, 0),
                first_flags == merge_flags(fv),
                first_addr == address_bits(fv),
                first_addr < 0x10_0000_0000_0000,
                step == (if lvl == 1 { 4096u64 } else { 0x20_0000u64 }),
                1 <= lvl <= 2,
                forall|k: int| 0 <= k < i ==> !#[trigger] merge_bad(&m0, cc, lvl as int, k),
            decreases 512 - i,
        {
            let ei = self.mem.read(c, i);
            if !ei.is_present() || (lvl == 2 && !is_huge(&ei)) {
                proof {
                    let ii = i as int;
                    assert(merge_bad(&m0, cc, lvl as int, ii));
                    assert(merge_error(&m0, cc, lvl as int, ii) == (if lvl == 2 { PtError::MergeNotHuge } else { PtError::MergeHole }));
                    assert(forall|k: int| 0 <= k < ii ==> !#[trigger] merge_bad(&m0, cc, lvl as int, k));
                }
                return Err(if lvl == 2 { PtError::MergeNotHuge } else { PtError::MergeHole });
            }
            let ev: u64 = ei.0;
            if (ev & ALL_FLAGS) & !ACCESSED & !DIRTY != first_flags {
                proof {
                    let ii = i as int;
                    assert(merge_bad(&m0, cc, lvl as int, ii));
                    assert(merge_error(&m0, cc, lvl as int, ii) == PtError::MergeFlags);
                    assert(forall|k: int| 0 <= k < ii ==> !#[trigger] merge_bad(&m0, cc, lvl as int, k));
                }
                return Err(PtError::MergeFlags);
            }
            assert((i as u64) * step <= 0x4000_0000) by (nonlinear_arith)
                requires i < 512, step <= 0x20_0000;
            let expected: u64 = first_addr + (i as u64) * step;
            if ev & ADDRESS_MASK_EXEC != expected {
                proof {
                    let ii = i as int;
                    assert(merge_bad(&m0, cc, lvl as int, ii));
                    assert(merge_error(&m0, cc, lvl as int, ii) == PtError::MergeDiscontiguous);
                    assert(forall|k: int| 0 <= k < ii ==> !#[trigger] merge_bad(&m0, cc, lvl as int, k));
                }
                return Err(PtError::MergeDiscontiguous);
            }
            proof {
                assert(!merge_bad(&m0, cc, lvl as int, i as int));
            }
            i = i + 1;
        }
        let ne = Entry(first_addr | first_flags | HUGE_PAGE | PRESENT);
        proof {
            assert(((first_addr | first_flags | 0x80u64 | 0x1u64) & 0x80u64) != 0) by (bit_vector);
        }
        self.mem.write(t, j, ne);
        let ghost m1 = self.mem;
        self.mem.release(c);
        proof {
            assert forall|t2: int, j2: int| 0 <= t2 < m0.len() && 0 <= j2 < 512 && (t2, j2) != (t as int, j as int)
                implies #[trigger] self.mem.ent(t2, j2) == m0.ent(t2, j2) by {
                assert(m1.ent(t2, j2) == m0.ent(t2, j2));
            }
            assert forall|t2: int, j2: int| #[trigger] self.mem.is_ptr_slot(t2, j2)
                implies self.mem.child(self.mem.ent(t2, j2)) != cc by {
                if (t2, j2) != (t as int, j as int) {
                    assert(self.mem.ent(t2, j2) == m0.ent(t2, j2));
                    assert(m0.is_ptr_slot(t2, j2));
                    assert(m0.is_ptr_slot(t as int, j as int));
                }
            }
        }
        Ok(())
    }

    /// Splits the 2 MiB page at `vaddr` into 512 pages of 4 KiB.
    pub fn try_split2m(&mut self, vaddr: u64) -> (r: Result<(), PtError>)
        requires
            old(self).wf(),
        ensures
            final(self).wf(),
            final(self).root == old(self).root,
            final(self).cr3 == old(self).cr3,
            final(self).owned == old(self).owned,
            split_outcome(&old(self).mem, &final(self).mem, old(self).root as int, vaddr, 1, r),
            r is Ok ==> forall|a: u64| !same_region(a, vaddr, 1) ==> #[trigger] final(self).view_at(a) == old(self).view_at(a),
    {
        if vaddr & MASK_2M != 0 {
            return Err(PtError::Misaligned2M);
        }
        let (t, j) = walk_entry_mut(&mut self.mem, self.root, vaddr, 1, false)?;
        let e = self.mem.read(t, j);
        if !e.is_present() || !is_huge(&e) {
            return Err(PtError::Not2M);
        }
        let ghost m0 = self.mem;
        let r = self.split_at(t, j, 1);
        proof {
            if r is Ok {
                lemma_split_frame_all(&m0, &self.mem, self.root as int, vaddr, 1);
            }
        }
        r
    }

    /// Splits the 1 GiB page at `vaddr` into 512 pages of 2 MiB.
    pub fn try_split1g(&mut self, vaddr: u64) -> (r: Result<(), PtError>)
        requires
            old(self).wf(),
        ensures
            final(self).wf(),
            final(self).root == old(self).root,
            final(self).cr3 == old(self).cr3,
            final(self).owned == old(self).owned,
            split_outcome(&old(self).mem, &final(self).mem, old(self).root as int, vaddr, 2, r),
            r is Ok ==> forall|a: u64| !same_region(a, vaddr, 2) ==> #[trigger] final(self).view_at(a) == old(self).view_at(a),
    {
        if vaddr & MASK_1G != 0 {
            return Err(PtError::Misaligned1G);
        }
        let (t, j) = walk_entry_mut(&mut self.mem, self.root, vaddr, 2, false)?;
        let e = self.mem.read(t, j);
        if !e.is_present() || !is_huge(&e) {
            return Err(PtError::Not1G);
        }
        let ghost m0 = self.mem;
        let r = self.split_at(t, j, 2);
        proof {
            if r is Ok {
                lemma_split_frame_all(&m0, &self.mem, self.root as int, vaddr, 2);
            }
        }
        r
    }

    /// Merges the 512 pages of 4 KiB at `vaddr` (2 MiB-aligned) into one 2 MiB page.
    pub fn try_merge2m(&mut self, vaddr: u64) -> (r: Result<(), PtError>)
        requires
            old(self).wf(),
        ensures
            final(self).wf(),
            final(self).root == old(self).root,
            final(self).cr3 == old(self).cr3,
            final(self).owned == old(self).owned,
            merge_outcome(&old(self).mem, &final(self).mem, old(self).root as int, vaddr, 1, r),
    {
        if vaddr & MASK_2M != 0 {
            return Err(PtError::Misaligned2M);
        }
        let (t, j) = walk_entry_mut(&mut self.mem, self.root, vaddr, 1, false)?;
        let e = self.mem.read(t, j);
        if !e.is_present() || is_huge(&e) {
            return Err(PtError::PdNotTable);
        }
        self.merge_at(t, j, 1)
    }

    /// Merges the 512 pages of 2 MiB at `vaddr` (1 GiB-aligned) into one 1 GiB page.
    pub fn try_merge1g(&mut self, vaddr: u64) -> (r: Result<(), PtError>)
        requires
            old(self).wf(),
        ensures
            final(self).wf(),
            final(self).root == old(self).root,
            final(self).cr3 == old(self).cr3,
            final(self).owned == old(self).owned,
            merge_outcome(&old(self).mem, &final(self).mem, old(self).root as int, vaddr, 2, r),
    {
        if vaddr & MASK_1G != 0 {
            return Err(PtError::Misaligned1G);
        }
        let (t, j) = walk_entry_mut(&mut self.mem, self.root, vaddr, 2, false)?;
        let e = self.mem.read(t, j);
        if !e.is_present() || is_huge(&e) {
            return Err(PtError::PdptNotTable);
        }
        self.merge_at(t, j, 2)
    }
}

/// The outcome of splitting the huge page at `v` on level `lvl`.
pub open spec fn split_outcome(old: &PtMem, new: &PtMem, root: int, v: u64, lvl: int, r: Result<(), PtError>) -> bool {
    let mask: u64 = if lvl == 1 { MASK_2M } else { MASK_1G };
    let not_huge = if lvl == 1 { PtError::Not2M } else { PtError::Not1G };
    let misaligned = if lvl == 1 { PtError::Misaligned2M } else { PtError::Misaligned1G };
    if v & mask != 0 {
        r == Err::<(), PtError>(misaligned) && new == old
    } else {
        match walk_mut_spec(old, root, v, lvl) {
            Err(x) => r == Err::<(), PtError>(x) && new == old,
            Ok(s) => if !(is_present_bits(old.ent(s.0, s.1)) && is_huge_bits(old.ent(s.0, s.1))) {
                r == Err::<(), PtError>(not_huge) && new == old
            } else if old.base + 4096 * (old.len() + 1) > PHYS_LIMIT {
                r == Err::<(), PtError>(PtError::OutOfTables) && new == old
            } else {
                r is Ok && split_slot(old, new, s, lvl)
            },
        }
    }
}

/// The outcome of merging the table at `v` on level `lvl` into a huge page.
pub open spec fn merge_outcome(old: &PtMem, new: &PtMem, root: int, v: u64, lvl: int, r: Result<(), PtError>) -> bool {
    let mask: u64 = if lvl == 1 { MASK_2M } else { MASK_1G };
    let not_table = if lvl == 1 { PtError::PdNotTable } else { PtError::PdptNotTable };
    let misaligned = if lvl == 1 { PtError::Misaligned2M } else { PtError::Misaligned1G };
    if v & mask != 0 {
        r == Err::<(), PtError>(misaligned) && new == old
    } else {
        match walk_mut_spec(old, root, v, lvl) {
            Err(x) => r == Err::<(), PtError>(x) && new == old,
            Ok(s) => if !(is_present_bits(old.ent(s.0, s.1)) && !is_huge_bits(old.ent(s.0, s.1))) {
                r == Err::<(), PtError>(not_table) && new == old
            } else {
                let c = old.child(old.ent(s.0, s.1));
                &&& r is Ok <==> forall|i: int| 0 <= i < 512 ==> !#[trigger] merge_bad(old, c, lvl, i)
                &&& r matches Err(x) ==> new.tabs@ == old.tabs@ && new.levels == old.levels && new.base == old.base
                    && exists|i: int| 0 <= i < 512 && #[trigger] merge_bad(old, c, lvl, i)
                        && (forall|k: int| 0 <= k < i ==> !#[trigger] merge_bad(old, c, lvl, k))
                        && x == merge_error(old, c, lvl, i)
                &&& r is Ok ==> set_slot(old, new, s, merged_entry(old, c))
                &&& r is Ok ==> released_alone(old, new, c)
            },
        }
    }
}

/// Whether `new` records table `c` as handed back (after the tables that
/// `old` records) and no slot of `new` leads to it any longer.
pub open spec fn released_alone(old: &PtMem, new: &PtMem, c: int) -> bool {
    &&& new.released@ == old.released@.push(c as usize)
    &&& forall|t: int, j: int| #[trigger] new.is_ptr_slot(t, j) ==> new.child(new.ent(t, j)) != c
}

impl Exco {
    /// Maps the 4 KiB page at `vaddr` to `paddr`; the page must be aligned,
    /// no huge page may lie in the way and the pool must have room for the
    /// tables of the walk.
    pub fn map4k(&mut self, vaddr: u64, paddr: Paddr, flags: EntryFlags)
        requires
            old(self).wf(),
            vaddr & MASK_4K == 0,
            old(self).mem.base + 4096 * (old(self).mem.len() + 3) <= PHYS_LIMIT,
            !blocked_1g(&old(self).mem, old(self).root as int, vaddr, 0),
            !blocked_2m(&old(self).mem, old(self).root as int, vaddr, 0),
        ensures
            final(self).wf(),
            final(self).root == old(self).root,
            final(self).cr3 == old(self).cr3,
            final(self).owned == old(self).owned,
            map_outcome(&old(self).mem, &final(self).mem, old(self).root as int, vaddr, 0,
                entry_bits(paddr.0 as u64, flags.0 | PRESENT), Ok(())),
            !pml4_huge(&old(self).mem, old(self).root as int, vaddr) ==> final(self).view_at(vaddr) == Some((
                address_bits(entry_bits(paddr.0 as u64, flags.0 | PRESENT)) + (vaddr & MASK_4K),
                entry_bits(paddr.0 as u64, flags.0 | PRESENT) & ALL_FLAGS)),
    {
        let _ = self.try_map4k(vaddr, paddr, flags);
    }

    /// Maps the 2 MiB page at `vaddr` to `paddr`; both must be aligned, no
    /// 1 GiB page may lie in the way and the pool must have room.
    pub fn map2m(&mut self, vaddr: u64, paddr: Paddr, flags: EntryFlags)
        requires
            old(self).wf(),
            vaddr & MASK_2M == 0,
            (paddr.0 as u64) & MASK_2M == 0,
            old(self).mem.base + 4096 * (old(self).mem.len() + 3) <= PHYS_LIMIT,
            !blocked_1g(&old(self).mem, old(self).root as int, vaddr, 1),
        ensures
            final(self).wf(),
            final(self).root == old(self).root,
            final(self).cr3 == old(self).cr3,
            final(self).owned == old(self).owned,
            map_outcome(&old(self).mem, &final(self).mem, old(self).root as int, vaddr, 1,
                entry_bits(paddr.0 as u64, flags.0 | PRESENT | HUGE_PAGE), Ok(())),
            !pml4_huge(&old(self).mem, old(self).root as int, vaddr) ==> final(self).view_at(vaddr) == Some((
                address_bits(entry_bits(paddr.0 as u64, flags.0 | PRESENT | HUGE_PAGE)) + (vaddr & MASK_2M),
                entry_bits(paddr.0 as u64, flags.0 | PRESENT | HUGE_PAGE) & ALL_FLAGS)),
    {
        let _ = self.try_map2m(vaddr, paddr, flags);
    }

    /// Maps the 1 GiB page at `vaddr` to `paddr`; both must be aligned and
    /// the pool must have room.
    pub fn map1g(&mut self, vaddr: u64, paddr: Paddr, flags: EntryFlags)
        requires
            old(self).wf(),
            vaddr & MASK_1G == 0,
            (paddr.0 as u64) & MASK_1G == 0,
            old(self).mem.base + 4096 * (old(self).mem.len() + 3) <= PHYS_LIMIT,
        ensures
            final(self).wf(),
            final(self).root == old(self).root,
            final(self).cr3 == old(self).cr3,
            final(self).owned == old(self).owned,
            map_outcome(&old(self).mem, &final(self).mem, old(self).root as int, vaddr, 2,
                entry_bits(paddr.0 as u64, flags.0 | PRESENT | HUGE_PAGE), Ok(())),
            !pml4_huge(&old(self).mem, old(self).root as int, vaddr) ==> final(self).view_at(vaddr) == Some((
                address_bits(entry_bits(paddr.0 as u64, flags.0 | PRESENT | HUGE_PAGE)) + (vaddr & MASK_1G),
                entry_bits(paddr.0 as u64, flags.0 | PRESENT | HUGE_PAGE) & ALL_FLAGS)),
    {
        let _ = self.try_map1g(vaddr, paddr, flags);
    }

    /// Unmaps the page that holds `vaddr`, which must be mapped.
    pub fn unmap(&mut self, vaddr: u64)
        requires
            old(self).wf(),
            unmap_slot(&old(self).mem, old(self).root as int, vaddr) is Some,
        ensures
            final(self).wf(),
            final(self).root == old(self).root,
            final(self).cr3 == old(self).cr3,
            final(self).owned == old(self).owned,
            set_slot(&old(self).mem, &final(self).mem, unmap_slot(&old(self).mem, old(self).root as int, vaddr)->Some_0, 0),
            final(self).view_at(vaddr) is None,
    {
        let _ = self.try_unmap(vaddr);
    }

    /// Splits the 2 MiB page at `vaddr`, which must be one, into 4 KiB pages.
    pub fn split2m(&mut self, vaddr: u64)
        requires
            old(self).wf(),
            vaddr & MASK_2M == 0,
            walk_mut_spec(&old(self).mem, old(self).root as int, vaddr, 1) is Ok,
            is_present_bits(old(self).mem.ent(walk_mut_spec(&old(self).mem, old(self).root as int, vaddr, 1)->Ok_0.0,
                walk_mut_spec(&old(self).mem, old(self).root as int, vaddr, 1)->Ok_0.1)),
            is_huge_bits(old(self).mem.ent(walk_mut_spec(&old(self).mem, old(self).root as int, vaddr, 1)->Ok_0.0,
                walk_mut_spec(&old(self).mem, old(self).root as int, vaddr, 1)->Ok_0.1)),
            old(self).mem.base + 4096 * (old(self).mem.len() + 1) <= PHYS_LIMIT,
        ensures
            final(self).wf(),
            final(self).root == old(self).root,
            final(self).cr3 == old(self).cr3,
            final(self).owned == old(self).owned,
            split_outcome(&old(self).mem, &final(self).mem, old(self).root as int, vaddr, 1, Ok(())),
    {
        let _ = self.try_split2m(vaddr);
    }

    /// Splits the 1 GiB page at `vaddr`, which must be one, into 2 MiB pages.
    pub fn split1g(&mut self, vaddr: u64)
        requires
            old(self).wf(),
            vaddr & MASK_1G == 0,
            walk_mut_spec(&old(self).mem, old(self).root as int, vaddr, 2) is Ok,
            is_present_bits(old(self).mem.ent(walk_mut_spec(&old(self).mem, old(self).root as int, vaddr, 2)->Ok_0.0,
                walk_mut_spec(&old(self).mem, old(self).root as int, vaddr, 2)->Ok_0.1)),
            is_huge_bits(old(self).mem.ent(walk_mut_spec(&old(self).mem, old(self).root as int, vaddr, 2)->Ok_0.0,
                walk_mut_spec(&old(self).mem, old(self).root as int, vaddr, 2)->Ok_0.1)),
            old(self).mem.base + 4096 * (old(self).mem.len() + 1) <= PHYS_LIMIT,
        ensures
            final(self).wf(),
            final(self).root == old(self).root,
            final(self).cr3 == old(self).cr3,
            final(self).owned == old(self).owned,
            split_outcome(&old(self).mem, &final(self).mem, old(self).root as int, vaddr, 2, Ok(())),
    {
        let _ = self.try_split1g(vaddr);
    }

    /// Merges the 4 KiB pages of the 2 MiB-aligned `vaddr` into one 2 MiB
    /// page; they must map one contiguous range with equal flags.
    pub fn merge2m(&mut self, vaddr: u64)
        requires
            old(self).wf(),
            vaddr & MASK_2M == 0,
            walk_mut_spec(&old(self).mem, old(self).root as int, vaddr, 1) is Ok,
            merge_ready(&old(self).mem, walk_mut_spec(&old(self).mem, old(self).root as int, vaddr, 1)->Ok_0, 1),
        ensures
            final(self).wf(),
            final(self).root == old(self).root,
            final(self).cr3 == old(self).cr3,
            final(self).owned == old(self).owned,
            merge_outcome(&old(self).mem, &final(self).mem, old(self).root as int, vaddr, 1, Ok(())),
    {
        let _ = self.try_merge2m(vaddr);
    }

    /// Merges the 2 MiB pages of the 1 GiB-aligned `vaddr` into one 1 GiB
    /// page; they must map one contiguous range with equal flags.
    pub fn merge1g(&mut self, vaddr: u64)
        requires
            old(self).wf(),
            vaddr & MASK_1G == 0,
            walk_mut_spec(&old(self).mem, old(self).root as int, vaddr, 2) is Ok,
            merge_ready(&old(self).mem, walk_mut_spec(&old(self).mem, old(self).root as int, vaddr, 2)->Ok_0, 2),
        ensures
            final(self).wf(),
            final(self).root == old(self).root,
            final(self).cr3 == old(self).cr3,
            final(self).owned == old(self).owned,
            merge_outcome(&old(self).mem, &final(self).mem, old(self).root as int, vaddr, 2, Ok(())),
    {
        let _ = self.try_merge1g(vaddr);
    }
}

/// Whether slot `s` points to a table whose 512 entries can be merged into
/// one huge page at `lvl`.
pub open spec fn merge_ready(mem: &PtMem, s: (int, int), lvl: int) -> bool {
    &&& is_present_bits(mem.ent(s.0, s.1))
    &&& !is_huge_bits(mem.ent(s.0, s.1))
    &&& forall|i: int| 0 <= i < 512 ==> !#[trigger] merge_bad(mem, mem.child(mem.ent(s.0, s.1)), lvl, i)
}

} // verus!
