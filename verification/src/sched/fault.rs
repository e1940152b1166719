//! Page faults of a process: copy on write, demand paging, or a
//! segmentation fault. The decision reads the address space and the areas;
//! the caller allocates the fresh page, copies or clears it, and kills the
//! process on a segmentation fault.

use vstd::prelude::*;
use crate::addr::Paddr;
use crate::paging::entry::{EntryFlags, COPY_ON_WRITE, PRESENT, USER_ACCESSIBLE, WRITABLE};
use crate::paging::exco::pml4_huge;
use crate::paging::polen::{mapped_4k, Polen};
use crate::paging::table::PtError;
use crate::vma::{VmaFlags, VmaNode, Vmm};

verus! {

/// What a page fault asks for.
#[derive(Clone, Copy, Debug, PartialEq, Eq, Structural)]
pub enum FaultAction {
    /// Copy the page at `source` into a fresh page and map that page at
    /// `page` with `flags` in place of the shared one.
    CopyOnWrite { page: u64, source: Paddr, flags: EntryFlags },
    /// Map a fresh, cleared page at `page` with `flags`.
    DemandPage { page: u64, flags: EntryFlags },
    /// The access is not allowed: the process ends with code 139.
    Segfault,
}

/// The flags of a page copied on write: writable, no longer shared.
pub open spec fn cow_flags(f: u64) -> u64 {
    (f & !COPY_ON_WRITE) | WRITABLE
}

/// The flags of a page mapped on demand in an area with `flags`: present
/// and user-accessible, writable where the area is.
pub open spec fn demand_flags(flags: VmaFlags) -> u64 {
    if flags.0 & VmaFlags::WRITE == VmaFlags::WRITE {
        PRESENT | USER_ACCESSIBLE | WRITABLE
    } else {
        PRESENT | USER_ACCESSIBLE
    }
}

/// The answer to a fault at `addr` with `error_code` (bit 0: the page was
/// present, bit 1: a write), where the page of `addr` is mapped as
/// `mapped` and `area` is the area that holds `addr`: a write to a present
/// copy-on-write page copies it; an access to a missing page inside an area
/// maps one, unless it writes to an area that is not writable; anything
/// else is a segmentation fault.
pub open spec fn fault_outcome(addr: u64, error_code: u64, mapped: Option<(int, u64)>, area: Option<VmaNode>) -> FaultAction {
    let page = addr & !0xfffu64;
    let present = error_code & 1 != 0;
    let write = error_code & 2 != 0;
    if present && write && mapped is Some && mapped->Some_0.1 & COPY_ON_WRITE != 0 {
        FaultAction::CopyOnWrite {
            page,
            source: Paddr(mapped->Some_0.0 as usize),
            flags: EntryFlags(cow_flags(mapped->Some_0.1)),
        }
    } else if !present && area is Some {
        if write && area->Some_0.flags.0 & VmaFlags::WRITE != VmaFlags::WRITE {
            FaultAction::Segfault
        } else {
            FaultAction::DemandPage { page, flags: EntryFlags(demand_flags(area->Some_0.flags)) }
        }
    } else {
        FaultAction::Segfault
    }
}

/// A fault on a missing page inside an area: a read always maps a fresh
/// page, a write maps one exactly when the area is writable; the page is
/// the page of the address, present and user-accessible, and writable
/// exactly when the area is writable, whatever the access that faulted.
pub proof fn lemma_demand_page_flags(addr: u64, error_code: u64, mapped: Option<(int, u64)>, area: Option<VmaNode>)
    ensures
        error_code & 1 == 0 && area is Some ==> {
            let writable_area = area->Some_0.flags.0 & VmaFlags::WRITE == VmaFlags::WRITE;
            &&& error_code & 2 == 0 ==> fault_outcome(addr, error_code, mapped, area) is DemandPage
            &&& error_code & 2 != 0 ==> (fault_outcome(addr, error_code, mapped, area) is DemandPage <==> writable_area)
            &&& fault_outcome(addr, error_code, mapped, area) matches FaultAction::DemandPage { page, flags } ==> {
                &&& page == addr - addr % 4096
                &&& flags.0 & PRESENT == PRESENT
                &&& flags.0 & USER_ACCESSIBLE == USER_ACCESSIBLE
                &&& (flags.0 & WRITABLE == WRITABLE <==> writable_area)
            }
        },
{
    crate::paging::frame::lemma_offset_masks(addr);
    lemma_fault_bits();
}

/// A write to a present copy-on-write page copies it: the copy goes at the
/// page of the address, from the page mapped there, writable, no longer
/// copy-on-write, with the other flags of the shared page. Any other fault
/// on a present page, and a fault on a missing page outside every area,
/// ends the process.
pub proof fn lemma_copy_on_write(addr: u64, error_code: u64, mapped: Option<(int, u64)>, area: Option<VmaNode>)
    ensures
        error_code & 1 != 0 && error_code & 2 != 0 && mapped is Some && mapped->Some_0.1 & COPY_ON_WRITE != 0 ==> {
            let o = fault_outcome(addr, error_code, mapped, area);
            &&& o is CopyOnWrite
            &&& o->CopyOnWrite_page == addr - addr % 4096
            &&& o->CopyOnWrite_source == Paddr(mapped->Some_0.0 as usize)
            &&& o->CopyOnWrite_flags.0 & WRITABLE == WRITABLE
            &&& o->CopyOnWrite_flags.0 & COPY_ON_WRITE == 0
            &&& o->CopyOnWrite_flags.0 & !(COPY_ON_WRITE | WRITABLE) == mapped->Some_0.1 & !(COPY_ON_WRITE | WRITABLE)
        },
        error_code & 1 != 0 && !(error_code & 2 != 0 && mapped is Some && mapped->Some_0.1 & COPY_ON_WRITE != 0)
            ==> fault_outcome(addr, error_code, mapped, area) is Segfault,
        error_code & 1 == 0 && area is None ==> fault_outcome(addr, error_code, mapped, area) is Segfault,
{
    crate::paging::frame::lemma_offset_masks(addr);
    lemma_fault_bits();
    if mapped is Some {
        let f = mapped->Some_0.1;
        assert(cow_flags(f) == (f & !0x10_0000_0000_0000u64) | 2u64);
    }
}

/// The bits of the flags that a fault gives a page.
proof fn lemma_fault_bits()
    by (bit_vector)
    ensures
        (1u64 | 4u64 | 2u64) & 1u64 == 1u64,
        (1u64 | 4u64 | 2u64) & 4u64 == 4u64,
        (1u64 | 4u64 | 2u64) & 2u64 == 2u64,
        (1u64 | 4u64) & 1u64 == 1u64,
        (1u64 | 4u64) & 4u64 == 4u64,
        (1u64 | 4u64) & 2u64 != 2u64,
        !(0x10_0000_0000_0000u64 | 2u64) == !0x10_0000_0000_0002u64,
        forall|f: u64| #[trigger] ((f & !0x10_0000_0000_0000u64) | 2u64) & 2u64 == 2u64
            && ((f & !0x10_0000_0000_0000u64) | 2u64) & 0x10_0000_0000_0000u64 == 0
            && ((f & !0x10_0000_0000_0000u64) | 2u64) & !0x10_0000_0000_0002u64 == f & !0x10_0000_0000_0002u64,
{
}

/// A query result as the address and flags it gives.
pub open spec fn mapped_view(m: Option<(Paddr, EntryFlags)>) -> Option<(int, u64)> {
    match m {
        Some(pf) => Some((pf.0.0 as int, pf.1.0)),
        None => None,
    }
}

/// The answer to a fault at `addr` with `error_code`, given what the page
/// of `addr` is mapped to and the area that holds `addr`; see
/// [`fault_outcome`].
pub fn decide_fault(addr: u64, error_code: u64, mapped: Option<(Paddr, EntryFlags)>, area: Option<VmaNode>) -> (a: FaultAction)
    ensures
        a == fault_outcome(addr, error_code, mapped_view(mapped), area),
{
    let page = addr & !0xfffu64;
    let present = error_code & 1 != 0;
    let write = error_code & 2 != 0;
    if present && write {
        if let Some((paddr, flags)) = mapped {
            if flags.0 & COPY_ON_WRITE != 0 {
                return FaultAction::CopyOnWrite {
                    page,
                    source: paddr,
                    flags: EntryFlags((flags.0 & !COPY_ON_WRITE) | WRITABLE),
                };
            }
        }
    }
    if !present {
        if let Some(n) = area {
            if write && !n.flags.contains(VmaFlags::WRITE) {
                return FaultAction::Segfault;
            }
            let f: u64 = if n.flags.contains(VmaFlags::WRITE) {
                PRESENT | USER_ACCESSIBLE | WRITABLE
            } else {
                PRESENT | USER_ACCESSIBLE
            };
            return FaultAction::DemandPage { page, flags: EntryFlags(f) };
        }
    }
    FaultAction::Segfault
}

/// The answer to a fault at `addr` with `error_code` in the process whose
/// address space is `space` and whose areas are `vmm`; see
/// [`fault_outcome`]. The page is looked up only for a write to a present
/// page, the areas only for a missing page.
pub fn handle_page_fault(space: &Polen, vmm: &Vmm, addr: u64, error_code: u64) -> (a: FaultAction)
    requires
        space.wf(),
        vmm.tree.wf(),
    ensures
        forall|i: int| 0 <= i < vmm.tree.nodes@.len() && vmm.tree.nodes@[i].start <= addr < #[trigger] vmm.tree.nodes@[i].end
            ==> a == fault_outcome(addr, error_code, space.view_at(addr & !0xfffu64), Some(vmm.tree.nodes@[i])),
        (forall|i: int| 0 <= i < vmm.tree.nodes@.len() ==> !(vmm.tree.nodes@[i].start <= addr < #[trigger] vmm.tree.nodes@[i].end))
            ==> a == fault_outcome(addr, error_code, space.view_at(addr & !0xfffu64), None),
{
    let page = addr & !0xfffu64;
    let present = error_code & 1 != 0;
    let write = error_code & 2 != 0;
    let mapped = if present && write { space.query(page) } else { None };
    let area = if !present { vmm.find_overlap(addr) } else { None };
    proof {
        assert(present && write ==> fault_outcome(addr, error_code, mapped_view(mapped), None)
            == fault_outcome(addr, error_code, space.view_at(page), None));
        if let Some(n) = area {
            let i = choose|i: int| 0 <= i < vmm.tree.nodes@.len() && vmm.tree.nodes@[i] == n && n.start <= addr < n.end;
            assert forall|k: int| 0 <= k < vmm.tree.nodes@.len() && vmm.tree.nodes@[k].start <= addr < #[trigger] vmm.tree.nodes@[k].end
                implies vmm.tree.nodes@[k] == n by {
                if k < i {
                    assert(vmm.tree.nodes@[k].end <= vmm.tree.nodes@[i].start);
                } else if k > i {
                    assert(vmm.tree.nodes@[i].end <= vmm.tree.nodes@[k].start);
                }
            }
        }
    }
    decide_fault(addr, error_code, mapped, area)
}

/// Carries out `action` with the fresh page `fresh`: a page copied on
/// write is unmapped and mapped again at `fresh`; a page mapped on demand
/// is mapped at `fresh`; a segmentation fault changes nothing.
pub fn resolve_fault(space: &mut Polen, action: FaultAction, fresh: Paddr) -> (r: Result<(), PtError>)
    requires
        old(space).wf(),
        action matches FaultAction::CopyOnWrite { page, .. } ==> page + 8192 <= u64::MAX,
    ensures
        Polen::same_space(old(space), final(space)),
        action is Segfault ==> r is Ok && *final(space) == *old(space),
        r is Ok ==> (action matches FaultAction::CopyOnWrite { page, flags, .. }
            ==> final(space).view_at(page) == Some(mapped_4k(fresh.0 as u64, flags.0, page))
                || pml4_huge(&final(space).exco.mem, final(space).exco.root as int, page)),
        r is Ok ==> (action matches FaultAction::DemandPage { page, flags }
            ==> final(space).view_at(page) == Some(mapped_4k(fresh.0 as u64, flags.0, page))
                || pml4_huge(&final(space).exco.mem, final(space).exco.root as int, page)),
{
    match action {
        FaultAction::CopyOnWrite { page, flags, .. } => {
            let _ = space.try_unmap(page, 4096);
            space.map_4k_block(page, fresh, flags)
        },
        FaultAction::DemandPage { page, flags } => space.map_4k_block(page, fresh, flags),
        FaultAction::Segfault => Ok(()),
    }
}

} // verus!
