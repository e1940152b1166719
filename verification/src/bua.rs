//! The buddy allocator behind the page-allocation interface: a count of
//! pages in, a physical address out.

use vstd::prelude::*;
use crate::addr::Paddr;
use crate::bsa::{Bsa, is_ceil_order, log2_ceil};
use crate::pfm::{Page, PageFrame, Pfm};

verus! {

/// Allocates `count` pages as one block of the least order that holds
/// them, and records that order on its first frame; 0 when `count` is 0 or
/// no block could be had.
pub fn allocate(bsa: &mut Bsa, pfm: &mut Pfm, cpu: usize, count: usize) -> (r: Paddr)
    requires
        old(bsa).wf(),
        old(pfm).wf(),
        cpu < old(bsa).ncpus,
    ensures
        final(bsa).wf(),
        final(pfm).wf(),
        count == 0 ==> r.0 == 0 && *final(bsa) == *old(bsa) && *final(pfm) == *old(pfm),
        forall|k: nat| count > 0 && #[trigger] is_ceil_order(count as int, k) ==> (
            if k >= 10 { r.0 == 0 } else {
                &&& r.0 == old(bsa).alloc_result(old(pfm), cpu as int, k as int)
                &&& r.0 != 0 ==> (final(pfm).page((r.0 / 4096) as int) matches Some(p) ==> p.order == k)
            }),
{
    if count == 0 {
        return Paddr(0);
    }
    let order = log2_ceil(count);
    proof {
        assert(is_ceil_order(count as int, order as nat));
        assert forall|k: nat| #[trigger] is_ceil_order(count as int, k) implies k == order by {
            crate::bsa::lemma_ceil_order_unique(count as int, k, order as nat);
        }
    }
    let p = bsa.allocate(pfm, cpu, count);
    if p.0 != 0 {
        let pfn = p.0 / 4096;
        if order < 10 {
            PageFrame(pfn).set_order(pfm, order as u8);
        }
        p
    } else {
        Paddr(0)
    }
}

/// Frees the block at `paddr`; the null address is ignored.
pub fn free(bsa: &mut Bsa, pfm: &mut Pfm, cpu: usize, paddr: Paddr)
    requires
        old(bsa).wf(),
        old(pfm).wf(),
        cpu < old(bsa).ncpus,
        old(pfm).page((paddr.0 / 4096) as int) matches Some(p) ==> p.order < 10,
    ensures
        final(bsa).wf(),
        final(pfm).wf(),
        paddr.0 == 0 ==> *final(bsa) == *old(bsa) && *final(pfm) == *old(pfm),
        paddr.0 != 0 ==> crate::bsa::freed_block(old(bsa), final(bsa), old(pfm), final(pfm), cpu, paddr),
{
    if paddr.0 == 0 {
        return;
    }
    bsa.free(pfm, cpu, paddr);
}

} // verus!
