//! The page allocator that the rest of the kernel calls: the early bump
//! allocator until `migrate`, the buddy allocator after it.

use vstd::prelude::*;
use crate::addr::Paddr;
use crate::bsa::{Bsa, counter_mod, held, is_ceil_order, only_zone, pow2};
use crate::ema::{EarlyMemAlloc, align_up_4k};
use crate::pfm::Pfm;

verus! {

/// Which allocator serves requests.
#[derive(Clone, Copy, Debug, PartialEq, Eq, Structural)]
pub enum Backend {
    /// The early bump allocator; frees are ignored.
    Early,
    /// The buddy allocator.
    Late,
}

/// The page allocator's switch.
pub struct Upa {
    /// The allocator in use.
    pub backend: Backend,
}

impl Upa {
    /// A switch set to the early allocator.
    pub fn new() -> (u: Upa)
        ensures
            u.backend == Backend::Early,
    {
        Upa { backend: Backend::Early }
    }

    /// Allocates `count` pages from the allocator in use (0 for none).
    pub fn allocate(&self, ema: &mut EarlyMemAlloc, bsa: &mut Bsa, pfm: &mut Pfm, cpu: usize, count: usize) -> (r: Paddr)
        requires
            old(bsa).wf(),
            old(pfm).wf(),
            cpu < old(bsa).ncpus,
            self.backend == Backend::Early && count > 0 ==> count <= (usize::MAX - 4095) / 4096
                && align_up_4k(count * 4096) <= old(ema).top,
        ensures
            final(bsa).wf(),
            final(pfm).wf(),
            count == 0 ==> r.0 == 0 && *final(ema) == *old(ema) && *final(bsa) == *old(bsa) && *final(pfm) == *old(pfm),
            count > 0 && self.backend == Backend::Early ==> *final(bsa) == *old(bsa) && *final(pfm) == *old(pfm) && ({
                let c = align_up_4k(count * 4096);
                if old(ema).top < old(ema).limit || old(ema).top - c < old(ema).limit {
                    r.0 == 0 && *final(ema) == *old(ema)
                } else {
                    r.0 == old(ema).top - c && final(ema).top == r.0
                        && final(ema).bottom == old(ema).bottom && final(ema).limit == old(ema).limit
                }
            }),
            count > 0 && self.backend == Backend::Late ==> *final(ema) == *old(ema)
                && forall|k: nat| #[trigger] is_ceil_order(count as int, k) ==> (
                    if k >= 10 { r.0 == 0 } else { r.0 == old(bsa).alloc_result(old(pfm), cpu as int, k as int) }),
            count > 0 && self.backend == Backend::Late ==> forall|q: int| #[trigger] final(pfm).loc(q) == old(pfm).loc(q),
            count > 0 && self.backend == Backend::Late ==> forall|k: nat| #[trigger] is_ceil_order(count as int, k) ==> (
                if k >= 10 {
                    *final(bsa) == *old(bsa)
                } else {
                    let z = old(bsa).alloc_zone(old(pfm), cpu as int, k as int);
                    &&& z == -1 ==> *final(bsa) == *old(bsa) && *final(pfm) == *old(pfm)
                    &&& z >= 0 ==> only_zone(old(bsa), final(bsa), z)
                        && held(final(bsa), z) % counter_mod() == (held(old(bsa), z) - pow2(k)) % counter_mod()
                }),
    {
        if count == 0 {
            return Paddr(0);
        }
        match self.backend {
            Backend::Early => crate::ema::allocate(ema, count),
            Backend::Late => bsa.allocate(pfm, cpu, count),
        }
    }

    /// Frees the pages at `p` through the allocator in use; the early one
    /// ignores it, and so is the null address.
    pub fn free(&self, bsa: &mut Bsa, pfm: &mut Pfm, cpu: usize, p: Paddr)
        requires
            old(bsa).wf(),
            old(pfm).wf(),
            cpu < old(bsa).ncpus,
            old(pfm).page((p.0 / 4096) as int) matches Some(pg) ==> pg.order < 10,
        ensures
            final(bsa).wf(),
            final(pfm).wf(),
            p.0 == 0 || self.backend == Backend::Early ==> *final(bsa) == *old(bsa) && *final(pfm) == *old(pfm),
            p.0 != 0 && self.backend == Backend::Late ==> crate::bsa::freed_block(old(bsa), final(bsa), old(pfm), final(pfm), cpu, p),
    {
        if p.0 == 0 {
            return;
        }
        match self.backend {
            Backend::Early => {},
            Backend::Late => bsa.free(pfm, cpu, p),
        }
    }
}

/// Switches the allocator from the early one to the buddy allocator; it
/// must not have been switched before.
pub fn migrate(upa: &mut Upa)
    requires
        old(upa).backend == Backend::Early,
    ensures
        final(upa).backend == Backend::Late,
{
    upa.backend = Backend::Late;
}

} // verus!
