//! The buddy system allocator: three zones (DMA below 16 MiB, DMA32 below
//! 4 GiB, Normal above), each with free lists of blocks of 2^order frames
//! and a cache of blocks per CPU.

use vstd::prelude::*;
use crate::addr::Paddr;
use crate::bounded::{pcp_get, pcp_is_full, pcp_items, pcp_len, pcp_new, pcp_pop, pcp_push};
use crate::pfm::{ALLOCATED, BUDDY_HEAD, FREE, Page, Pfm, get_page, page_of, set_state, RESERVED};
use crate::pmr::{Kind, Region};

verus! {

/// Number of orders: blocks of 1 to 512 frames.
pub const MAX_ORDER: usize = 10;
/// Capacity of one per-CPU list.
pub const PCP_SIZE: usize = 32;
/// End of the DMA zone (16 MiB).
pub const DMA_END: usize = 0x100_0000;
/// End of the DMA32 zone (4 GiB).
pub const DMA32_END: u64 = 0x1_0000_0000;

/// A memory zone.
#[derive(Clone, Copy, Debug, PartialEq, Eq, Structural)]
pub enum Zone {
    /// Below 16 MiB.
    Dma,
    /// Below 4 GiB.
    Dma32,
    /// Above 4 GiB.
    Normal,
}

/// The zone of frame `pfn`.
pub open spec fn zone_of(pfn: int) -> Zone {
    if pfn * 4096 < DMA_END { Zone::Dma } else if pfn * 4096 < DMA32_END { Zone::Dma32 } else { Zone::Normal }
}

/// The index of a zone.
pub open spec fn zone_index(z: Zone) -> int {
    match z { Zone::Dma => 0, Zone::Dma32 => 1, Zone::Normal => 2 }
}

impl Zone {
    /// The zone that frame `pfn` belongs to.
    pub fn from_pfn(pfn: usize) -> (z: Zone)
        requires
            pfn * 4096 <= usize::MAX,
        ensures
            z == zone_of(pfn as int),
    {
        let paddr = pfn * 4096;
        if paddr < DMA_END {
            Zone::Dma
        } else if (paddr as u64) < DMA32_END {
            Zone::Dma32
        } else {
            Zone::Normal
        }
    }

    /// The zone's index (0, 1, 2).
    pub fn index(self) -> (i: usize)
        ensures
            i == zone_index(self),
    {
        match self {
            Zone::Dma => 0,
            Zone::Dma32 => 1,
            Zone::Normal => 2,
        }
    }
}

/// 2 to the power `k`.
pub open spec fn pow2(k: nat) -> nat
    decreases k,
{
    if k == 0 { 1 } else { 2 * pow2((k - 1) as nat) }
}

/// The powers of two up to 1024 as shifts.
proof fn lemma_small_shifts() by (bit_vector)
    ensures
        1usize << 0usize == 1, 1usize << 1usize == 2, 1usize << 2usize == 4, 1usize << 3usize == 8,
        1usize << 4usize == 16, 1usize << 5usize == 32, 1usize << 6usize == 64, 1usize << 7usize == 128,
        1usize << 8usize == 256, 1usize << 9usize == 512, 1usize << 10usize == 1024,
{
}

/// Powers of two below 2^10, for executable code.
proof fn lemma_pow2_small(k: nat)
    requires
        k <= 10,
    ensures
        pow2(k) == (1usize << k),
        pow2(k) <= 1024,
        pow2(k) >= 1,
        k >= 1 ==> pow2(k) == 2 * pow2((k - 1) as nat),
{
    reveal_with_fuel(pow2, 11);
    lemma_small_shifts();
}

/// The least order whose block holds `n` frames (0 for no frame).
pub open spec fn log2_ceil_spec(n: nat) -> nat
    decreases n,
{
    if n <= 1 { 0 } else { 1 + log2_ceil_spec(((n + 1) / 2) as nat) }
}

/// The least `k` with `2^k >= n` (0 for `n == 0`).
pub fn log2_ceil(n: usize) -> (k: usize)
    ensures
        n > 0 ==> pow2(k as nat) >= n,
        n > 0 && k > 0 ==> pow2((k - 1) as nat) < n,
        n == 0 ==> k == 0,
{
    if n == 0 {
        return 0;
    }
    let mut order: usize = 0;
    let mut size: u128 = 1;
    while (size as u128) < (n as u128)
        invariant
            size == pow2(order as nat),
            order > 0 ==> pow2((order - 1) as nat) < n,
            size <= 2 * (n as int),
            size >= 1,
            (order as int) < size,
            n > 0,
        decreases 2 * (n as int) - size,
    {
        proof {
            reveal_with_fuel(pow2, 2);
        }
        size = size * 2;
        order = order + 1;
    }
    order
}

/// `s` without the occurrence of `x` nearest its end (unchanged when `x`
/// does not occur).
pub open spec fn remove_nearest(s: Seq<usize>, x: usize) -> Seq<usize>
    decreases s.len(),
{
    if s.len() == 0 {
        s
    } else if s.last() == x {
        s.drop_last()
    } else {
        remove_nearest(s.drop_last(), x).push(s.last())
    }
}

/// The free blocks of one order, by their first frame; the last one is the
/// head of the list.
pub struct FreeArea {
    /// The blocks, head last.
    pub blocks: Vec<usize>,
}

impl FreeArea {
    /// An empty list.
    pub fn new() -> (a: FreeArea)
        ensures
            a.blocks@ == Seq::<usize>::empty(),
    {
        FreeArea { blocks: Vec::new() }
    }

    /// Puts block `pfn` at the head of the list, if the frame has a record.
    pub fn add(&mut self, pfm: &Pfm, pfn: usize)
        requires
            pfm.wf(),
            pfn * 4096 <= usize::MAX,
        ensures
            pfm.page(pfn as int) is Some ==> final(self).blocks@ == old(self).blocks@.push(pfn),
            pfm.page(pfn as int) is None ==> final(self).blocks@ == old(self).blocks@,
    {
        if get_page(pfm, pfn).is_some() {
            self.blocks.push(pfn);
        }
    }

    /// Takes the head of the list, if its frame has a record.
    pub fn remove(&mut self, pfm: &Pfm) -> (r: Option<usize>)
        requires
            pfm.wf(),
            forall|i: int| 0 <= i < old(self).blocks@.len() ==> #[trigger] old(self).blocks@[i] * 4096 <= usize::MAX,
        ensures
            r is Some <==> old(self).blocks@.len() > 0 && pfm.page(old(self).blocks@.last() as int) is Some,
            r matches Some(p) ==> p == old(self).blocks@.last() && final(self).blocks@ == old(self).blocks@.drop_last(),
            r is None ==> final(self).blocks@ == old(self).blocks@,
    {
        let n = self.blocks.len();
        if n == 0 {
            return None;
        }
        let pfn = self.blocks[n - 1];
        if get_page(pfm, pfn).is_some() {
            self.blocks.pop();
            Some(pfn)
        } else {
            None
        }
    }

    /// Whether the list is empty.
    pub fn is_empty(&self) -> (b: bool)
        ensures
            b == (self.blocks@.len() == 0),
    {
        self.blocks.len() == 0
    }

    /// Takes block `target` out of the list (the one nearest the head); a
    /// block that is not listed leaves the list as it is.
    pub fn remove_block(&mut self, target: usize)
        ensures
            final(self).blocks@ == remove_nearest(old(self).blocks@, target),
    {
        let mut k: usize = self.blocks.len();
        proof {
            let s = old(self).blocks@;
            assert(s.subrange(0, s.len() as int) =~= s);
            assert(s.subrange(s.len() as int, s.len() as int) =~= Seq::<usize>::empty());
            assert(remove_nearest(s, target) + Seq::<usize>::empty() =~= remove_nearest(s, target));
        }
        while k > 0
            invariant
                k <= self.blocks@.len(),
                self.blocks@ == old(self).blocks@,
                remove_nearest(old(self).blocks@, target)
                    == remove_nearest(old(self).blocks@.subrange(0, k as int), target) + old(self).blocks@.subrange(k as int, old(self).blocks@.len() as int),
            decreases k,
        {
            let ghost s = old(self).blocks@;
            proof {
                assert(s.subrange(0, k as int).drop_last() =~= s.subrange(0, k - 1));
                assert(s.subrange(0, k as int).last() == s[k - 1]);
            }
            if self.blocks[k - 1] == target {
                self.blocks.remove(k - 1);
                proof {
                    assert(self.blocks@ =~= s.subrange(0, k - 1) + s.subrange(k as int, s.len() as int));
                }
                return;
            }
            proof {
                assert(s.subrange(k - 1, s.len() as int) =~= seq![s[k - 1]] + s.subrange(k as int, s.len() as int));
                assert(remove_nearest(s.subrange(0, k - 1), target).push(s[k - 1]) + s.subrange(k as int, s.len() as int)
                    =~= remove_nearest(s.subrange(0, k - 1), target) + s.subrange(k - 1, s.len() as int));
            }
            k = k - 1;
        }
        proof {
            let s = old(self).blocks@;
            assert(s.subrange(0, 0) =~= Seq::<usize>::empty());
            assert(s.subrange(0, s.len() as int) =~= s);
            assert(Seq::<usize>::empty() + s =~= s);
        }
    }
}

/// Whether every listed block number is small enough to be a frame.
pub open spec fn frames_ok(s: Seq<usize>) -> bool {
    forall|i: int| 0 <= i < s.len() ==> (#[trigger] s[i]) as int * 4096 + 4096 * 1024 <= usize::MAX
}

/// Whether every block number in `s` has an address that fits a `usize`.
pub open spec fn addressable(s: Seq<usize>) -> bool {
    forall|i: int| 0 <= i < s.len() ==> (#[trigger] s[i]) as int * 4096 <= usize::MAX
}

/// Whether `new` is `old` with the records of frames `start .. start + n`
/// (those that exist) given the flags `hf` and order `ord` for the first
/// frame and the flags `rf` for the others.
pub open spec fn block_marked(old: &Pfm, new: &Pfm, start: int, n: int, hf: u32, rf: u32, ord: u8) -> bool {
    &&& new.wf()
    &&& forall|q: int| #[trigger] new.loc(q) == old.loc(q)
    &&& forall|q: int| !(start <= q < start + n) ==> #[trigger] new.page(q) == old.page(q)
    &&& forall|q: int| start <= q < start + n && #[trigger] old.page(q) is Some ==> new.page(q) == Some(
        if q == start { Page { flags: hf, order: ord, ..old.page(q)->Some_0 } } else { Page { flags: rf, ..old.page(q)->Some_0 } })
}

/// Marks the frames of the block of `n` frames at `start`.
fn mark_block(pfm: &mut Pfm, start: usize, n: usize, hf: u32, rf: u32, ord: u8)
    requires
        old(pfm).wf(),
        start + n <= usize::MAX,
    ensures
        block_marked(old(pfm), final(pfm), start as int, n as int, hf, rf, ord),
{
    let mut i: usize = 0;
    while i < n
        invariant
            start + n <= usize::MAX,
            i <= n,
            block_marked(old(pfm), pfm, start as int, i as int, hf, rf, ord),
        decreases n - i,
    {
        let ghost before = *pfm;
        if i == 0 {
            set_state(pfm, start, hf, Some(ord));
        } else {
            set_state(pfm, start + i, rf, None);
        }
        proof {
            let q0 = (start + i) as int;
            assert forall|q: int| start <= q < start + i + 1 && #[trigger] old(pfm).page(q) is Some implies pfm.page(q) == Some(
                if q == start { Page { flags: hf, order: ord, ..old(pfm).page(q)->Some_0 } } else { Page { flags: rf, ..old(pfm).page(q)->Some_0 } }) by {
                if q < q0 {
                    assert(pfm.page(q) == before.page(q));
                } else {
                    assert(before.page(q) == old(pfm).page(q));
                }
            }
        }
        i = i + 1;
    }
}

/// The allocator: for each zone, its frame range, its free lists (one per
/// order), one cache list per CPU and order, and its counters of free and
/// cached frames.
pub struct Bsa {
    /// Number of CPUs.
    pub ncpus: usize,
    /// Free lists; zone `z`, order `o` at `z * 10 + o`.
    pub areas: Vec<FreeArea>,
    /// Cache lists; zone `z`, CPU `c`, order `o` at `(z * ncpus + c) * 10 + o`.
    pub pcp: Vec<heapless::Vec<usize, 32>>,
    /// Frame range (first, end) of each zone.
    pub bounds: Vec<(usize, usize)>,
    /// Frames in the free lists, as counted, per zone.
    pub free_pages: Vec<usize>,
    /// Frames in the cache lists, as counted, per zone.
    pub pcp_pages: Vec<usize>,
}

/// Index of the cache list of zone `z`, CPU `c`, order `o`.
pub open spec fn pcp_index(ncpus: int, z: int, c: int, o: int) -> int {
    (z * ncpus + c) * 10 + o
}

impl Bsa {
    /// The free list of zone `z`, order `o`.
    pub open spec fn area(&self, z: int, o: int) -> Seq<usize> {
        self.areas@[z * 10 + o].blocks@
    }

    /// The cache list of zone `z`, CPU `c`, order `o`.
    pub open spec fn cache(&self, z: int, c: int, o: int) -> Seq<usize> {
        pcp_items(self.pcp@[pcp_index(self.ncpus as int, z, c, o)])
    }

    /// The shape of the allocator and the block numbers it holds.
    pub open spec fn wf(&self) -> bool {
        &&& self.areas@.len() == 30
        &&& self.ncpus > 0
        &&& 30 * self.ncpus <= usize::MAX
        &&& self.pcp@.len() == 30 * self.ncpus
        &&& self.bounds@.len() == 3
        &&& self.free_pages@.len() == 3
        &&& self.pcp_pages@.len() == 3
        &&& forall|i: int| 0 <= i < 30 ==> addressable(#[trigger] self.areas@[i].blocks@)
        &&& forall|i: int| 0 <= i < 30 * self.ncpus ==> addressable(pcp_items(#[trigger] self.pcp@[i]))
    }

    /// The order of the first non-empty free list of zone `z` from `o` up
    /// (10 when there is none).
    pub open spec fn first_nonempty(&self, z: int, o: int) -> int
        decreases 10 - o,
    {
        if o >= 10 {
            10
        } else if self.area(z, o).len() > 0 {
            o
        } else {
            self.first_nonempty(z, o + 1)
        }
    }

    /// Whether refilling the cache list of zone `z`, CPU `c`, order `o`
    /// moves at least one block: the list is not full and a free list of
    /// that order or above holds a block with a record at its head.
    pub open spec fn refill_owed(&self, pfm: &Pfm, z: int, c: int, o: int) -> bool {
        &&& self.cache(z, c, o).len() < PCP_SIZE
        &&& self.first_nonempty(z, o) < 10
        &&& pfm.page(self.area(z, self.first_nonempty(z, o)).last() as int) is Some
    }

    /// Whether `new` differs from `old` at most in the free lists of zone
    /// `z` and its free-frame counter.
    pub open spec fn only_areas_of(old: &Bsa, new: &Bsa, z: int) -> bool {
        &&& new.wf()
        &&& new.ncpus == old.ncpus
        &&& new.pcp@ == old.pcp@
        &&& new.bounds@ == old.bounds@
        &&& new.pcp_pages@ == old.pcp_pages@
        &&& forall|i: int| 0 <= i < 3 && i != z ==> #[trigger] new.free_pages@[i] == old.free_pages@[i]
        &&& forall|z2: int, o: int| 0 <= z2 < 3 && z2 != z && 0 <= o < 10 ==> #[trigger] new.area(z2, o) == old.area(z2, o)
    }

    /// Adds block `pfn` to the free list of zone `z`, order `o`, if the frame
    /// has a record.
    fn area_add(&mut self, pfm: &Pfm, z: usize, o: usize, pfn: usize)
        requires
            old(self).wf(),
            pfm.wf(),
            z < 3,
            o < 10,
        ensures
            Bsa::only_areas_of(old(self), final(self), z as int),
            final(self).free_pages@ == old(self).free_pages@,
            pfn * 4096 <= usize::MAX && pfm.page(pfn as int) is Some ==> final(self).area(z as int, o as int) == old(self).area(z as int, o as int).push(pfn),
            !(pfn * 4096 <= usize::MAX && pfm.page(pfn as int) is Some) ==> final(self).area(z as int, o as int) == old(self).area(z as int, o as int),
            forall|o2: int| 0 <= o2 < 10 && o2 != o ==> #[trigger] final(self).area(z as int, o2) == old(self).area(z as int, o2),
    {
        if page_of(pfm, pfn).is_some() {
            let idx = z * 10 + o;
            let mut a = FreeArea::new();
            std::mem::swap(&mut a, &mut self.areas[idx]);
            a.add(pfm, pfn);
            self.areas.set(idx, a);
            proof {
                assert forall|i: int| 0 <= i < 30 implies addressable(#[trigger] self.areas@[i].blocks@) by {
                    if i != idx {
                        assert(self.areas@[i] == old(self).areas@[i]);
                    }
                }
                assert forall|z2: int, o2: int| 0 <= z2 < 3 && 0 <= o2 < 10 && (z2, o2) != (z as int, o as int)
                    implies #[trigger] self.area(z2, o2) == old(self).area(z2, o2) by {
                    assert(z2 * 10 + o2 != idx);
                }
            }
        }
    }

    /// Takes the head of the free list of zone `z`, order `o`, if its frame
    /// has a record.
    fn area_remove(&mut self, pfm: &Pfm, z: usize, o: usize) -> (r: Option<usize>)
        requires
            old(self).wf(),
            pfm.wf(),
            z < 3,
            o < 10,
        ensures
            Bsa::only_areas_of(old(self), final(self), z as int),
            final(self).free_pages@ == old(self).free_pages@,
            r is Some <==> old(self).area(z as int, o as int).len() > 0
                && pfm.page(old(self).area(z as int, o as int).last() as int) is Some,
            r matches Some(p) ==> p == old(self).area(z as int, o as int).last()
                && p * 4096 <= usize::MAX
                && final(self).area(z as int, o as int) == old(self).area(z as int, o as int).drop_last(),
            r is None ==> *final(self) == *old(self),
            forall|o2: int| 0 <= o2 < 10 && o2 != o ==> #[trigger] final(self).area(z as int, o2) == old(self).area(z as int, o2),
    {
        let idx = z * 10 + o;
        let n = self.areas[idx].blocks.len();
        if n == 0 {
            return None;
        }
        let pfn = self.areas[idx].blocks[n - 1];
        if get_page(pfm, pfn).is_none() {
            return None;
        }
        let mut a = FreeArea::new();
        std::mem::swap(&mut a, &mut self.areas[idx]);
        let r = a.remove(pfm);
        self.areas.set(idx, a);
        proof {
            assert forall|i: int| 0 <= i < 30 implies addressable(#[trigger] self.areas@[i].blocks@) by {
                if i != idx {
                    assert(self.areas@[i] == old(self).areas@[i]);
                } else {
                    assert forall|k: int| 0 <= k < self.areas@[i].blocks@.len() implies
                        (#[trigger] self.areas@[i].blocks@[k]) as int * 4096 <= usize::MAX by {
                        assert(self.areas@[i].blocks@[k] == old(self).areas@[i].blocks@[k]);
                    }
                }
            }
            assert forall|z2: int, o2: int| 0 <= z2 < 3 && 0 <= o2 < 10 && (z2, o2) != (z as int, o as int)
                implies #[trigger] self.area(z2, o2) == old(self).area(z2, o2) by {
                assert(z2 * 10 + o2 != idx);
            }
        }
        r
    }
}

/// `[b]` when frame `b` has a record, else nothing.
pub open spec fn if_recorded(pfm: &Pfm, b: int) -> Seq<usize> {
    if 0 <= b && b * 4096 <= usize::MAX && pfm.page(b) is Some { seq![b as usize] } else { Seq::empty() }
}

/// `a - b` in `usize` arithmetic that wraps around.
pub open spec fn wrap_sub(a: usize, b: int) -> usize {
    if a >= b { (a - b) as usize } else { (a - b + usize::MAX + 1) as usize }
}

/// `a + b` in `usize` arithmetic that wraps around.
pub open spec fn wrap_add(a: usize, b: int) -> usize {
    if a + b <= usize::MAX { (a + b) as usize } else { (a + b - usize::MAX - 1) as usize }
}

/// The frames that zone `z` of `b` holds, free or cached, as its two
/// counters say.
pub open spec fn held(b: &Bsa, z: int) -> int {
    b.free_pages@[z] as int + b.pcp_pages@[z] as int
}

/// The number of `usize` values: the counters wrap around modulo it.
pub open spec fn counter_mod() -> int {
    usize::MAX as int + 1
}

/// A wrapping subtraction or addition of `d` moves `a` by `d`, give or take
/// one turn of the counter.
proof fn lemma_wrap(a: usize, d: int)
    requires
        0 <= d <= usize::MAX,
    ensures
        wrap_sub(a, d) as int == a - d || wrap_sub(a, d) as int == a - d + counter_mod(),
        wrap_add(a, d) as int == a + d || wrap_add(a, d) as int == a + d - counter_mod(),
{
}

/// Values that differ by whole turns of the counter agree modulo it.
proof fn lemma_turns(a: int, b: int, j: int)
    requires
        a == b + j * counter_mod(),
    ensures
        a % counter_mod() == b % counter_mod(),
{
    assert(j * counter_mod() == counter_mod() * j) by (nonlinear_arith);
    vstd::arithmetic::div_mod::lemma_mod_multiples_vanish(j, b, counter_mod());
}

impl Bsa {
    /// Takes a block of order `order` from zone `z`: the head of the first
    /// non-empty free list from `order` up, whose upper halves go back to
    /// the lists below it; the block's first frame is marked allocated.
    fn alloc_from_zone(&mut self, pfm: &mut Pfm, z: usize, order: usize) -> (r: Option<usize>)
        requires
            old(self).wf(),
            old(pfm).wf(),
            z < 3,
            order < 10,
        ensures
            Bsa::only_areas_of(old(self), final(self), z as int),
            final(pfm).wf(),
            forall|q: int| #[trigger] final(pfm).loc(q) == old(pfm).loc(q),
            ({
                let f = old(self).first_nonempty(z as int, order as int);
                let head = old(self).area(z as int, f).last();
                if f >= 10 || old(pfm).page(head as int) is None {
                    r is None && *final(self) == *old(self) && *final(pfm) == *old(pfm)
                } else {
                    &&& r == Some(head)
                    &&& final(self).area(z as int, f) == old(self).area(z as int, f).drop_last()
                    &&& forall|k: int| order <= k < f ==> #[trigger] final(self).area(z as int, k)
                        == old(self).area(z as int, k) + if_recorded(old(pfm), head + pow2(k as nat))
                    &&& forall|k: int| 0 <= k < 10 && !(order <= k <= f) ==> #[trigger] final(self).area(z as int, k) == old(self).area(z as int, k)
                    &&& final(self).free_pages@[z as int] == wrap_sub(old(self).free_pages@[z as int], pow2(order as nat) as int)
                    &&& final(pfm).page(head as int) == Some(Page { flags: ALLOCATED | BUDDY_HEAD, order: order as u8,
                        ..old(pfm).page(head as int)->Some_0 })
                    &&& forall|q: int| !(head <= q < head + pow2(f as nat)) ==> #[trigger] final(pfm).page(q) == old(pfm).page(q)
                }
            }),
    {
        let mut found = order;
        while found < MAX_ORDER && self.areas[z * 10 + found].blocks.len() == 0
            invariant
                self.wf(),
                z < 3,
                order <= found <= 10,
                self.first_nonempty(z as int, order as int) == self.first_nonempty(z as int, found as int),
            decreases 10 - found,
        {
            found = found + 1;
        }
        if found >= MAX_ORDER {
            return None;
        }
        let ghost s0 = *self;
        let ghost p0 = *pfm;
        let pfn = match self.area_remove(pfm, z, found) {
            Some(p) => p,
            None => { return None; },
        };
        let ghost s1 = *self;
        proof {
            lemma_pow2_small(found as nat);
        }
        let mut k = found;
        while k > order
            invariant
                order <= k <= found < 10,
                z < 3,
                pfn * 4096 <= usize::MAX,
                s1.wf(),
                Bsa::only_areas_of(&s1, self, z as int),
                self.free_pages@ == s1.free_pages@,
                forall|k2: int| k <= k2 < found ==> #[trigger] self.area(z as int, k2)
                    == s1.area(z as int, k2) + if_recorded(&p0, pfn + pow2(k2 as nat)),
                forall|k2: int| 0 <= k2 < 10 && !(k <= k2 < found) ==> #[trigger] self.area(z as int, k2) == s1.area(z as int, k2),
                pfm.wf(),
                forall|q: int| #[trigger] pfm.loc(q) == p0.loc(q),
                forall|q: int| !(pfn < q < pfn + pow2(found as nat)) ==> #[trigger] pfm.page(q) == p0.page(q),
                pow2(found as nat) <= 1024,
            decreases k,
        {
            k = k - 1;
            proof {
                lemma_pow2_small(k as nat);
                lemma_pow2_small((k + 1) as nat);
                lemma_pow2_mono((k + 1) as nat, found as nat);
            }
            let bsz: usize = 1usize << k;
            let buddy = pfn + bsz;
            let ghost pa = *pfm;
            mark_block(pfm, buddy, bsz, FREE | BUDDY_HEAD, FREE, k as u8);
            let ghost sa = *self;
            self.area_add(pfm, z, k, buddy);
            proof {
                assert(pfm.page(buddy as int) is Some == p0.page(buddy as int) is Some);
                assert(if_recorded(pfm, buddy as int) == if_recorded(&p0, buddy as int));
                assert forall|q: int| !(pfn < q < pfn + pow2(found as nat)) implies #[trigger] pfm.page(q) == p0.page(q) by {
                    assert(pfm.page(q) == pa.page(q));
                }
                assert forall|k2: int| k <= k2 < found implies #[trigger] self.area(z as int, k2)
                    == s1.area(z as int, k2) + if_recorded(&p0, pfn + pow2(k2 as nat)) by {
                    if k2 != k {
                        assert(self.area(z as int, k2) == sa.area(z as int, k2));
                    }
                }
                assert forall|k2: int| 0 <= k2 < 10 && !(k <= k2 < found) implies #[trigger] self.area(z as int, k2) == s1.area(z as int, k2) by {
                    assert(self.area(z as int, k2) == sa.area(z as int, k2));
                }
            }
        }
        let ghost p2 = *pfm;
        set_state(pfm, pfn, ALLOCATED | BUDDY_HEAD, Some(order as u8));
        proof {
            lemma_pow2_small(order as nat);
        }
        let ghost s2 = *self;
        proof {
            assert(s2.area(z as int, found as int) == s1.area(z as int, found as int));
            assert forall|k2: int| order <= k2 < found implies #[trigger] s2.area(z as int, k2)
                == s1.area(z as int, k2) + if_recorded(&p0, pfn + pow2(k2 as nat)) by {
            }
            assert forall|k2: int| 0 <= k2 < 10 && !(order <= k2 <= found) implies #[trigger] s2.area(z as int, k2) == s1.area(z as int, k2) by {
            }
        }
        let c = self.free_pages[z];
        self.free_pages.set(z, c.wrapping_sub(1usize << order));
        proof {
            assert(self.areas == s2.areas);
            assert(p2.page(pfn as int) == p0.page(pfn as int));
            assert forall|q: int| !(pfn <= q < pfn + pow2(found as nat)) implies #[trigger] pfm.page(q) == p0.page(q) by {
                assert(q != pfn as int);
                assert(pfm.page(q) == p2.page(q));
            }
            assert forall|k2: int| 0 <= k2 < 10 implies #[trigger] self.area(z as int, k2) == s2.area(z as int, k2) by {
            }
            assert(Bsa::only_areas_of(&s0, &s1, z as int));
            assert(Bsa::only_areas_of(&s1, &s2, z as int));
            assert forall|i: int| 0 <= i < 3 && i != z implies #[trigger] self.free_pages@[i] == s0.free_pages@[i] by {
                assert(s2.free_pages@[i] == s1.free_pages@[i]);
                assert(s1.free_pages@[i] == s0.free_pages@[i]);
            }
            assert forall|z2: int, o: int| 0 <= z2 < 3 && z2 != z && 0 <= o < 10 implies #[trigger] self.area(z2, o) == s0.area(z2, o) by {
                assert(s2.area(z2, o) == s1.area(z2, o));
                assert(s1.area(z2, o) == s0.area(z2, o));
            }
            assert forall|i: int| 0 <= i < 30 implies addressable(#[trigger] self.areas@[i].blocks@) by {
                assert(self.areas@[i] == s2.areas@[i]);
            }
        }
        Some(pfn)
    }
}

/// Powers of two grow with the exponent.
proof fn lemma_pow2_mono(a: nat, b: nat)
    requires
        a <= b,
    ensures
        pow2(a) <= pow2(b),
    decreases b,
{
    if a < b {
        lemma_pow2_mono(a, (b - 1) as nat);
    }
}

/// Whether frame `b` heads a free block of order `o`, so that a block can
/// merge with it.
pub open spec fn merge_ok(pfm: &Pfm, b: usize, o: int) -> bool {
    &&& b * 4096 <= usize::MAX
    &&& pfm.page(b as int) is Some
    &&& (pfm.page(b as int)->Some_0.flags & 0xfu32) & 2u32 == 2u32
    &&& (pfm.page(b as int)->Some_0.flags & 0xfu32) & 8u32 == 8u32
    &&& pfm.page(b as int)->Some_0.order == o
}

/// The block (first frame, order) that freeing the block `cur` of order
/// `o` ends in, after merging with free buddies up to order 9.
pub open spec fn merge_end(pfm: &Pfm, cur: usize, o: nat) -> (usize, nat)
    decreases 9 - o,
{
    if o >= 9 {
        (cur, o)
    } else {
        let b = cur ^ (1usize << (o as usize));
        if merge_ok(pfm, b, o as int) {
            merge_end(pfm, if b < cur { b } else { cur }, o + 1)
        } else {
            (cur, o)
        }
    }
}

/// The buddy that a merge from block `cur` of order `o` meets at order `o2`.
pub open spec fn merge_buddy(cur: usize, o: nat, o2: nat) -> usize
    decreases 9 - o,
{
    if o >= 9 || o2 <= o {
        cur ^ (1usize << (o2 as usize))
    } else {
        let b = cur ^ (1usize << (o as usize));
        merge_buddy(if b < cur { b } else { cur }, o + 1, o2)
    }
}

impl Bsa {
    /// Takes block `b` out of the free list of zone `z`, order `o`.
    fn area_remove_block(&mut self, z: usize, o: usize, b: usize)
        requires
            old(self).wf(),
            z < 3,
            o < 10,
        ensures
            Bsa::only_areas_of(old(self), final(self), z as int),
            final(self).free_pages@ == old(self).free_pages@,
            final(self).area(z as int, o as int) == remove_nearest(old(self).area(z as int, o as int), b),
            forall|o2: int| 0 <= o2 < 10 && o2 != o ==> #[trigger] final(self).area(z as int, o2) == old(self).area(z as int, o2),
    {
        let idx = z * 10 + o;
        let mut a = FreeArea::new();
        std::mem::swap(&mut a, &mut self.areas[idx]);
        let ghost before = a.blocks@;
        a.remove_block(b);
        self.areas.set(idx, a);
        proof {
            lemma_remove_nearest_sub(before, b);
            assert forall|i: int| 0 <= i < 30 implies addressable(#[trigger] self.areas@[i].blocks@) by {
                if i != idx {
                    assert(self.areas@[i] == old(self).areas@[i]);
                } else {
                    assert forall|k: int| 0 <= k < self.areas@[i].blocks@.len() implies
                        (#[trigger] self.areas@[i].blocks@[k]) as int * 4096 <= usize::MAX by {
                        assert(before.contains(self.areas@[i].blocks@[k]));
                    }
                }
            }
            assert forall|z2: int, o2: int| 0 <= z2 < 3 && 0 <= o2 < 10 && (z2, o2) != (z as int, o as int)
                implies #[trigger] self.area(z2, o2) == old(self).area(z2, o2) by {
                assert(z2 * 10 + o2 != idx);
            }
        }
    }

    /// Frees block `pfn` of order `order` into zone `z`: it merges with its
    /// free buddy as long as there is one (up to order 9), and the merged
    /// block heads the free list of its order.
    fn free_to_zone(&mut self, pfm: &mut Pfm, z: usize, pfn: usize, order: usize)
        requires
            old(self).wf(),
            old(pfm).wf(),
            z < 3,
            order < 10,
        ensures
            Bsa::only_areas_of(old(self), final(self), z as int),
            final(pfm).wf(),
            forall|q: int| #[trigger] final(pfm).loc(q) == old(pfm).loc(q),
            ({
                let (fp, fo) = merge_end(old(pfm), pfn, order as nat);
                &&& forall|o2: int| order <= o2 < fo ==> #[trigger] final(self).area(z as int, o2)
                    == remove_nearest(old(self).area(z as int, o2), merge_buddy(pfn, order as nat, o2 as nat))
                &&& final(self).area(z as int, fo as int) == old(self).area(z as int, fo as int) + if_recorded(old(pfm), fp as int)
                &&& forall|o2: int| 0 <= o2 < 10 && !(order <= o2 <= fo) ==> #[trigger] final(self).area(z as int, o2) == old(self).area(z as int, o2)
                &&& final(self).free_pages@[z as int] == wrap_add(old(self).free_pages@[z as int], pow2(fo) as int)
                &&& old(pfm).page(fp as int) matches Some(p) ==> final(pfm).page(fp as int)
                    == Some(Page { flags: FREE | BUDDY_HEAD, order: fo as u8, ..p })
                &&& fp != pfn ==> (old(pfm).page(pfn as int) matches Some(p) ==> final(pfm).page(pfn as int)
                    == Some(Page { flags: FREE | BUDDY_HEAD, order: order as u8, ..p }))
                &&& forall|q: int| q != fp && q != pfn ==> #[trigger] final(pfm).page(q) == old(pfm).page(q)
            }),
    {
        let ghost p0 = *pfm;
        let ghost s0 = *self;
        set_state(pfm, pfn, FREE | BUDDY_HEAD, Some(order as u8));
        let ghost p1 = *pfm;
        let mut cur = pfn;
        let mut o = order;
        let mut stop = false;
        while o < MAX_ORDER - 1 && !stop
            invariant
                order <= o <= 9 || (o == order && order == 9),
                z < 3,
                order < 10,
                o < 10,
                s0.wf(),
                Bsa::only_areas_of(&s0, self, z as int),
                self.free_pages@ == s0.free_pages@,
                *pfm == p1,
                p1.wf(),
                p0.wf(),
                forall|q: int| #[trigger] p1.loc(q) == p0.loc(q),
                forall|q: int| q != pfn ==> #[trigger] p1.page(q) == p0.page(q),
                (cur >> (o as usize)) == (pfn >> (o as usize)),
                merge_end(&p0, pfn, order as nat) == (if stop { (cur, o as nat) } else { merge_end(&p0, cur, o as nat) }),
                forall|o2: nat| o2 >= o ==> #[trigger] merge_buddy(pfn, order as nat, o2) == merge_buddy(cur, o as nat, o2),
                forall|o2: int| order <= o2 < o ==> #[trigger] self.area(z as int, o2)
                    == remove_nearest(s0.area(z as int, o2), merge_buddy(pfn, order as nat, o2 as nat)),
                forall|o2: int| 0 <= o2 < 10 && !(order <= o2 < o) ==> #[trigger] self.area(z as int, o2) == s0.area(z as int, o2),
            decreases 9 - o, (if stop { 0int } else { 1int }),
        {
            let bit: usize = 1usize << o;
            let b = cur ^ bit;
            proof {
                let oo = o;
                let c = cur;
                let pf = pfn;
                assert(((c ^ (1usize << oo)) >> oo) != (pf >> oo)) by (bit_vector)
                    requires (c >> oo) == (pf >> oo), oo < 10;
                assert(b != pfn);
                assert(p1.page(b as int) == p0.page(b as int));
            }
            let merge = match page_of(pfm, b) {
                Some(bp) => {
                    let f = bp.flags & 0xf;
                    f & FREE == FREE && f & BUDDY_HEAD == BUDDY_HEAD && bp.order as usize == o
                },
                None => false,
            };
            if merge {
                let ghost sa = *self;
                self.area_remove_block(z, o, b);
                proof {
                    let oo = o;
                    let c = cur;
                    let pf = pfn;
                    assert(((if (c ^ (1usize << oo)) < c { c ^ (1usize << oo) } else { c }) >> ((oo + 1) as usize)) == (pf >> ((oo + 1) as usize))) by (bit_vector)
                        requires (c >> oo) == (pf >> oo), oo < 10;
                    assert forall|o2: nat| o2 >= o + 1 implies #[trigger] merge_buddy(pfn, order as nat, o2)
                        == merge_buddy(if b < cur { b } else { cur }, (o + 1) as nat, o2) by {
                        assert(merge_buddy(pfn, order as nat, o2) == merge_buddy(cur, o as nat, o2));
                    }
                    assert(merge_buddy(pfn, order as nat, o as nat) == merge_buddy(cur, o as nat, o as nat));
                    assert forall|o2: int| order <= o2 < o + 1 implies #[trigger] self.area(z as int, o2)
                        == remove_nearest(s0.area(z as int, o2), merge_buddy(pfn, order as nat, o2 as nat)) by {
                        if o2 < o {
                            assert(self.area(z as int, o2) == sa.area(z as int, o2));
                        }
                    }
                    assert forall|o2: int| 0 <= o2 < 10 && !(order <= o2 < o + 1) implies #[trigger] self.area(z as int, o2) == s0.area(z as int, o2) by {
                        assert(self.area(z as int, o2) == sa.area(z as int, o2));
                    }
                    assert(Bsa::only_areas_of(&sa, self, z as int));
                    assert forall|i: int| 0 <= i < 3 && i != z implies #[trigger] self.free_pages@[i] == s0.free_pages@[i] by {
                    }
                    assert forall|z2: int, o3: int| 0 <= z2 < 3 && z2 != z && 0 <= o3 < 10 implies #[trigger] self.area(z2, o3) == s0.area(z2, o3) by {
                        assert(sa.area(z2, o3) == s0.area(z2, o3));
                    }
                }
                if b < cur {
                    cur = b;
                }
                o = o + 1;
            } else {
                stop = true;
            }
        }
        proof {
            lemma_pow2_small(o as nat);
        }
        let ghost s2 = *self;
        set_state(pfm, cur, FREE | BUDDY_HEAD, Some(o as u8));
        self.area_add(pfm, z, o, cur);
        let ghost s3 = *self;
        let c = self.free_pages[z];
        self.free_pages.set(z, c.wrapping_add(1usize << o));
        proof {
            assert(self.areas == s3.areas);
            assert forall|o2: int| 0 <= o2 < 10 && o2 != o implies #[trigger] s3.area(z as int, o2) == s2.area(z as int, o2) by {
            }
            assert(merge_end(&p0, pfn, order as nat) == (cur, o as nat));
            assert(pfm.page(cur as int) is Some == p0.page(cur as int) is Some);
            assert forall|o2: int| order <= o2 < o implies #[trigger] self.area(z as int, o2)
                == remove_nearest(s0.area(z as int, o2), merge_buddy(pfn, order as nat, o2 as nat)) by {
                assert(s3.area(z as int, o2) == s2.area(z as int, o2));
                assert(s2.area(z as int, o2) == remove_nearest(s0.area(z as int, o2), merge_buddy(pfn, order as nat, o2 as nat)));
            }
            assert forall|o2: int| 0 <= o2 < 10 && !(order <= o2 <= o) implies #[trigger] self.area(z as int, o2) == s0.area(z as int, o2) by {
                assert(s3.area(z as int, o2) == s2.area(z as int, o2));
                assert(s2.area(z as int, o2) == s0.area(z as int, o2));
            }
            assert(s2.area(z as int, o as int) == s0.area(z as int, o as int));
            assert forall|i: int| 0 <= i < 3 && i != z implies #[trigger] self.free_pages@[i] == s0.free_pages@[i] by {
            }
            assert forall|z2: int, o3: int| 0 <= z2 < 3 && z2 != z && 0 <= o3 < 10 implies #[trigger] self.area(z2, o3) == s0.area(z2, o3) by {
                assert(s3.area(z2, o3) == s2.area(z2, o3));
                assert(s2.area(z2, o3) == s0.area(z2, o3));
            }
            assert forall|i: int| 0 <= i < 30 implies addressable(#[trigger] self.areas@[i].blocks@) by {
                assert(self.areas@[i] == s3.areas@[i]);
            }
        }
    }
}

/// Removing an item keeps every remaining item among the original ones.
proof fn lemma_remove_nearest_sub(s: Seq<usize>, x: usize)
    ensures
        forall|k: int| 0 <= k < remove_nearest(s, x).len() ==> s.contains(#[trigger] remove_nearest(s, x)[k]),
    decreases s.len(),
{
    if s.len() > 0 {
        lemma_remove_nearest_sub(s.drop_last(), x);
        let r = remove_nearest(s, x);
        assert forall|k: int| 0 <= k < r.len() implies s.contains(#[trigger] r[k]) by {
            if s.last() == x {
                assert(s[k] == r[k]);
            } else if k < r.len() - 1 {
                let r0 = remove_nearest(s.drop_last(), x);
                assert(r[k] == r0[k]);
                assert(s.drop_last().contains(r0[k]));
                let j = choose|j: int| 0 <= j < s.drop_last().len() && s.drop_last()[j] == r0[k];
                assert(s[j] == r[k]);
            } else {
                assert(r[k] == s.last());
                assert(s[s.len() - 1] == r[k]);
            }
        }
    }
}

/// Whether `k` is the least order whose block holds `n` frames.
pub open spec fn is_ceil_order(n: int, k: nat) -> bool {
    &&& pow2(k) >= n
    &&& (k == 0 || pow2((k - 1) as nat) < n)
}

/// Whether `new` differs from `old` at most in zone `z` (lists, caches and
/// counters).
pub open spec fn only_zone(old: &Bsa, new: &Bsa, z: int) -> bool {
    &&& new.wf()
    &&& new.ncpus == old.ncpus
    &&& new.bounds@ == old.bounds@
    &&& forall|i: int| 0 <= i < 3 && i != z ==> #[trigger] new.free_pages@[i] == old.free_pages@[i]
    &&& forall|i: int| 0 <= i < 3 && i != z ==> #[trigger] new.pcp_pages@[i] == old.pcp_pages@[i]
    &&& forall|z2: int, o: int| 0 <= z2 < 3 && z2 != z && 0 <= o < 10 ==> #[trigger] new.area(z2, o) == old.area(z2, o)
    &&& forall|z2: int, c: int, o: int| 0 <= z2 < 3 && z2 != z && 0 <= c < old.ncpus && 0 <= o < 10
        ==> #[trigger] new.cache(z2, c, o) == old.cache(z2, c, o)
}

impl Bsa {
    /// Takes the last block of the cache list of zone `z`, CPU `cpu`,
    /// order `o`.
    fn pcp_take(&mut self, z: usize, cpu: usize, o: usize) -> (r: Option<usize>)
        requires
            old(self).wf(),
            z < 3,
            cpu < old(self).ncpus,
            o < 10,
        ensures
            only_zone(old(self), final(self), z as int),
            final(self).areas@ == old(self).areas@,
            final(self).free_pages@ == old(self).free_pages@,
            final(self).pcp_pages@ == old(self).pcp_pages@,
            old(self).cache(z as int, cpu as int, o as int).len() == 0 ==> r is None && *final(self) == *old(self),
            old(self).cache(z as int, cpu as int, o as int).len() > 0 ==> r == Some(old(self).cache(z as int, cpu as int, o as int).last())
                && final(self).cache(z as int, cpu as int, o as int) == old(self).cache(z as int, cpu as int, o as int).drop_last(),
            forall|c: int, o2: int| 0 <= c < old(self).ncpus && 0 <= o2 < 10 && (c, o2) != (cpu as int, o as int)
                ==> #[trigger] final(self).cache(z as int, c, o2) == old(self).cache(z as int, c, o2),
            r matches Some(p) ==> p * 4096 <= usize::MAX,
    {
        let idx = self.pcp_slot(z, cpu, o);
        if pcp_len(&self.pcp[idx]) == 0 {
            return None;
        }
        let mut v = pcp_new();
        std::mem::swap(&mut v, &mut self.pcp[idx]);
        let ghost before = pcp_items(v);
        let r = pcp_pop(&mut v);
        self.pcp.set(idx, v);
        proof {
            self.lemma_pcp_index_distinct(z as int, cpu as int, o as int);
            assert forall|i: int| 0 <= i < 30 * self.ncpus implies addressable(pcp_items(#[trigger] self.pcp@[i])) by {
                if i != idx {
                    assert(self.pcp@[i] == old(self).pcp@[i]);
                } else {
                    assert forall|k: int| 0 <= k < pcp_items(self.pcp@[i]).len() implies
                        (#[trigger] pcp_items(self.pcp@[i])[k]) as int * 4096 <= usize::MAX by {
                        assert(pcp_items(self.pcp@[i])[k] == before[k]);
                    }
                }
            }
            assert(before[before.len() - 1] as int * 4096 <= usize::MAX);
        }
        r
    }

    /// The slot of the cache list of zone `z`, CPU `cpu`, order `o`.
    fn pcp_slot(&self, z: usize, cpu: usize, o: usize) -> (i: usize)
        requires
            self.wf(),
            z < 3,
            cpu < self.ncpus,
            o < 10,
        ensures
            i == pcp_index(self.ncpus as int, z as int, cpu as int, o as int),
            i < 30 * self.ncpus,
    {
        proof {
            assert((z * self.ncpus + cpu) * 10 + o < 30 * self.ncpus) by (nonlinear_arith)
                requires z < 3, cpu < self.ncpus, o < 10;
            assert(z * self.ncpus <= 2 * self.ncpus) by (nonlinear_arith) requires z < 3;
        }
        (z * self.ncpus + cpu) * 10 + o
    }

    /// Index arithmetic of the cache lists: distinct (zone, CPU, order)
    /// triples have distinct slots.
    proof fn lemma_pcp_index_distinct(&self, z: int, c: int, o: int)
        requires
            self.ncpus > 0,
            0 <= z < 3,
            0 <= c < self.ncpus,
            0 <= o < 10,
        ensures
            forall|z2: int, c2: int, o2: int| 0 <= z2 < 3 && 0 <= c2 < self.ncpus && 0 <= o2 < 10 && (z2, c2, o2) != (z, c, o)
                ==> #[trigger] pcp_index(self.ncpus as int, z2, c2, o2) != pcp_index(self.ncpus as int, z, c, o),
            forall|z2: int, c2: int, o2: int| 0 <= z2 < 3 && 0 <= c2 < self.ncpus && 0 <= o2 < 10
                ==> 0 <= #[trigger] pcp_index(self.ncpus as int, z2, c2, o2) < 30 * self.ncpus,
    {
        let n = self.ncpus as int;
        assert forall|z2: int, c2: int, o2: int| 0 <= z2 < 3 && 0 <= c2 < n && 0 <= o2 < 10 && (z2, c2, o2) != (z, c, o)
            implies #[trigger] pcp_index(n, z2, c2, o2) != pcp_index(n, z, c, o) by {
            assert(pcp_index(n, z2, c2, o2) != pcp_index(n, z, c, o)) by (nonlinear_arith)
                requires 0 <= z2 < 3, 0 <= c2 < n, 0 <= o2 < 10, 0 <= z < 3, 0 <= c < n, 0 <= o < 10,
                    (z2, c2, o2) != (z, c, o),
                    pcp_index(n, z2, c2, o2) == (z2 * n + c2) * 10 + o2,
                    pcp_index(n, z, c, o) == (z * n + c) * 10 + o;
        }
        assert forall|z2: int, c2: int, o2: int| 0 <= z2 < 3 && 0 <= c2 < n && 0 <= o2 < 10
            implies 0 <= #[trigger] pcp_index(n, z2, c2, o2) < 30 * n by {
            assert(0 <= (z2 * n + c2) * 10 + o2 < 30 * n) by (nonlinear_arith)
                requires 0 <= z2 < 3, 0 <= c2 < n, 0 <= o2 < 10;
        }
    }

    /// Adds block `pfn` to the cache list of zone `z`, CPU `cpu`, order
    /// `o` unless the list is full; says whether it did.
    fn pcp_put(&mut self, z: usize, cpu: usize, o: usize, pfn: usize) -> (b: bool)
        requires
            old(self).wf(),
            z < 3,
            cpu < old(self).ncpus,
            o < 10,
            pfn * 4096 <= usize::MAX,
        ensures
            only_zone(old(self), final(self), z as int),
            final(self).areas@ == old(self).areas@,
            final(self).free_pages@ == old(self).free_pages@,
            final(self).pcp_pages@ == old(self).pcp_pages@,
            b == (old(self).cache(z as int, cpu as int, o as int).len() < PCP_SIZE),
            b ==> final(self).cache(z as int, cpu as int, o as int) == old(self).cache(z as int, cpu as int, o as int).push(pfn),
            !b ==> *final(self) == *old(self),
            forall|c: int, o2: int| 0 <= c < old(self).ncpus && 0 <= o2 < 10 && (c, o2) != (cpu as int, o as int)
                ==> #[trigger] final(self).cache(z as int, c, o2) == old(self).cache(z as int, c, o2),
    {
        let idx = self.pcp_slot(z, cpu, o);
        if pcp_is_full(&self.pcp[idx]) {
            return false;
        }
        let mut v = pcp_new();
        std::mem::swap(&mut v, &mut self.pcp[idx]);
        let ghost before = pcp_items(v);
        let pushed = pcp_push(&mut v, pfn);
        self.pcp.set(idx, v);
        proof {
            self.lemma_pcp_index_distinct(z as int, cpu as int, o as int);
            assert forall|i: int| 0 <= i < 30 * self.ncpus implies addressable(pcp_items(#[trigger] self.pcp@[i])) by {
                if i != idx {
                    assert(self.pcp@[i] == old(self).pcp@[i]);
                } else {
                    assert forall|k: int| 0 <= k < pcp_items(self.pcp@[i]).len() implies
                        (#[trigger] pcp_items(self.pcp@[i])[k]) as int * 4096 <= usize::MAX by {
                        if k < before.len() {
                            assert(pcp_items(self.pcp@[i])[k] == before[k]);
                        }
                    }
                }
            }
        }
        pushed
    }
}

/// Changes confined to one zone compose.
proof fn lemma_only_zone_trans(a: &Bsa, b: &Bsa, c: &Bsa, z: int)
    requires
        only_zone(a, b, z),
        only_zone(b, c, z),
    ensures
        only_zone(a, c, z),
{
    assert forall|z2: int, o: int| 0 <= z2 < 3 && z2 != z && 0 <= o < 10 implies #[trigger] c.area(z2, o) == a.area(z2, o) by {
        assert(c.area(z2, o) == b.area(z2, o));
    }
    assert forall|z2: int, cp: int, o: int| 0 <= z2 < 3 && z2 != z && 0 <= cp < a.ncpus && 0 <= o < 10
        implies #[trigger] c.cache(z2, cp, o) == a.cache(z2, cp, o) by {
        assert(c.cache(z2, cp, o) == b.cache(z2, cp, o));
    }
    assert forall|i: int| 0 <= i < 3 && i != z implies #[trigger] c.free_pages@[i] == a.free_pages@[i] by {
        assert(c.free_pages@[i] == b.free_pages@[i]);
    }
    assert forall|i: int| 0 <= i < 3 && i != z implies #[trigger] c.pcp_pages@[i] == a.pcp_pages@[i] by {
        assert(c.pcp_pages@[i] == b.pcp_pages@[i]);
    }
}

/// A change of the free lists of one zone is confined to that zone.
proof fn lemma_areas_in_zone(b: &Bsa, c: &Bsa, z: int)
    requires
        Bsa::only_areas_of(b, c, z),
    ensures
        only_zone(b, c, z),
{
}

/// Setting a counter of zone `z` keeps the change confined to `z`.
proof fn lemma_counters_in_zone(b: &Bsa, c: &Bsa, z: int)
    requires
        b.wf(),
        0 <= z < 3,
        c.ncpus == b.ncpus,
        c.areas@ == b.areas@,
        c.pcp@ == b.pcp@,
        c.bounds@ == b.bounds@,
        c.free_pages@.len() == 3,
        c.pcp_pages@.len() == 3,
        forall|i: int| 0 <= i < 3 && i != z ==> #[trigger] c.free_pages@[i] == b.free_pages@[i],
        forall|i: int| 0 <= i < 3 && i != z ==> #[trigger] c.pcp_pages@[i] == b.pcp_pages@[i],
    ensures
        only_zone(b, c, z),
{
    assert forall|i: int| 0 <= i < 30 implies addressable(#[trigger] c.areas@[i].blocks@) by {
        assert(c.areas@[i] == b.areas@[i]);
    }
}

/// Whether the record of frame `pfn` marks the head of an allocated block
/// of order `order`.
pub open spec fn allocated_head(pfm: &Pfm, pfn: int, order: int) -> bool {
    pfm.page(pfn) matches Some(pg) && pg.flags == ALLOCATED | BUDDY_HEAD && pg.order == order
}

impl Bsa {
    /// Moves up to 16 blocks of order `order` from the free lists of zone
    /// `z` to the cache list of CPU `cpu`; a block that does not fit in the
    /// full cache goes back to the free list of its order.
    fn refill_pcp(&mut self, pfm: &mut Pfm, z: usize, order: usize, cpu: usize)
        requires
            old(self).wf(),
            old(pfm).wf(),
            z < 3,
            order < 10,
            cpu < old(self).ncpus,
        ensures
            only_zone(old(self), final(self), z as int),
            final(pfm).wf(),
            forall|q: int| #[trigger] final(pfm).loc(q) == old(pfm).loc(q),
            ({
                let c0 = old(self).cache(z as int, cpu as int, order as int);
                let c1 = final(self).cache(z as int, cpu as int, order as int);
                &&& c0.len() <= c1.len() <= c0.len() + PCP_SIZE / 2
                &&& c1.subrange(0, c0.len() as int) == c0
                &&& old(self).refill_owed(old(pfm), z as int, cpu as int, order as int) ==> c1.len() > c0.len()
                &&& (final(self).free_pages@[z as int] as int) % counter_mod()
                    == (old(self).free_pages@[z as int] - (c1.len() - c0.len()) * (pow2(order as nat) as int)) % counter_mod()
                &&& (final(self).pcp_pages@[z as int] as int) % counter_mod()
                    == (old(self).pcp_pages@[z as int] + (c1.len() - c0.len()) * (pow2(order as nat) as int)) % counter_mod()
                &&& held(final(self), z as int) % counter_mod() == held(old(self), z as int) % counter_mod()
                &&& c1.len() > c0.len() && (c1.len() == c0.len() + PCP_SIZE / 2 || c1.len() < PCP_SIZE)
                    ==> allocated_head(final(pfm), c1.last() as int, order as int)
            }),
            forall|c: int, o2: int| 0 <= c < old(self).ncpus && 0 <= o2 < 10 && (c, o2) != (cpu as int, order as int)
                ==> #[trigger] final(self).cache(z as int, c, o2) == old(self).cache(z as int, c, o2),
    {
        let mut count: usize = 0;
        let mut done = false;
        let ghost mut full_hit = false;
        let ghost c0 = old(self).cache(z as int, cpu as int, order as int);
        let ghost d = pow2(order as nat) as int;
        let ghost f0 = old(self).free_pages@[z as int] as int;
        let ghost q0 = old(self).pcp_pages@[z as int] as int;
        let ghost mut jf: int = 0;
        let ghost mut jp: int = 0;
        proof { assert(c0.subrange(0, c0.len() as int) =~= c0); lemma_pow2_small(order as nat); }
        while count < PCP_SIZE / 2 && !done
            invariant
                old(self).wf(),
                z < 3,
                order < 10,
                cpu < self.ncpus,
                only_zone(old(self), self, z as int),
                pfm.wf(),
                forall|q: int| #[trigger] pfm.loc(q) == old(pfm).loc(q),
                c0 == old(self).cache(z as int, cpu as int, order as int),
                count <= PCP_SIZE / 2,
                self.cache(z as int, cpu as int, order as int).len() == c0.len() + count,
                self.cache(z as int, cpu as int, order as int).subrange(0, c0.len() as int) == c0,
                forall|c: int, o2: int| 0 <= c < old(self).ncpus && 0 <= o2 < 10 && (c, o2) != (cpu as int, order as int)
                    ==> #[trigger] self.cache(z as int, c, o2) == old(self).cache(z as int, c, o2),
                count == 0 && done ==> !old(self).refill_owed(old(pfm), z as int, cpu as int, order as int),
                count == 0 && !done ==> *self == *old(self) && *pfm == *old(pfm),
                d == pow2(order as nat),
                1 <= d <= 1024,
                f0 == old(self).free_pages@[z as int],
                q0 == old(self).pcp_pages@[z as int],
                self.free_pages@[z as int] as int == f0 - count * d + jf * counter_mod(),
                self.pcp_pages@[z as int] as int == q0 + count * d + jp * counter_mod(),
                count > 0 && !full_hit ==> allocated_head(pfm, self.cache(z as int, cpu as int, order as int).last() as int, order as int),
                full_hit ==> self.cache(z as int, cpu as int, order as int).len() >= PCP_SIZE && count < PCP_SIZE / 2,
            decreases PCP_SIZE / 2 - count, (if done { 0int } else { 1int }),
        {
            let mut found = order;
            while found < MAX_ORDER && self.areas[z * 10 + found].blocks.len() == 0
                invariant
                    self.wf(),
                    z < 3,
                    order <= found <= 10,
                    self.first_nonempty(z as int, order as int) == self.first_nonempty(z as int, found as int),
                decreases 10 - found,
            {
                proof { assert(self.area(z as int, found as int).len() == 0); }
                found = found + 1;
            }
            proof {
                if found < MAX_ORDER {
                    assert(self.area(z as int, found as int).len() > 0);
                }
            }
            if found >= MAX_ORDER {
                done = true;
            } else {
                let ghost s0 = *self;
                match self.area_remove(pfm, z, found) {
                    None => {
                        done = true;
                    },
                    Some(pfn) => {
                        proof {
                            lemma_areas_in_zone(&s0, self, z as int);
                            lemma_only_zone_trans(old(self), &s0, self, z as int);
                        }
                        let mut k = found;
                        while k > order
                            invariant
                                order <= k <= found < 10,
                                z < 3,
                                cpu < self.ncpus,
                                pfn * 4096 <= usize::MAX,
                                old(self).wf(),
                                only_zone(old(self), self, z as int),
                                pfm.wf(),
                                forall|q: int| #[trigger] pfm.loc(q) == old(pfm).loc(q),
                                self.pcp@ == s0.pcp@,
                                self.ncpus == s0.ncpus,
                                self.free_pages@ == s0.free_pages@,
                                self.pcp_pages@ == s0.pcp_pages@,
                                self.free_pages@[z as int] as int == f0 - count * d + jf * counter_mod(),
                                self.pcp_pages@[z as int] as int == q0 + count * d + jp * counter_mod(),
                            decreases k,
                        {
                            k = k - 1;
                            proof {
                                lemma_pow2_small(k as nat);
                            }
                            let bsz: usize = 1usize << k;
                            let buddy = pfn + bsz;
                            mark_block(pfm, buddy, bsz, FREE | BUDDY_HEAD, FREE, k as u8);
                            let ghost sa = *self;
                            self.area_add(pfm, z, k, buddy);
                            proof {
                                lemma_areas_in_zone(&sa, self, z as int);
                                lemma_only_zone_trans(old(self), &sa, self, z as int);
                            }
                        }
                        proof {
                            lemma_pow2_small(order as nat);
                        }
                        let ghost sb = *self;
                        proof {
                            assert forall|c: int, o2: int| 0 <= c < old(self).ncpus && 0 <= o2 < 10
                                implies #[trigger] sb.cache(z as int, c, o2) == s0.cache(z as int, c, o2) by {}
                        }
                        proof {
                            assert(pfm.loc(pfn as int) == old(pfm).loc(pfn as int));
                            assert(pfm.page(pfn as int) is Some);
                        }
                        if self.pcp_put(z, cpu, order, pfn) {
                            let ghost sc = *self;
                            set_state(pfm, pfn, ALLOCATED | BUDDY_HEAD, Some(order as u8));
                            let f = self.free_pages[z];
                            self.free_pages.set(z, f.wrapping_sub(1usize << order));
                            let c = self.pcp_pages[z];
                            self.pcp_pages.set(z, c.wrapping_add(1usize << order));
                            proof {
                                assert(f as int == f0 - count * d + jf * counter_mod());
                                assert(c as int == q0 + count * d + jp * counter_mod());
                                assert(self.free_pages@[z as int] == wrap_sub(f, d));
                                assert(self.pcp_pages@[z as int] == wrap_add(c, d));
                                lemma_wrap(f, d);
                                lemma_wrap(c, d);
                                assert((count + 1) * d == count * d + d) by (nonlinear_arith);
                                assert((jf + 1) * counter_mod() == jf * counter_mod() + counter_mod()) by (nonlinear_arith);
                                assert((jp - 1) * counter_mod() == jp * counter_mod() - counter_mod()) by (nonlinear_arith);
                                if wrap_sub(f, d) as int != f - d {
                                    jf = jf + 1;
                                }
                                if wrap_add(c, d) as int != c + d {
                                    jp = jp - 1;
                                }
                            }
                            count = count + 1;
                            proof {
                                lemma_only_zone_trans(old(self), &sb, &sc, z as int);
                                lemma_counters_in_zone(&sc, self, z as int);
                                lemma_only_zone_trans(old(self), &sc, self, z as int);
                                assert forall|c: int, o2: int| 0 <= c < old(self).ncpus && 0 <= o2 < 10
                                    implies #[trigger] self.cache(z as int, c, o2) == sc.cache(z as int, c, o2) by {}
                                let cb = sb.cache(z as int, cpu as int, order as int);
                                assert(cb.push(pfn).subrange(0, c0.len() as int) =~= cb.subrange(0, c0.len() as int));
                                assert(self.cache(z as int, cpu as int, order as int) == sc.cache(z as int, cpu as int, order as int));
                                assert(self.cache(z as int, cpu as int, order as int).last() == pfn);
                                assert(self.free_pages@[z as int] as int == f0 - count * d + jf * counter_mod());
                                assert(self.pcp_pages@[z as int] as int == q0 + count * d + jp * counter_mod());
                            }
                        } else {
                            set_state(pfm, pfn, FREE | BUDDY_HEAD, Some(order as u8));
                            self.area_add(pfm, z, order, pfn);
                            done = true;
                            proof {
                                full_hit = true;
                                assert(self.free_pages@[z as int] as int == f0 - count * d + jf * counter_mod());
                                lemma_areas_in_zone(&sb, self, z as int);
                                lemma_only_zone_trans(old(self), &sb, self, z as int);
                                assert forall|c: int, o2: int| 0 <= c < old(self).ncpus && 0 <= o2 < 10
                                    implies #[trigger] self.cache(z as int, c, o2) == sb.cache(z as int, c, o2) by {}
                            }
                        }
                    },
                }
            }
        }
        proof {
            lemma_turns(self.free_pages@[z as int] as int, f0 - count * d, jf);
            lemma_turns(self.pcp_pages@[z as int] as int, q0 + count * d, jp);
            assert((jf + jp) * counter_mod() == jf * counter_mod() + jp * counter_mod()) by (nonlinear_arith);
            lemma_turns(held(self, z as int), held(old(self), z as int), jf + jp);
        }
    }

    /// Hands half of the cache list of CPU `cpu`, order `order`, in zone
    /// `z` back to the free lists.
    fn drain_pcp(&mut self, pfm: &mut Pfm, z: usize, order: usize, cpu: usize)
        requires
            old(self).wf(),
            old(pfm).wf(),
            z < 3,
            order < 10,
            cpu < old(self).ncpus,
        ensures
            only_zone(old(self), final(self), z as int),
            final(pfm).wf(),
            forall|q: int| #[trigger] final(pfm).loc(q) == old(pfm).loc(q),
            ({
                let c0 = old(self).cache(z as int, cpu as int, order as int);
                final(self).cache(z as int, cpu as int, order as int) == c0.take(c0.len() - c0.len() / 2)
            }),
            forall|c: int, o2: int| 0 <= c < old(self).ncpus && 0 <= o2 < 10 && (c, o2) != (cpu as int, order as int)
                ==> #[trigger] final(self).cache(z as int, c, o2) == old(self).cache(z as int, c, o2),
    {
        let mut to_free = pcp_new();
        let idx = self.pcp_slot(z, cpu, order);
        let n = pcp_len(&self.pcp[idx]) / 2;
        let ghost c0 = old(self).cache(z as int, cpu as int, order as int);
        let mut i: usize = 0;
        proof {
            lemma_pow2_small(order as nat);
            assert(c0.take(c0.len() as int) =~= c0);
        }
        while i < n
            invariant
                old(self).wf(),
                z < 3,
                order < 10,
                cpu < self.ncpus,
                only_zone(old(self), self, z as int),
                i <= n,
                n <= 16,
                n == c0.len() / 2,
                c0 == old(self).cache(z as int, cpu as int, order as int),
                self.cache(z as int, cpu as int, order as int) == c0.take(c0.len() - i),
                forall|c: int, o2: int| 0 <= c < old(self).ncpus && 0 <= o2 < 10 && (c, o2) != (cpu as int, order as int)
                    ==> #[trigger] self.cache(z as int, c, o2) == old(self).cache(z as int, c, o2),
                pcp_items(to_free).len() <= i,
                addressable(pcp_items(to_free)),
            decreases n - i,
        {
            proof {
                assert(c0.take(c0.len() - i).drop_last() =~= c0.take(c0.len() - i - 1));
            }
            let ghost sa = *self;
            if let Some(pfn) = self.pcp_take(z, cpu, order) {
                let ghost sb = *self;
                let c = self.pcp_pages[z];
                self.pcp_pages.set(z, c.wrapping_sub(1usize << order));
                let ghost before = pcp_items(to_free);
                let _ = pcp_push(&mut to_free, pfn);
                proof {
                    assert forall|k: int| 0 <= k < pcp_items(to_free).len() implies
                        (#[trigger] pcp_items(to_free)[k]) as int * 4096 <= usize::MAX by {
                        if k < before.len() {
                            assert(pcp_items(to_free)[k] == before[k]);
                        }
                    }
                    lemma_counters_in_zone(&sb, self, z as int);
                    lemma_only_zone_trans(&sa, &sb, self, z as int);
                    lemma_only_zone_trans(old(self), &sa, self, z as int);
                    assert(self.pcp@ == sb.pcp@ && self.ncpus == sb.ncpus);
                    assert forall|c: int, o2: int| 0 <= c < old(self).ncpus && 0 <= o2 < 10 && (c, o2) != (cpu as int, order as int)
                        implies #[trigger] self.cache(z as int, c, o2) == old(self).cache(z as int, c, o2) by {
                        assert(self.cache(z as int, c, o2) == sb.cache(z as int, c, o2));
                        assert(sb.cache(z as int, c, o2) == sa.cache(z as int, c, o2));
                    }
                    assert(self.cache(z as int, cpu as int, order as int) == sb.cache(z as int, cpu as int, order as int));
                }
            }
            i = i + 1;
        }
        let m = pcp_len(&to_free);
        let ghost before_free = *self;
        let mut j: usize = 0;
        while j < m
            invariant
                old(self).wf(),
                z < 3,
                order < 10,
                only_zone(old(self), self, z as int),
                pfm.wf(),
                forall|q: int| #[trigger] pfm.loc(q) == old(pfm).loc(q),
                m == pcp_items(to_free).len(),
                j <= m,
                self.ncpus == old(self).ncpus,
                self.pcp@ == before_free.pcp@,
            decreases m - j,
        {
            let pfn = pcp_get(&to_free, j);
            let ghost sa = *self;
            self.free_to_zone(pfm, z, pfn, order);
            proof {
                lemma_areas_in_zone(&sa, self, z as int);
                lemma_only_zone_trans(old(self), &sa, self, z as int);
            }
            j = j + 1;
        }
        proof {
            assert forall|c: int, o2: int| 0 <= c < old(self).ncpus && 0 <= o2 < 10
                implies #[trigger] self.cache(z as int, c, o2) == before_free.cache(z as int, c, o2) by {}
        }
    }
}

/// What freeing the block at `paddr` on CPU `cpu` does: a frame without a
/// record changes nothing; a block whose cache list has room joins it,
/// marked allocated; otherwise only its zone changes (the block and half
/// of the cache list go back to the free lists).
pub open spec fn freed_block(old: &Bsa, new: &Bsa, oldp: &Pfm, newp: &Pfm, cpu: usize, paddr: Paddr) -> bool {
    let pfn = (paddr.0 / 4096) as int;
    let z = zone_index(zone_of(pfn));
    &&& oldp.page(pfn) is None ==> *new == *old && *newp == *oldp
    &&& oldp.page(pfn) matches Some(p) ==> (
        if old.cache(z, cpu as int, p.order as int).len() < PCP_SIZE {
            &&& only_zone(old, new, z)
            &&& new.cache(z, cpu as int, p.order as int) == old.cache(z, cpu as int, p.order as int).push(pfn as usize)
            &&& forall|c: int, o: int| 0 <= c < old.ncpus && 0 <= o < 10 && (c, o) != (cpu as int, p.order as int)
                ==> #[trigger] new.cache(z, c, o) == old.cache(z, c, o)
            &&& new.areas@ == old.areas@
            &&& new.free_pages@ == old.free_pages@
            &&& new.pcp_pages@[z] == wrap_add(old.pcp_pages@[z], pow2(p.order as nat) as int)
            &&& held(new, z) % counter_mod() == (held(old, z) + pow2(p.order as nat)) % counter_mod()
            &&& newp.page(pfn) == Some(Page { flags: ALLOCATED | BUDDY_HEAD, ..p })
        } else {
            &&& only_zone(old, new, z)
            &&& new.cache(z, cpu as int, p.order as int) == old.cache(z, cpu as int, p.order as int).take(
                old.cache(z, cpu as int, p.order as int).len() - old.cache(z, cpu as int, p.order as int).len() / 2)
        })
}

impl Bsa {
    /// Whether zone `z` can give CPU `cpu` a block of order `o` at once:
    /// from its cache list or from a free list.
    pub open spec fn avail(&self, pfm: &Pfm, z: int, cpu: int, o: int) -> bool {
        ||| self.cache(z, cpu, o).len() > 0
        ||| self.first_nonempty(z, o) < 10
            && pfm.page(self.area(z, self.first_nonempty(z, o)).last() as int) is Some
    }

    /// The block that zone `z` gives: the last of the cache list, else the
    /// head of the first non-empty free list.
    pub open spec fn pick(&self, z: int, cpu: int, o: int) -> usize {
        if self.cache(z, cpu, o).len() > 0 {
            self.cache(z, cpu, o).last()
        } else {
            self.area(z, self.first_nonempty(z, o)).last()
        }
    }

    /// The zone that `alloc` of a block of order `o` takes it from: the
    /// first of DMA32, Normal and DMA that can give one, else -1.
    pub open spec fn alloc_zone(&self, pfm: &Pfm, cpu: int, o: int) -> int {
        if self.avail(pfm, 1, cpu, o) {
            1
        } else if self.avail(pfm, 2, cpu, o) {
            2
        } else if self.avail(pfm, 0, cpu, o) {
            0
        } else {
            -1
        }
    }

    /// What `alloc` of a block of order `o` returns: the block of the first
    /// zone in the order DMA32, Normal, DMA that can give one, else 0.
    pub open spec fn alloc_result(&self, pfm: &Pfm, cpu: int, o: int) -> int {
        if self.avail(pfm, 1, cpu, o) {
            self.pick(1, cpu, o) * 4096
        } else if self.avail(pfm, 2, cpu, o) {
            self.pick(2, cpu, o) * 4096
        } else if self.avail(pfm, 0, cpu, o) {
            self.pick(0, cpu, o) * 4096
        } else {
            0
        }
    }

    /// Tries zone `z` for a block of order `order`: its cache list first,
    /// then its free lists (refilling the cache after a success there).
    fn alloc_in_zone(&mut self, pfm: &mut Pfm, z: usize, order: usize, cpu: usize) -> (r: Option<usize>)
        requires
            old(self).wf(),
            old(pfm).wf(),
            z < 3,
            order < 10,
            cpu < old(self).ncpus,
        ensures
            final(self).wf(),
            final(self).ncpus == old(self).ncpus,
            final(self).bounds@ == old(self).bounds@,
            final(pfm).wf(),
            forall|q: int| #[trigger] final(pfm).loc(q) == old(pfm).loc(q),
            r is Some <==> old(self).avail(old(pfm), z as int, cpu as int, order as int),
            r matches Some(p) ==> p == old(self).pick(z as int, cpu as int, order as int) && p * 4096 <= usize::MAX,
            r is None ==> *final(self) == *old(self) && *final(pfm) == *old(pfm),
            only_zone(old(self), final(self), z as int),
            r is Some ==> held(final(self), z as int) % counter_mod() == (held(old(self), z as int) - pow2(order as nat)) % counter_mod(),
            old(self).cache(z as int, cpu as int, order as int).len() > 0 ==> {
                &&& final(self).cache(z as int, cpu as int, order as int) == old(self).cache(z as int, cpu as int, order as int).drop_last()
                &&& final(self).areas@ == old(self).areas@
                &&& final(self).free_pages@ == old(self).free_pages@
                &&& forall|c: int, o2: int| 0 <= c < old(self).ncpus && 0 <= o2 < 10 && (c, o2) != (cpu as int, order as int)
                    ==> #[trigger] final(self).cache(z as int, c, o2) == old(self).cache(z as int, c, o2)
            },
    {
        proof {
            lemma_pow2_small(order as nat);
        }
        let ghost d = pow2(order as nat) as int;
        if let Some(pfn) = self.pcp_take(z, cpu, order) {
            let ghost s1 = *self;
            let c = self.pcp_pages[z];
            self.pcp_pages.set(z, c.wrapping_sub(1usize << order));
            proof {
                assert forall|i: int| 0 <= i < 30 implies addressable(#[trigger] self.areas@[i].blocks@) by {
                }
                lemma_counters_in_zone(&s1, self, z as int);
                lemma_only_zone_trans(old(self), &s1, self, z as int);
                assert forall|cc: int, o2: int| 0 <= cc < old(self).ncpus && 0 <= o2 < 10
                    implies #[trigger] self.cache(z as int, cc, o2) == s1.cache(z as int, cc, o2) by {}
                assert(self.pcp_pages@[z as int] == wrap_sub(c, d));
                lemma_wrap(c, d);
                if wrap_sub(c, d) as int == c - d {
                    lemma_turns(held(self, z as int), held(old(self), z as int) - d, 0);
                } else {
                    lemma_turns(held(self, z as int), held(old(self), z as int) - d, 1);
                }
            }
            return Some(pfn);
        }
        let ghost s0 = *self;
        match self.alloc_from_zone(pfm, z, order) {
            Some(pfn) => {
                let ghost s1 = *self;
                proof {
                    lemma_areas_in_zone(&s0, &s1, z as int);
                    let f = s0.free_pages@[z as int];
                    lemma_wrap(f, d);
                    if wrap_sub(f, d) as int == f - d {
                        lemma_turns(held(&s1, z as int), held(&s0, z as int) - d, 0);
                    } else {
                        lemma_turns(held(&s1, z as int), held(&s0, z as int) - d, 1);
                    }
                }
                self.refill_pcp(pfm, z, order, cpu);
                proof {
                    lemma_only_zone_trans(&s0, &s1, self, z as int);
                    let f = old(self).first_nonempty(z as int, order as int);
                    assert(f < 10);
                    lemma_first_nonempty(old(self), z as int, order as int);
                    assert(old(self).areas@[z * 10 + f].blocks@.len() > 0);
                    assert(pfn as int * 4096 <= usize::MAX) by {
                        assert(addressable(old(self).areas@[z * 10 + f].blocks@));
                        assert(old(self).area(z as int, f).last() == old(self).areas@[z * 10 + f].blocks@[old(self).area(z as int, f).len() - 1]);
                    }
                }
                Some(pfn)
            },
            None => None,
        }
    }

    /// Allocates `count` frames: a block of the least order that holds them
    /// (up to order 9), from the caches or free lists of the zones DMA32,
    /// Normal and DMA in that order; the physical address of the block, or
    /// 0 when none could be had.
    pub fn allocate(&mut self, pfm: &mut Pfm, cpu: usize, count: usize) -> (r: Paddr)
        requires
            old(self).wf(),
            old(pfm).wf(),
            cpu < old(self).ncpus,
        ensures
            final(self).wf(),
            final(self).ncpus == old(self).ncpus,
            final(pfm).wf(),
            forall|q: int| #[trigger] final(pfm).loc(q) == old(pfm).loc(q),
            count == 0 ==> r.0 == 0 && *final(self) == *old(self),
            forall|k: nat| count > 0 && #[trigger] is_ceil_order(count as int, k) ==> (
                if k >= 10 {
                    r.0 == 0 && *final(self) == *old(self)
                } else {
                    let z = old(self).alloc_zone(old(pfm), cpu as int, k as int);
                    &&& r.0 == old(self).alloc_result(old(pfm), cpu as int, k as int)
                    &&& z == -1 ==> *final(self) == *old(self) && *final(pfm) == *old(pfm)
                    &&& z >= 0 ==> {
                        &&& only_zone(old(self), final(self), z)
                        &&& held(final(self), z) % counter_mod() == (held(old(self), z) - pow2(k)) % counter_mod()
                        &&& old(self).cache(z, cpu as int, k as int).len() > 0 ==> {
                            &&& final(self).cache(z, cpu as int, k as int) == old(self).cache(z, cpu as int, k as int).drop_last()
                            &&& final(self).areas@ == old(self).areas@
                            &&& final(self).free_pages@ == old(self).free_pages@
                        }
                    }
                }),
    {
        if count == 0 {
            return Paddr(0);
        }
        let order = log2_ceil(count);
        proof {
            assert(is_ceil_order(count as int, order as nat));
            assert forall|k: nat| #[trigger] is_ceil_order(count as int, k) implies k == order by {
                lemma_ceil_order_unique(count as int, k, order as nat);
            }
        }
        if order >= MAX_ORDER {
            return Paddr(0);
        }
        if let Some(pfn) = self.alloc_in_zone(pfm, 1, order, cpu) {
            return Paddr(pfn * 4096);
        }
        if let Some(pfn) = self.alloc_in_zone(pfm, 2, order, cpu) {
            return Paddr(pfn * 4096);
        }
        if let Some(pfn) = self.alloc_in_zone(pfm, 0, order, cpu) {
            return Paddr(pfn * 4096);
        }
        Paddr(0)
    }

    /// Allocates `count` frames from zone `zone` only; see [`Bsa::allocate`].
    pub fn alloc_from_zone_direct(&mut self, pfm: &mut Pfm, cpu: usize, zone: Zone, count: usize) -> (r: Paddr)
        requires
            old(self).wf(),
            old(pfm).wf(),
            cpu < old(self).ncpus,
        ensures
            final(self).wf(),
            final(self).ncpus == old(self).ncpus,
            final(pfm).wf(),
            forall|q: int| #[trigger] final(pfm).loc(q) == old(pfm).loc(q),
            count == 0 ==> r.0 == 0 && *final(self) == *old(self),
            forall|k: nat| count > 0 && #[trigger] is_ceil_order(count as int, k) ==> (
                if k >= 10 || !old(self).avail(old(pfm), zone_index(zone), cpu as int, k as int) {
                    r.0 == 0 && *final(self) == *old(self)
                } else {
                    &&& r.0 == old(self).pick(zone_index(zone), cpu as int, k as int) * 4096
                    &&& only_zone(old(self), final(self), zone_index(zone))
                    &&& held(final(self), zone_index(zone)) % counter_mod()
                        == (held(old(self), zone_index(zone)) - pow2(k)) % counter_mod()
                }),
    {
        if count == 0 {
            return Paddr(0);
        }
        let order = log2_ceil(count);
        proof {
            assert(is_ceil_order(count as int, order as nat));
            assert forall|k: nat| #[trigger] is_ceil_order(count as int, k) implies k == order by {
                lemma_ceil_order_unique(count as int, k, order as nat);
            }
        }
        if order >= MAX_ORDER {
            return Paddr(0);
        }
        match self.alloc_in_zone(pfm, zone.index(), order, cpu) {
            Some(pfn) => Paddr(pfn * 4096),
            None => Paddr(0),
        }
    }

    /// Frees the block at `paddr` (its order is the one its first frame
    /// records) for CPU `cpu`: into the cache list when it has room, else
    /// into the free lists, merging with buddies, after which half of the
    /// cache list goes back too. A frame without a record is ignored.
    pub fn free(&mut self, pfm: &mut Pfm, cpu: usize, paddr: Paddr)
        requires
            old(self).wf(),
            old(pfm).wf(),
            cpu < old(self).ncpus,
            old(pfm).page((paddr.0 / 4096) as int) matches Some(p) ==> p.order < 10,
        ensures
            final(self).wf(),
            final(self).ncpus == old(self).ncpus,
            final(pfm).wf(),
            forall|q: int| #[trigger] final(pfm).loc(q) == old(pfm).loc(q),
            freed_block(old(self), final(self), old(pfm), final(pfm), cpu, paddr),
    {
        let pfn = paddr.0 / 4096;
        if let Some(page) = page_of(pfm, pfn) {
            let order = page.order as usize;
            let z = Zone::from_pfn(pfn).index();
            proof {
                lemma_pow2_small(order as nat);
            }
            let ghost s0 = *self;
            if self.pcp_put(z, cpu, order, pfn) {
                let ghost s1 = *self;
                set_state(pfm, pfn, ALLOCATED | BUDDY_HEAD, None);
                let c = self.pcp_pages[z];
                self.pcp_pages.set(z, c.wrapping_add(1usize << order));
                proof {
                    assert forall|i: int| 0 <= i < 30 implies addressable(#[trigger] self.areas@[i].blocks@) by {
                    }
                    lemma_counters_in_zone(&s1, self, z as int);
                    lemma_only_zone_trans(&s0, &s1, self, z as int);
                    assert forall|cc: int, o: int| 0 <= cc < s0.ncpus && 0 <= o < 10
                        implies #[trigger] self.cache(z as int, cc, o) == s1.cache(z as int, cc, o) by {}
                    lemma_wrap(c, pow2(order as nat) as int);
                    if wrap_add(c, pow2(order as nat) as int) as int == c + pow2(order as nat) {
                        lemma_turns(held(self, z as int), held(&s0, z as int) + pow2(order as nat), 0);
                    } else {
                        lemma_turns(held(self, z as int), held(&s0, z as int) + pow2(order as nat), -1);
                    }
                }
                return;
            }
            self.free_to_zone(pfm, z, pfn, order);
            let ghost s1 = *self;
            self.drain_pcp(pfm, z, order, cpu);
            proof {
                lemma_areas_in_zone(&s0, &s1, z as int);
                lemma_only_zone_trans(&s0, &s1, self, z as int);
                assert(s1.cache(z as int, cpu as int, order as int) == s0.cache(z as int, cpu as int, order as int));
            }
        }
    }

    /// The frames each zone holds, free or cached, as its counters say.
    pub fn usage(&self) -> (u: [usize; 3])
        requires
            self.wf(),
            forall|i: int| 0 <= i < 3 ==> self.free_pages@[i] + self.pcp_pages@[i] <= usize::MAX,
        ensures
            forall|i: int| 0 <= i < 3 ==> #[trigger] u@[i] == self.free_pages@[i] + self.pcp_pages@[i],
    {
        let a = self.free_pages[0] + self.pcp_pages[0];
        let b = self.free_pages[1] + self.pcp_pages[1];
        let c = self.free_pages[2] + self.pcp_pages[2];
        let u = [a, b, c];
        proof {
            assert forall|i: int| 0 <= i < 3 implies #[trigger] u@[i] == self.free_pages@[i] + self.pcp_pages@[i] by {
                if i == 0 {} else if i == 1 {} else {}
            }
        }
        u
    }
}

/// The order that `first_nonempty` gives names a non-empty list.
proof fn lemma_first_nonempty(b: &Bsa, z: int, o: int)
    requires
        0 <= o,
        b.first_nonempty(z, o) < 10,
    ensures
        b.area(z, b.first_nonempty(z, o)).len() > 0,
        o <= b.first_nonempty(z, o),
    decreases 10 - o,
{
    if o < 10 && b.area(z, o).len() == 0 {
        lemma_first_nonempty(b, z, o + 1);
    }
}

/// There is one least order for a count.
pub proof fn lemma_ceil_order_unique(n: int, a: nat, b: nat)
    requires
        is_ceil_order(n, a),
        is_ceil_order(n, b),
    ensures
        a == b,
{
    if a < b {
        lemma_pow2_mono(a, (b - 1) as nat);
    } else if b < a {
        lemma_pow2_mono(b, (a - 1) as nat);
    }
}

/// Sets the flags of every frame of `start .. end` that has a record.
fn mark_range(pfm: &mut Pfm, start: usize, end: usize, flags: u32)
    requires
        old(pfm).wf(),
    ensures
        final(pfm).wf(),
        forall|q: int| #[trigger] final(pfm).loc(q) == old(pfm).loc(q),
        forall|q: int| !(start <= q < end) ==> #[trigger] final(pfm).page(q) == old(pfm).page(q),
        forall|q: int| start <= q < end && #[trigger] old(pfm).page(q) is Some
            ==> final(pfm).page(q) == Some(Page { flags: flags, ..old(pfm).page(q)->Some_0 }),
{
    let mut pfn = start;
    while pfn < end
        invariant
            start <= pfn,
            pfn <= end || pfn == start,
            pfm.wf(),
            forall|q: int| #[trigger] pfm.loc(q) == old(pfm).loc(q),
            forall|q: int| !(start <= q < pfn) ==> #[trigger] pfm.page(q) == old(pfm).page(q),
            forall|q: int| start <= q < pfn && #[trigger] old(pfm).page(q) is Some
                ==> pfm.page(q) == Some(Page { flags: flags, ..old(pfm).page(q)->Some_0 }),
        decreases end - pfn,
    {
        let ghost before = *pfm;
        set_state(pfm, pfn, flags, None);
        proof {
            assert forall|q: int| start <= q < pfn + 1 && #[trigger] old(pfm).page(q) is Some
                implies pfm.page(q) == Some(Page { flags: flags, ..old(pfm).page(q)->Some_0 }) by {
                if q < pfn {
                    assert(pfm.page(q) == before.page(q));
                }
            }
            assert forall|q: int| !(start <= q < pfn + 1) implies #[trigger] pfm.page(q) == old(pfm).page(q) by {
                assert(q != pfn as int);
                assert(pfm.page(q) == before.page(q));
            }
        }
        pfn = pfn + 1;
    }
}

/// The highest end frame of the regions of `map` (0 when there is none).
pub open spec fn map_end(map: Seq<Region>) -> int
    decreases map.len(),
{
    if map.len() == 0 {
        0
    } else {
        let e = (map.last().base + map.last().len) / 4096;
        let m = map_end(map.drop_last());
        if e > m { e } else { m }
    }
}

/// The frame ranges of the zones when the frames end at `m`: DMA below
/// 16 MiB, DMA32 below 4 GiB, Normal above.
pub open spec fn zone_bounds(m: int) -> Seq<(usize, usize)> {
    let a = if m < 4096 { m } else { 4096 };
    let c = if m < 0x10_0000 { m } else { 0x10_0000 };
    seq![(0usize, a as usize), (a as usize, c as usize), (c as usize, m as usize)]
}

/// The first frame of region `reg` rounded up to a multiple of 1024.
pub open spec fn usable_start(reg: Region) -> usize {
    ((reg.base / 4096 + 1023) as usize) & !1023usize
}

/// The end frame of region `reg` rounded down to a multiple of 1024.
pub open spec fn usable_end(reg: Region) -> usize {
    (((reg.base + reg.len) / 4096) as usize) & !1023usize
}

/// The 512-frame blocks that a usable region gives to the free lists, in
/// address order; none for another kind of region.
pub open spec fn region_blocks(reg: Region) -> Seq<usize> {
    let s = usable_start(reg);
    let e = usable_end(reg);
    if reg.kind == Kind::USABLE && s < e {
        Seq::new(((e - s) / 512) as nat, |i: int| (s + 512 * i) as usize)
    } else {
        Seq::empty()
    }
}

/// The blocks of all regions of `map`, region after region.
pub open spec fn map_blocks(map: Seq<Region>) -> Seq<usize>
    decreases map.len(),
{
    if map.len() == 0 {
        Seq::empty()
    } else {
        map_blocks(map.drop_last()) + region_blocks(map.last())
    }
}

/// Whether block `p` lies in zone `z`.
pub open spec fn in_zone(z: int) -> spec_fn(usize) -> bool {
    |p: usize| zone_index(zone_of(p as int)) == z
}

/// Whether block `p` lies in zone `z` and its first frame has a record.
pub open spec fn in_zone_recorded(pfm: Pfm, z: int) -> spec_fn(usize) -> bool {
    |p: usize| zone_index(zone_of(p as int)) == z && pfm.page(p as int) is Some
}

/// Whether frame `q` lies in one of the first `n` regions of `map`.
pub open spec fn in_regions(map: Seq<Region>, n: int, q: int) -> bool {
    exists|i: int| 0 <= i < n && #[trigger] region_has(map[i], q)
}

/// Whether frame `q` lies in region `reg`.
pub open spec fn region_has(reg: Region, q: int) -> bool {
    reg.base / 4096 <= q < (reg.base + reg.len) / 4096
}

/// Whether frame `q` lies in the frames of the early allocator's range
/// `ema` (its end rounded up to a whole frame).
pub open spec fn in_ema(ema: (usize, usize), q: int) -> bool {
    &&& ema.1 > ema.0
    &&& ema.0 / 4096 <= q < ema.1 / 4096 + if ema.1 % 4096 != 0 { 1int } else { 0int }
}

/// Whether frame `q` lies in one of the 512-frame blocks `bl`.
pub open spec fn in_blocks(bl: Seq<usize>, q: int) -> bool {
    exists|i: int| 0 <= i < bl.len() && bl[i] <= q < #[trigger] bl[i] + 512
}

/// The record that `init` leaves for frame `q`, from the record `p0`
/// before: allocated for a frame of the map, reserved for a frame of the
/// early allocator's range, free for a frame of a block (the first frame
/// of a block heading it with order 9).
pub open spec fn init_mark(p0: Option<Page>, map: Seq<Region>, ema: (usize, usize), q: int) -> Option<Page> {
    match p0 {
        None => None,
        Some(p) => Some(
            if in_blocks(map_blocks(map), q) {
                if q % 512 == 0 { Page { flags: FREE | BUDDY_HEAD, order: 9, ..p } } else { Page { flags: FREE, ..p } }
            } else if in_ema(ema, q) {
                Page { flags: RESERVED, ..p }
            } else if in_regions(map, map.len() as int, q) {
                Page { flags: ALLOCATED, ..p }
            } else {
                p
            }),
    }
}

/// The record after the first two steps of `init`.
pub open spec fn early_mark(p0: Option<Page>, map: Seq<Region>, n: int, ema: (usize, usize), with_ema: bool, q: int) -> Option<Page> {
    match p0 {
        None => None,
        Some(p) => Some(
            if with_ema && in_ema(ema, q) {
                Page { flags: RESERVED, ..p }
            } else if in_regions(map, n, q) {
                Page { flags: ALLOCATED, ..p }
            } else {
                p
            }),
    }
}

/// The record of frame `q` once the blocks `bl` are marked free over the
/// record `p0`.
pub open spec fn block_mark(p0: Option<Page>, bl: Seq<usize>, q: int) -> Option<Page> {
    match p0 {
        None => None,
        Some(p) => Some(
            if in_blocks(bl, q) {
                if q % 512 == 0 { Page { flags: FREE | BUDDY_HEAD, order: 9, ..p } } else { Page { flags: FREE, ..p } }
            } else {
                p
            }),
    }
}

/// Rounding down to a multiple of 1024 with a mask.
proof fn lemma_align_1024(x: usize)
    ensures
        (x & !1023usize) % 1024 == 0,
        (x & !1023usize) <= x,
{
    assert((x & !1023usize) % 1024 == 0 && (x & !1023usize) <= x) by (bit_vector);
}

/// Adding the same amount keeps values that agree modulo the counter range
/// in agreement.
proof fn lemma_mod_step(a: int, b: int, k: int)
    requires
        a % counter_mod() == b % counter_mod(),
    ensures
        (a + k) % counter_mod() == (b + k) % counter_mod(),
{
    let m = counter_mod();
    vstd::arithmetic::div_mod::lemma_fundamental_div_mod(a, m);
    vstd::arithmetic::div_mod::lemma_fundamental_div_mod(b, m);
    let qa = a / m;
    let qb = b / m;
    assert((qa - qb) * m == m * qa - m * qb) by (nonlinear_arith);
    lemma_turns(a + k, b + k, qa - qb);
}

/// Filtering a sequence with one more item at its end.
proof fn lemma_filter_push(s: Seq<usize>, x: usize, f: spec_fn(usize) -> bool)
    ensures
        s.push(x).filter(f) == if f(x) { s.filter(f).push(x) } else { s.filter(f) },
{
    reveal(Seq::filter);
    assert(s.push(x).drop_last() =~= s);
}

/// Builds the allocator for `ncpus` CPUs over memory map `map`: zones
/// split at 16 MiB and 4 GiB below the highest frame; every frame of the
/// map marked allocated, those of the early allocator's range `ema_range`
/// reserved; the usable regions, cut to 1024-frame boundaries, given to the
/// free lists in blocks of 512 frames (marked free, the first as head).
pub fn init(map: &[Region], ema_range: (usize, usize), pfm: &mut Pfm, ncpus: usize) -> (b: Bsa)
    requires
        old(pfm).wf(),
        ncpus > 0,
        30 * ncpus <= usize::MAX,
        forall|i: int| 0 <= i < map@.len() ==> #[trigger] map@[i].base + map@[i].len <= usize::MAX,
    ensures
        b.wf(),
        b.ncpus == ncpus,
        final(pfm).wf(),
        forall|q: int| #[trigger] final(pfm).loc(q) == old(pfm).loc(q),
        forall|z: int, c: int, o: int| 0 <= z < 3 && 0 <= c < ncpus && 0 <= o < 10 ==> #[trigger] b.cache(z, c, o).len() == 0,
        b.pcp_pages@ == seq![0usize, 0usize, 0usize],
        b.bounds@ == zone_bounds(map_end(map@)),
        forall|z: int, o: int| 0 <= z < 3 && 0 <= o < 9 ==> #[trigger] b.area(z, o).len() == 0,
        forall|z: int| 0 <= z < 3 ==> #[trigger] b.area(z, 9) == map_blocks(map@).filter(in_zone_recorded(*old(pfm), z)),
        forall|z: int| 0 <= z < 3 ==> (#[trigger] b.free_pages@[z] as int) % counter_mod()
            == (512 * map_blocks(map@).filter(in_zone(z)).len() as int) % counter_mod(),
        forall|q: int| #[trigger] final(pfm).page(q) == init_mark(old(pfm).page(q), map@, ema_range, q),
{
    let ghost p_in = *pfm;
    let mut areas: Vec<FreeArea> = Vec::new();
    let mut i: usize = 0;
    while i < 30
        invariant
            i <= 30,
            areas@.len() == i,
            forall|k: int| 0 <= k < i ==> (#[trigger] areas@[k]).blocks@.len() == 0,
        decreases 30 - i,
    {
        areas.push(FreeArea::new());
        i = i + 1;
    }
    let mut pcp: Vec<heapless::Vec<usize, 32>> = Vec::new();
    let total = 30 * ncpus;
    let mut j: usize = 0;
    while j < total
        invariant
            j <= total,
            pcp@.len() == j,
            forall|k: int| 0 <= k < j ==> pcp_items(#[trigger] pcp@[k]).len() == 0,
        decreases total - j,
    {
        pcp.push(pcp_new());
        j = j + 1;
    }
    let mut max_pfn: usize = 0;
    let mut r: usize = 0;
    proof { assert(map@.take(0) =~= Seq::<Region>::empty()); }
    while r < map.len()
        invariant
            r <= map@.len(),
            forall|i: int| 0 <= i < map@.len() ==> #[trigger] map@[i].base + map@[i].len <= usize::MAX,
            max_pfn == map_end(map@.take(r as int)),
        decreases map@.len() - r,
    {
        let end_pfn = (map[r].base + map[r].len) / 4096;
        proof { assert(map@.take(r + 1).drop_last() =~= map@.take(r as int)); }
        if end_pfn > max_pfn {
            max_pfn = end_pfn;
        }
        r = r + 1;
    }
    proof { assert(map@.take(map@.len() as int) =~= map@); }
    let dma_end_pfn: usize = DMA_END / 4096;
    let dma32_end_pfn: usize = 0x10_0000;
    let a = if max_pfn < dma_end_pfn { max_pfn } else { dma_end_pfn };
    let c = if max_pfn < dma32_end_pfn { max_pfn } else { dma32_end_pfn };
    let mut bounds: Vec<(usize, usize)> = Vec::new();
    bounds.push((0, a));
    bounds.push((a, c));
    bounds.push((c, max_pfn));
    let mut free_pages: Vec<usize> = Vec::new();
    free_pages.push(0);
    free_pages.push(0);
    free_pages.push(0);
    let mut pcp_pages: Vec<usize> = Vec::new();
    pcp_pages.push(0);
    pcp_pages.push(0);
    pcp_pages.push(0);
    let mut b = Bsa { ncpus, areas, pcp, bounds, free_pages, pcp_pages };
    proof {
        assert(b.pcp_pages@ =~= seq![0usize, 0usize, 0usize]);
        assert(b.bounds@ =~= zone_bounds(map_end(map@)));
        assert forall|k: int| 0 <= k < 30 implies addressable(#[trigger] b.areas@[k].blocks@) by {
            assert(b.areas@[k].blocks@.len() == 0);
        }
        assert forall|k: int| 0 <= k < 30 * b.ncpus implies addressable(pcp_items(#[trigger] b.pcp@[k])) by {
            assert(pcp_items(b.pcp@[k]).len() == 0);
        }
        assert forall|z: int, c2: int, o: int| 0 <= z < 3 && 0 <= c2 < ncpus && 0 <= o < 10 implies #[trigger] b.cache(z, c2, o).len() == 0 by {
            b.lemma_pcp_index_distinct(z, c2, o);
        }
    }
    let ghost b0 = b;
    r = 0;
    while r < map.len()
        invariant
            r <= map@.len(),
            forall|i: int| 0 <= i < map@.len() ==> #[trigger] map@[i].base + map@[i].len <= usize::MAX,
            pfm.wf(),
            forall|q: int| #[trigger] pfm.loc(q) == old(pfm).loc(q),
            forall|q: int| #[trigger] pfm.page(q) == early_mark(old(pfm).page(q), map@, r as int, ema_range, false, q),
        decreases map@.len() - r,
    {
        let start_pfn = map[r].base / 4096;
        let end_pfn = (map[r].base + map[r].len) / 4096;
        let ghost pa = *pfm;
        mark_range(pfm, start_pfn, end_pfn, ALLOCATED);
        proof {
            assert forall|q: int| #[trigger] pfm.page(q) == early_mark(old(pfm).page(q), map@, r + 1, ema_range, false, q) by {
                if region_has(map@[r as int], q) {
                    assert(in_regions(map@, r + 1, q));
                } else {
                    if in_regions(map@, r + 1, q) {
                        let i = choose|i: int| 0 <= i < r + 1 && #[trigger] region_has(map@[i], q);
                        assert(i != r);
                        assert(in_regions(map@, r as int, q));
                    }
                    if in_regions(map@, r as int, q) {
                        let i = choose|i: int| 0 <= i < r && #[trigger] region_has(map@[i], q);
                        assert(in_regions(map@, r + 1, q));
                    }
                    assert(pfm.page(q) == pa.page(q));
                }
            }
        }
        r = r + 1;
    }
    let (ema_start, ema_end) = ema_range;
    if ema_end > ema_start {
        let s0 = ema_start / 4096;
        let e0 = ema_end / 4096 + if ema_end % 4096 != 0 { 1 } else { 0 };
        let ghost pa = *pfm;
        mark_range(pfm, s0, e0, RESERVED);
        proof {
            assert forall|q: int| #[trigger] pfm.page(q) == early_mark(old(pfm).page(q), map@, map@.len() as int, ema_range, true, q) by {
                if !in_ema(ema_range, q) {
                    assert(pfm.page(q) == pa.page(q));
                }
            }
        }
    } else {
        proof {
            assert forall|q: int| #[trigger] pfm.page(q) == early_mark(old(pfm).page(q), map@, map@.len() as int, ema_range, true, q) by {
                assert(!in_ema(ema_range, q));
            }
        }
    }
    let ghost p_early = *pfm;
    r = 0;
    proof {
        assert(map_blocks(map@.take(0)) =~= Seq::<usize>::empty()) by {
            assert(map@.take(0) =~= Seq::<Region>::empty());
        }
    }
    while r < map.len()
        invariant
            r <= map@.len(),
            forall|i: int| 0 <= i < map@.len() ==> #[trigger] map@[i].base + map@[i].len <= usize::MAX,
            pfm.wf(),
            forall|q: int| #[trigger] pfm.loc(q) == old(pfm).loc(q),
            p_in == *old(pfm),
            b.wf(),
            b.ncpus == ncpus,
            b.pcp@ == b0.pcp@,
            b.pcp_pages@ == b0.pcp_pages@,
            b.bounds@ == b0.bounds@,
            forall|q: int| #[trigger] pfm.page(q) == block_mark(p_early.page(q), map_blocks(map@.take(r as int)), q),
            forall|z: int, o: int| 0 <= z < 3 && 0 <= o < 9 ==> #[trigger] b.area(z, o).len() == 0,
            forall|z: int| 0 <= z < 3 ==> #[trigger] b.area(z, 9) == map_blocks(map@.take(r as int)).filter(in_zone_recorded(p_in, z)),
            forall|z: int| 0 <= z < 3 ==> (#[trigger] b.free_pages@[z] as int) % counter_mod()
                == (512 * map_blocks(map@.take(r as int)).filter(in_zone(z)).len() as int) % counter_mod(),
        decreases map@.len() - r,
    {
        let reg = map[r];
        let ghost done = map_blocks(map@.take(r as int));
        proof {
            assert(map@.take(r + 1).drop_last() =~= map@.take(r as int));
            assert(map@.take(r + 1).last() == reg);
            assert(map_blocks(map@.take(r + 1)) == done + region_blocks(reg));
        }
        if reg.kind == Kind::USABLE {
            let start_pfn = reg.base / 4096;
            let end_pfn = (reg.base + reg.len) / 4096;
            assert(end_pfn * 4096 <= usize::MAX) by (nonlinear_arith)
                requires end_pfn == (reg.base + reg.len) / 4096, reg.base + reg.len <= usize::MAX;
            let aligned_start = (start_pfn + 1023) & !1023usize;
            let aligned_end = end_pfn & !1023usize;
            proof {
                lemma_align_1024(end_pfn);
                lemma_align_1024((start_pfn + 1023) as usize);
                assert(aligned_start == usable_start(reg));
                assert(aligned_end == usable_end(reg));
                lemma_pow2_small(9);
                lemma_small_shifts();
            }
            let ghost rb = region_blocks(reg);
            let ghost mut k: int = 0;
            let mut pfn = aligned_start;
            proof {
                assert(done + rb.take(0) =~= done);
            }
            while pfn < aligned_end
                invariant
                    aligned_end <= end_pfn,
                    end_pfn * 4096 <= usize::MAX,
                    pfm.wf(),
                    forall|q: int| #[trigger] pfm.loc(q) == old(pfm).loc(q),
                    p_in == *old(pfm),
                    b.wf(),
                    b.ncpus == ncpus,
                    b.pcp@ == b0.pcp@,
                    b.pcp_pages@ == b0.pcp_pages@,
                    b.bounds@ == b0.bounds@,
                    aligned_start == usable_start(reg),
                    aligned_end == usable_end(reg),
                    aligned_start % 1024 == 0,
                    aligned_end % 1024 == 0,
                    reg.kind == Kind::USABLE,
                    rb == region_blocks(reg),
                    aligned_start <= pfn,
                    pfn < aligned_end ==> aligned_start < aligned_end,
                    aligned_start >= aligned_end ==> k == 0,
                    pfn == aligned_start + 512 * k,
                    0 <= k,
                    aligned_start < aligned_end ==> k <= rb.len() && pfn <= aligned_end,
                    aligned_start < aligned_end ==> (aligned_end - pfn) % 512 == 0,
                    pow2(9) == 512,
                    (1usize << 9usize) == 512,
                    forall|q: int| #[trigger] pfm.page(q) == block_mark(p_early.page(q), done + rb.take(k), q),
                    forall|z: int, o: int| 0 <= z < 3 && 0 <= o < 9 ==> #[trigger] b.area(z, o).len() == 0,
                    forall|z: int| 0 <= z < 3 ==> #[trigger] b.area(z, 9) == (done + rb.take(k)).filter(in_zone_recorded(p_in, z)),
                    forall|z: int| 0 <= z < 3 ==> (#[trigger] b.free_pages@[z] as int) % counter_mod()
                        == (512 * (done + rb.take(k)).filter(in_zone(z)).len() as int) % counter_mod(),
                ensures
                    aligned_start < aligned_end ==> pfn == aligned_end,
                decreases aligned_end - pfn,
            {
                assert(pfn + 1024 <= usize::MAX) by (nonlinear_arith)
                    requires pfn < end_pfn, end_pfn * 4096 <= usize::MAX;
                let mut order: usize = 9;
                while order > 0
                    invariant
                        order == 9,
                        pfn + 1024 <= usize::MAX,
                        pfn % 512 == 0,
                        pfn + 512 <= aligned_end,
                        (1usize << 9usize) == 512,
                    ensures
                        order == 9,
                    decreases order,
                {
                    proof { lemma_pow2_small(order as nat); }
                    let bs: usize = 1usize << order;
                    if pfn % bs == 0 && pfn + bs <= aligned_end {
                        break;
                    }
                    order = order - 1;
                }
                proof { lemma_pow2_small(order as nat); }
                let bs: usize = 1usize << order;
                if pfn + bs <= aligned_end {
                    assert(pfn * 4096 <= usize::MAX) by (nonlinear_arith)
                        requires pfn < end_pfn, end_pfn * 4096 <= usize::MAX;
                    let ghost pm = *pfm;
                    mark_block(pfm, pfn, bs, FREE | BUDDY_HEAD, FREE, order as u8);
                    proof {
                        let sq = done + rb.take(k);
                        assert(pfn as int % 512 == 0);
                        assert forall|q: int| #[trigger] pfm.page(q) == block_mark(p_early.page(q), sq.push(pfn), q) by {
                            if pfn <= q < pfn + 512 {
                                assert(sq.push(pfn)[sq.len() as int] == pfn);
                                assert(in_blocks(sq.push(pfn), q));
                            } else {
                                if in_blocks(sq.push(pfn), q) {
                                    let i = choose|i: int| 0 <= i < sq.push(pfn).len() && sq.push(pfn)[i] <= q < #[trigger] sq.push(pfn)[i] + 512;
                                    assert(i < sq.len());
                                    assert(sq.push(pfn)[i] == sq[i]);
                                    assert(in_blocks(sq, q));
                                }
                                if in_blocks(sq, q) {
                                    let i = choose|i: int| 0 <= i < sq.len() && sq[i] <= q < #[trigger] sq[i] + 512;
                                    assert(sq.push(pfn)[i] == sq[i]);
                                    assert(in_blocks(sq.push(pfn), q));
                                }
                                assert(pfm.page(q) == pm.page(q));
                            }
                        }
                    }
                    let z = Zone::from_pfn(pfn).index();
                    let ghost bb = b;
                    b.area_add(pfm, z, order, pfn);
                    let ghost ba = b;
                    let f = b.free_pages[z];
                    b.free_pages.set(z, f.wrapping_add(bs));
                    proof {
                        assert(b.areas@ == ba.areas@);
                        assert forall|zz: int, o: int| 0 <= zz < 3 && 0 <= o < 10 implies #[trigger] b.area(zz, o) == ba.area(zz, o) by {}
                        assert forall|kk: int| 0 <= kk < 30 implies addressable(#[trigger] b.areas@[kk].blocks@) by {
                        }
                        assert(rb[k] == pfn);
                        assert(rb.take(k + 1) =~= rb.take(k).push(pfn));
                        assert(done + rb.take(k + 1) =~= (done + rb.take(k)).push(pfn));
                        let sq = done + rb.take(k);
                        assert(pfm.page(pfn as int) is Some == p_in.page(pfn as int) is Some);
                        assert forall|zz: int| 0 <= zz < 3 implies #[trigger] b.area(zz, 9) == sq.push(pfn).filter(in_zone_recorded(p_in, zz)) by {
                            lemma_filter_push(sq, pfn, in_zone_recorded(p_in, zz));
                        }
                        assert forall|zz: int, o: int| 0 <= zz < 3 && 0 <= o < 9 implies #[trigger] b.area(zz, o).len() == 0 by {
                            if zz == z as int {
                                assert(o != order as int);
                            }
                            assert(b.area(zz, o) == bb.area(zz, o));
                        }
                        assert forall|zz: int| 0 <= zz < 3 implies (#[trigger] b.free_pages@[zz] as int) % counter_mod()
                            == (512 * sq.push(pfn).filter(in_zone(zz)).len() as int) % counter_mod() by {
                            lemma_filter_push(sq, pfn, in_zone(zz));
                            if zz == z as int {
                                lemma_wrap(f, 512);
                                if wrap_add(f, 512) as int == f + 512 {
                                    lemma_turns(b.free_pages@[zz] as int, f + 512, 0);
                                } else {
                                    lemma_turns(b.free_pages@[zz] as int, f + 512, -1);
                                }
                                lemma_mod_step(f as int, 512 * sq.filter(in_zone(zz)).len() as int, 512);
                            } else {
                                assert(b.free_pages@[zz] == bb.free_pages@[zz]);
                            }
                        }
                        k = k + 1;
                    }
                    pfn = pfn + bs;
                } else {
                    break;
                }
            }
            proof {
                if aligned_start < aligned_end {
                    assert(k == rb.len()) by (nonlinear_arith)
                        requires pfn == aligned_start + 512 * k, pfn == aligned_end, rb.len() == (aligned_end - aligned_start) / 512;
                    assert(rb.take(k) =~= rb);
                } else {
                    assert(rb =~= Seq::<usize>::empty());
                    assert(rb.take(k) =~= rb);
                }
            }
        } else {
            proof {
                assert(region_blocks(reg) =~= Seq::<usize>::empty());
                assert(done + region_blocks(reg) =~= done);
            }
        }
        r = r + 1;
    }
    proof {
        assert(map@.take(map@.len() as int) =~= map@);
        assert forall|z: int, c2: int, o: int| 0 <= z < 3 && 0 <= c2 < ncpus && 0 <= o < 10 implies #[trigger] b.cache(z, c2, o).len() == 0 by {
            assert(b0.cache(z, c2, o).len() == 0);
        }
    }
    b
}

} // verus!
