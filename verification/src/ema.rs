//! Early memory allocator: a bump allocator that hands out pages from the top
//! of the largest usable region, before the buddy allocator exists.

use vstd::prelude::*;
use crate::addr::Paddr;
use crate::pmr::{Kind, Region};

verus! {

/// `x` rounded down to a multiple of 4096.
pub open spec fn align_down_4k(x: int) -> int {
    x - x % 4096
}

/// `x` rounded up to a multiple of 4096.
pub open spec fn align_up_4k(x: int) -> int {
    align_down_4k(x + 4095)
}

proof fn lemma_mask_4k(x: usize)
    ensures
        x & !0xfffusize == x - x % 4096,
        (x & !0xfffusize) % 4096 == 0,
{
    assert(x & !0xfffusize == x - x % 4096 && (x & !0xfffusize) % 4096 == 0) by (bit_vector);
}

/// Whether region `r` is the one the allocator starts from: the first usable
/// region of greatest length in `map`.
pub open spec fn is_largest_usable(map: Seq<Region>, i: int) -> bool {
    &&& 0 <= i < map.len()
    &&& map[i].kind == Kind::USABLE
    &&& forall|j: int| 0 <= j < map.len() && map[j].kind == Kind::USABLE ==> map[j].len <= map[i].len
    &&& forall|j: int| 0 <= j < i && map[j].kind == Kind::USABLE ==> map[j].len < map[i].len
}

/// The early allocator: pages are taken downwards from `bottom`; `top` is the
/// lowest page handed out so far and `limit` the lowest that may be.
pub struct EarlyMemAlloc {
    /// Lowest allocated address (equal to `bottom` while nothing is allocated).
    pub top: usize,
    /// Page-aligned end of the region.
    pub bottom: usize,
    /// Page-aligned start of the region.
    pub limit: usize,
}

impl EarlyMemAlloc {
    /// The allocator's invariant: nothing is handed out above `bottom`.
    pub open spec fn wf(&self) -> bool {
        self.top <= self.bottom
    }

    /// Builds the allocator over the first usable region of greatest length.
    pub fn new(map: &[Region]) -> (e: Self)
        requires
            exists|i: int| 0 <= i < map@.len() && map@[i].kind == Kind::USABLE && #[trigger] map@[i].len > 0,
            forall|i: int| 0 <= i < map@.len() ==> #[trigger] map@[i].base + map@[i].len + 4095 <= usize::MAX,
        ensures
            exists|i: int| is_largest_usable(map@, i)
                && e.bottom == align_down_4k(map@[i].base + map@[i].len)
                && e.limit == align_up_4k(map@[i].base as int)
                && e.top == e.bottom,
    {
        let mut largest = Region::default();
        let mut idx: usize = 0;
        let mut found = false;
        let mut i: usize = 0;
        while i < map.len()
            invariant
                i <= map@.len(),
                found ==> idx < i && largest == map@[idx as int] && map@[idx as int].kind == Kind::USABLE,
                found ==> forall|j: int| 0 <= j < i && map@[j].kind == Kind::USABLE ==> map@[j].len <= largest.len,
                found ==> forall|j: int| 0 <= j < idx && map@[j].kind == Kind::USABLE ==> map@[j].len < largest.len,
                !found ==> largest == Region::default_region(),
                !found ==> forall|j: int| 0 <= j < i && map@[j].kind == Kind::USABLE ==> map@[j].len == 0,
            decreases map@.len() - i,
        {
            let r = map[i];
            if r.kind == Kind::USABLE && r.len > largest.len {
                largest = r;
                idx = i;
                found = true;
            }
            i = i + 1;
        }
        proof {
            let w = choose|w: int| 0 <= w < map@.len() && map@[w].kind == Kind::USABLE && #[trigger] map@[w].len > 0;
            assert(map@[w].len > 0);
        }
        assert(found);
        let end = largest.base + largest.len;
        let bottom = end & !0xfff;
        let limit = (largest.base + 4095) & !0xfff;
        proof {
            lemma_mask_4k(end);
            lemma_mask_4k((largest.base + 4095) as usize);
            assert(is_largest_usable(map@, idx as int));
        }
        EarlyMemAlloc { top: bottom, bottom, limit }
    }

    /// Allocates `count` bytes rounded up to whole pages; returns the start of
    /// the block, or 0 when the region has no room for it.
    pub fn allocate(&mut self, count: usize) -> (a: usize)
        requires
            count + 4095 <= usize::MAX,
            align_up_4k(count as int) <= old(self).top,
        ensures
            ({
                let c = align_up_4k(count as int);
                if old(self).top < old(self).limit || old(self).top - c < old(self).limit {
                    a == 0 && *final(self) == *old(self)
                } else {
                    a == old(self).top - c && final(self).top == a
                        && final(self).bottom == old(self).bottom && final(self).limit == old(self).limit
                }
            }),
    {
        let c = (count + 4095) & !4095usize;
        proof {
            lemma_mask_4k((count + 4095) as usize);
        }
        if self.top < self.limit || self.top - c < self.limit {
            return 0;
        }
        self.top = self.top - c;
        self.top
    }

    /// The allocated range `[top, bottom)`, or `(0, 0)` when nothing is allocated.
    pub fn allocated_range(&self) -> (r: (usize, usize))
        ensures
            r == (if self.top >= self.bottom { (0usize, 0usize) } else { (self.top, self.bottom) }),
    {
        if self.top >= self.bottom {
            (0, 0)
        } else {
            (self.top, self.bottom)
        }
    }
}

impl Region {
    /// The all-zero region.
    pub open spec fn default_region() -> Region {
        Region { base: 0, len: 0, kind: Kind::USABLE }
    }
}

/// Builds the early allocator from the memory map.
pub fn init(map: &[Region]) -> (e: EarlyMemAlloc)
    requires
        exists|i: int| 0 <= i < map@.len() && map@[i].kind == Kind::USABLE && #[trigger] map@[i].len > 0,
        forall|i: int| 0 <= i < map@.len() ==> #[trigger] map@[i].base + map@[i].len + 4095 <= usize::MAX,
    ensures
        e.wf(),
        exists|i: int| is_largest_usable(map@, i)
            && e.bottom == align_down_4k(map@[i].base + map@[i].len)
            && e.limit == align_up_4k(map@[i].base as int)
            && e.top == e.bottom,
{
    let e = EarlyMemAlloc::new(map);
    e
}

/// Allocates `count` pages; the physical address of the block, or 0.
pub fn allocate(ema: &mut EarlyMemAlloc, count: usize) -> (p: Paddr)
    requires
        count <= (usize::MAX - 4095) / 4096,
        align_up_4k(count * 4096) <= old(ema).top,
    ensures
        ({
            let c = align_up_4k(count * 4096);
            if old(ema).top < old(ema).limit || old(ema).top - c < old(ema).limit {
                p.0 == 0 && *final(ema) == *old(ema)
            } else {
                p.0 == old(ema).top - c && final(ema).top == p.0
                    && final(ema).bottom == old(ema).bottom && final(ema).limit == old(ema).limit
            }
        }),
{
    assert(count * 4096 <= usize::MAX - 4095) by (nonlinear_arith)
        requires count <= (usize::MAX - 4095) / 4096;
    let bytes = count * 4096;
    Paddr::from_raw(ema.allocate(bytes))
}

/// Number of pages handed out so far.
pub fn usage(ema: &EarlyMemAlloc) -> (n: usize)
    requires
        ema.wf(),
    ensures
        n == (ema.bottom - ema.top) / 4096,
{
    let d = ema.bottom - ema.top;
    assert(d >> 12 == d / 4096) by (bit_vector);
    d >> 12
}

/// The allocated range `[top, bottom)`, or `(0, 0)`.
pub fn get_allocated_range(ema: &EarlyMemAlloc) -> (r: (usize, usize))
    ensures
        r == (if ema.top >= ema.bottom { (0usize, 0usize) } else { (ema.top, ema.bottom) }),
{
    ema.allocated_range()
}

} // verus!
