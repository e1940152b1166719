//! Page frame metadata (a sparse model): one `Page` record per 4 KiB frame,
//! kept in sections of 4096 frames that exist only where the memory map has
//! memory.

use vstd::prelude::*;
use crate::addr::{Paddr, Vaddr};
use crate::kdm::{Kdm, entry_contains};
use crate::pmr::{Kind, Region};

verus! {

/// Frames per section (16 MiB of memory).
pub const PAGES_PER_SECTION: usize = 4096;

/// State bits of a frame.
#[derive(Clone, Copy, Debug, PartialEq, Eq, Structural)]
pub struct PageFlags(pub u32);

/// Reserved (firmware, ACPI, kernel image, early allocations).
pub const RESERVED: u32 = 1;
/// Free.
pub const FREE: u32 = 2;
/// Allocated.
pub const ALLOCATED: u32 = 4;
/// Head of a buddy block.
pub const BUDDY_HEAD: u32 = 8;

impl PageFlags {
    /// The flags whose bits are set in `bits`, unknown bits dropped.
    pub fn from_bits_truncate(bits: u32) -> (f: Self)
        ensures
            f.0 == bits & 0xf,
    {
        PageFlags(bits & 0xf)
    }

    /// No flag.
    pub fn empty() -> (f: Self)
        ensures
            f.0 == 0,
    {
        PageFlags(0)
    }

    /// The raw bits.
    pub fn bits(self) -> (b: u32)
        ensures
            b == self.0,
    {
        self.0
    }

    /// Whether every flag of `other` is set.
    pub fn contains(self, other: PageFlags) -> (b: bool)
        ensures
            b == (self.0 & other.0 == other.0),
    {
        self.0 & other.0 == other.0
    }
}

/// The metadata of one frame.
#[derive(Clone, Copy, Debug, PartialEq, Eq, Structural)]
pub struct Page {
    /// State bits (`PageFlags`).
    pub flags: u32,
    /// Buddy order of the block the frame heads.
    pub order: u8,
    /// Reference count.
    pub count: u32,
    /// Word for the allocator's own use (the next block of a free list).
    pub private: u32,
}

impl Page {
    /// A record with every field zero.
    pub fn default() -> (p: Page)
        ensures
            p == (Page { flags: 0, order: 0, count: 0, private: 0 }),
    {
        Page { flags: 0, order: 0, count: 0, private: 0 }
    }
}

/// Whether the direct map `kdm` covers physical address `paddr`.
pub open spec fn kdm_maps(kdm: &Kdm, paddr: int) -> bool {
    exists|i: int| 0 <= i < kdm.entries().len() && entry_contains(#[trigger] kdm.entries()[i], paddr)
}

/// The frame metadata: a section table and the direct map that decides
/// which frames can be reached.
pub struct Pfm {
    /// One entry per section: its 4096 records, or none.
    pub sections: Vec<Option<Vec<Page>>>,
    /// The direct map.
    pub kdm: Kdm,
}

impl Pfm {
    /// Every present section holds 4096 records.
    pub open spec fn wf(&self) -> bool {
        forall|s: int| 0 <= s < self.sections@.len() && (#[trigger] self.sections@[s]) is Some
            ==> self.sections@[s]->Some_0@.len() == PAGES_PER_SECTION
    }

    /// Where the record of frame `pfn` lives (section, index), if it exists:
    /// the frame is direct-mapped and its section is present.
    pub open spec fn loc(&self, pfn: int) -> Option<(int, int)> {
        let s = pfn / 4096;
        if 0 <= pfn && pfn * 4096 <= usize::MAX && kdm_maps(&self.kdm, pfn * 4096) && 0 <= s < self.sections@.len() && self.sections@[s] is Some {
            Some((s, pfn % 4096))
        } else {
            None
        }
    }

    /// The record of frame `pfn`, if it exists.
    pub open spec fn page(&self, pfn: int) -> Option<Page> {
        match self.loc(pfn) {
            Some(l) => Some(self.sections@[l.0]->Some_0@[l.1]),
            None => None,
        }
    }

    /// Whether `new` is `old` with the record of frame `pfn` (which exists)
    /// replaced by `p`.
    pub open spec fn updated(old: &Pfm, new: &Pfm, pfn: int, p: Page) -> bool {
        &&& new.wf()
        &&& forall|q: int| #[trigger] new.loc(q) == old.loc(q)
        &&& new.page(pfn) == Some(p)
        &&& forall|q: int| q != pfn ==> #[trigger] new.page(q) == old.page(q)
    }

    /// Sets the record of frame `pfn`, if it exists.
    pub fn set_page(&mut self, pfn: usize, p: Page)
        requires
            old(self).wf(),
            pfn * 4096 <= usize::MAX,
        ensures
            old(self).page(pfn as int) is Some ==> Pfm::updated(old(self), final(self), pfn as int, p),
            old(self).page(pfn as int) is None ==> *final(self) == *old(self),
    {
        match get_page_ptr(self, pfn) {
            Some((s, i)) => {
                let ghost old_pfm = *self;
                let mut sec: Option<Vec<Page>> = None;
                std::mem::swap(&mut sec, &mut self.sections[s]);
                let mut v = sec.unwrap();
                v.set(i, p);
                self.sections.set(s, Some(v));
                proof {
                    assert(self.sections@.len() == old_pfm.sections@.len());
                    assert forall|q: int| #[trigger] self.loc(q) == old_pfm.loc(q) by {
                        let sq = q / 4096;
                        if 0 <= sq < self.sections@.len() && sq != s as int {
                            assert(self.sections@[sq] == old_pfm.sections@[sq]);
                        }
                    }
                    assert forall|q: int| q != pfn implies #[trigger] self.page(q) == old_pfm.page(q) by {
                        if self.loc(q) is Some {
                            if q / 4096 == s as int {
                                assert(q % 4096 != i as int) by (nonlinear_arith)
                                    requires q != pfn, q / 4096 == pfn / 4096, i == pfn % 4096, q >= 0, pfn >= 0;
                            }
                        }
                    }
                    assert forall|t: int| 0 <= t < self.sections@.len() && (#[trigger] self.sections@[t]) is Some
                        implies self.sections@[t]->Some_0@.len() == PAGES_PER_SECTION by {
                        if t != s as int {
                            assert(self.sections@[t] == old_pfm.sections@[t]);
                        }
                    }
                }
            },
            None => {},
        }
    }
}

/// Where the record of frame `pfn` lives (section, index), if it exists.
pub fn get_page_ptr(pfm: &Pfm, pfn: usize) -> (r: Option<(usize, usize)>)
    requires
        pfm.wf(),
        pfn * 4096 <= usize::MAX,
    ensures
        r matches Some(l) ==> pfm.loc(pfn as int) == Some((l.0 as int, l.1 as int)),
        r is None <==> pfm.loc(pfn as int) is None,
        r matches Some(l) ==> l.0 < pfm.sections@.len() && pfm.sections@[l.0 as int] is Some && l.1 < PAGES_PER_SECTION,
{
    let paddr = pfn * 4096;
    if !pfm.kdm.is_mapped(paddr) {
        return None;
    }
    let sec = pfn / PAGES_PER_SECTION;
    if sec >= pfm.sections.len() {
        return None;
    }
    match &pfm.sections[sec] {
        Some(_) => Some((sec, pfn % PAGES_PER_SECTION)),
        None => None,
    }
}

/// The record of frame `pfn`, if it exists.
pub fn get_page(pfm: &Pfm, pfn: usize) -> (r: Option<Page>)
    requires
        pfm.wf(),
        pfn * 4096 <= usize::MAX,
    ensures
        r == pfm.page(pfn as int),
{
    match get_page_ptr(pfm, pfn) {
        Some((s, i)) => match &pfm.sections[s] {
            Some(v) => Some(v[i]),
            None => None,
        },
        None => None,
    }
}

/// The frame that holds physical address `paddr`.
pub fn paddr_to_pfn(paddr: Paddr) -> (pfn: usize)
    ensures
        pfn == paddr.0 / 4096,
{
    paddr.0 / 4096
}

/// The record of the frame that holds `paddr`, if it exists.
pub fn get_page_by_paddr(pfm: &Pfm, paddr: Paddr) -> (r: Option<Page>)
    requires
        pfm.wf(),
    ensures
        r == pfm.page((paddr.0 / 4096) as int),
{
    get_page(pfm, paddr_to_pfn(paddr))
}

/// Where the record of the frame that holds `paddr` lives, if it exists.
pub fn get_page_ptr_by_paddr(pfm: &Pfm, paddr: Paddr) -> (r: Option<(usize, usize)>)
    requires
        pfm.wf(),
    ensures
        r is None <==> pfm.loc((paddr.0 / 4096) as int) is None,
        r matches Some(l) ==> pfm.loc((paddr.0 / 4096) as int) == Some((l.0 as int, l.1 as int)),
{
    get_page_ptr(pfm, paddr_to_pfn(paddr))
}

/// The record of frame `pfn`, if it exists; a number whose address does
/// not fit a `usize` has none.
pub fn page_of(pfm: &Pfm, pfn: usize) -> (r: Option<Page>)
    requires
        pfm.wf(),
    ensures
        pfn * 4096 <= usize::MAX ==> r == pfm.page(pfn as int),
        pfn * 4096 > usize::MAX ==> r is None,
{
    if pfn > usize::MAX / 4096 {
        return None;
    }
    get_page(pfm, pfn)
}

/// Sets the flags and (when `order` is given) the order of frame `pfn`'s
/// record, if it exists.
pub fn set_state(pfm: &mut Pfm, pfn: usize, flags: u32, order: Option<u8>)
    requires
        old(pfm).wf(),
    ensures
        final(pfm).wf(),
        forall|q: int| #[trigger] final(pfm).loc(q) == old(pfm).loc(q),
        forall|q: int| q != pfn ==> #[trigger] final(pfm).page(q) == old(pfm).page(q),
        pfn * 4096 <= usize::MAX && old(pfm).page(pfn as int) is Some ==> final(pfm).page(pfn as int) == Some(Page {
            flags: flags,
            order: match order { Some(o) => o, None => old(pfm).page(pfn as int)->Some_0.order },
            ..old(pfm).page(pfn as int)->Some_0
        }),
        !(pfn * 4096 <= usize::MAX && old(pfm).page(pfn as int) is Some) ==> *final(pfm) == *old(pfm),
{
    if let Some(p) = page_of(pfm, pfn) {
        let o = match order { Some(o) => o, None => p.order };
        pfm.set_page(pfn, Page { flags, order: o, ..p });
    }
}

/// A physical frame, by its number.
#[derive(Clone, Copy, Debug, PartialEq, Eq, Structural)]
pub struct PageFrame(pub usize);

/// The record `p` with its flags set to `f`.
pub open spec fn with_flags(p: Page, f: u32) -> Page {
    Page { flags: f, ..p }
}

/// Keeping the low four flag bits keeps each of them.
proof fn lemma_flag_bits(x: u32) by (bit_vector)
    ensures
        (x & 0xfu32) & 1u32 == 1u32 <==> x & 1u32 != 0,
        (x & 0xfu32) & 2u32 == 2u32 <==> x & 2u32 != 0,
        (x & 0xfu32) & 4u32 == 4u32 <==> x & 4u32 != 0,
        0u32 & 1u32 == 0,
        0u32 & 2u32 == 0,
        0u32 & 4u32 == 0,
{
}

impl PageFrame {
    /// The frame with number `pfn`.
    pub fn new(pfn: usize) -> (f: Self)
        ensures
            f.0 == pfn,
    {
        PageFrame(pfn)
    }

    /// The frame that holds `paddr`.
    pub fn from_paddr(paddr: Paddr) -> (f: Self)
        ensures
            f.0 == paddr.0 / 4096,
    {
        PageFrame(paddr.0 / 4096)
    }

    /// The frame behind direct-map address `vaddr` (map at `hhdm`).
    pub fn from_vaddr(vaddr: Vaddr, hhdm: usize) -> (f: Self)
        requires
            hhdm <= vaddr.0,
        ensures
            f.0 == (vaddr.0 - hhdm) / 4096,
    {
        Self::from_paddr(vaddr.to_phys(hhdm))
    }

    /// The frame number.
    pub fn pfn(self) -> (n: usize)
        ensures
            n == self.0,
    {
        self.0
    }

    /// The physical address of the frame.
    pub fn paddr(self) -> (p: Paddr)
        requires
            self.0 * 4096 <= usize::MAX,
        ensures
            p.0 == self.0 * 4096,
    {
        Paddr(self.0 * 4096)
    }

    /// The direct-map address of the frame (map at `hhdm`).
    pub fn vaddr(self, hhdm: usize) -> (v: Vaddr)
        requires
            self.0 * 4096 + hhdm <= usize::MAX,
        ensures
            v.0 == self.0 * 4096 + hhdm,
    {
        self.paddr().to_virt(hhdm)
    }

    /// The frame's record, if it exists.
    pub fn page(self, pfm: &Pfm) -> (r: Option<Page>)
        requires
            pfm.wf(),
            self.0 * 4096 <= usize::MAX,
        ensures
            r == pfm.page(self.0 as int),
    {
        get_page(pfm, self.0)
    }

    /// Where the frame's record lives, if it exists.
    pub fn page_ptr(self, pfm: &Pfm) -> (r: Option<(usize, usize)>)
        requires
            pfm.wf(),
            self.0 * 4096 <= usize::MAX,
        ensures
            r is None <==> pfm.loc(self.0 as int) is None,
            r matches Some(l) ==> pfm.loc(self.0 as int) == Some((l.0 as int, l.1 as int)),
    {
        get_page_ptr(pfm, self.0)
    }

    /// Whether the frame has a record.
    pub fn is_valid(self, pfm: &Pfm) -> (b: bool)
        requires
            pfm.wf(),
            self.0 * 4096 <= usize::MAX,
        ensures
            b == pfm.page(self.0 as int) is Some,
    {
        get_page_ptr(pfm, self.0).is_some()
    }

    /// The frame's flags (none for a frame without a record).
    pub fn flags(self, pfm: &Pfm) -> (f: PageFlags)
        requires
            pfm.wf(),
            self.0 * 4096 <= usize::MAX,
        ensures
            f.0 == (match pfm.page(self.0 as int) { Some(p) => p.flags & 0xf, None => 0 }),
    {
        match self.page(pfm) {
            Some(p) => PageFlags::from_bits_truncate(p.flags),
            None => PageFlags::empty(),
        }
    }

    /// Changes the flags of the record, if there is one, to `f(old)`.
    fn store_flags(self, pfm: &mut Pfm, bits: u32)
        requires
            old(pfm).wf(),
            self.0 * 4096 <= usize::MAX,
        ensures
            old(pfm).page(self.0 as int) matches Some(p)
                ==> Pfm::updated(old(pfm), final(pfm), self.0 as int, with_flags(p, bits)),
            old(pfm).page(self.0 as int) is None ==> *final(pfm) == *old(pfm),
    {
        if let Some(p) = get_page(pfm, self.0) {
            pfm.set_page(self.0, Page { flags: bits, ..p });
        }
    }

    /// Sets the flags to `flags`.
    pub fn set_flags(self, pfm: &mut Pfm, flags: PageFlags) -> (r: Self)
        requires
            old(pfm).wf(),
            self.0 * 4096 <= usize::MAX,
        ensures
            r == self,
            old(pfm).page(self.0 as int) matches Some(p)
                ==> Pfm::updated(old(pfm), final(pfm), self.0 as int, with_flags(p, flags.0)),
            old(pfm).page(self.0 as int) is None ==> *final(pfm) == *old(pfm),
    {
        self.store_flags(pfm, flags.0);
        self
    }

    /// Adds the flags of `flags`.
    pub fn flags_or(self, pfm: &mut Pfm, flags: PageFlags) -> (r: Self)
        requires
            old(pfm).wf(),
            self.0 * 4096 <= usize::MAX,
        ensures
            r == self,
            old(pfm).page(self.0 as int) matches Some(p)
                ==> Pfm::updated(old(pfm), final(pfm), self.0 as int, with_flags(p, p.flags | flags.0)),
            old(pfm).page(self.0 as int) is None ==> *final(pfm) == *old(pfm),
    {
        if let Some(p) = get_page(pfm, self.0) {
            self.store_flags(pfm, p.flags | flags.0);
        }
        self
    }

    /// Keeps only the flags of `flags`.
    pub fn flags_and(self, pfm: &mut Pfm, flags: PageFlags) -> (r: Self)
        requires
            old(pfm).wf(),
            self.0 * 4096 <= usize::MAX,
        ensures
            r == self,
            old(pfm).page(self.0 as int) matches Some(p)
                ==> Pfm::updated(old(pfm), final(pfm), self.0 as int, with_flags(p, p.flags & flags.0)),
            old(pfm).page(self.0 as int) is None ==> *final(pfm) == *old(pfm),
    {
        if let Some(p) = get_page(pfm, self.0) {
            self.store_flags(pfm, p.flags & flags.0);
        }
        self
    }

    /// Clears the flags of `flags`.
    pub fn clear_flags(self, pfm: &mut Pfm, flags: PageFlags) -> (r: Self)
        requires
            old(pfm).wf(),
            self.0 * 4096 <= usize::MAX,
        ensures
            r == self,
            old(pfm).page(self.0 as int) matches Some(p)
                ==> Pfm::updated(old(pfm), final(pfm), self.0 as int, with_flags(p, p.flags & !flags.0)),
            old(pfm).page(self.0 as int) is None ==> *final(pfm) == *old(pfm),
    {
        if let Some(p) = get_page(pfm, self.0) {
            self.store_flags(pfm, p.flags & !flags.0);
        }
        self
    }

    /// Whether the frame is free.
    pub fn is_free(self, pfm: &Pfm) -> (b: bool)
        requires
            pfm.wf(),
            self.0 * 4096 <= usize::MAX,
        ensures
            b == (pfm.page(self.0 as int) matches Some(p) && p.flags & FREE != 0),
    {
        let f = self.flags(pfm);
        proof {
            if let Some(p) = pfm.page(self.0 as int) {
                let x = p.flags;
                lemma_flag_bits(x);
            }
            lemma_flag_bits(0);
        }
        f.contains(PageFlags(FREE))
    }

    /// Whether the frame is allocated.
    pub fn is_allocated(self, pfm: &Pfm) -> (b: bool)
        requires
            pfm.wf(),
            self.0 * 4096 <= usize::MAX,
        ensures
            b == (pfm.page(self.0 as int) matches Some(p) && p.flags & ALLOCATED != 0),
    {
        let f = self.flags(pfm);
        proof {
            if let Some(p) = pfm.page(self.0 as int) {
                let x = p.flags;
                lemma_flag_bits(x);
            }
            lemma_flag_bits(0);
        }
        f.contains(PageFlags(ALLOCATED))
    }

    /// Whether the frame is reserved.
    pub fn is_reserved(self, pfm: &Pfm) -> (b: bool)
        requires
            pfm.wf(),
            self.0 * 4096 <= usize::MAX,
        ensures
            b == (pfm.page(self.0 as int) matches Some(p) && p.flags & RESERVED != 0),
    {
        let f = self.flags(pfm);
        proof {
            if let Some(p) = pfm.page(self.0 as int) {
                let x = p.flags;
                lemma_flag_bits(x);
            }
            lemma_flag_bits(0);
        }
        f.contains(PageFlags(RESERVED))
    }

    /// The reference count (0 for a frame without a record).
    pub fn count(self, pfm: &Pfm) -> (c: u32)
        requires
            pfm.wf(),
            self.0 * 4096 <= usize::MAX,
        ensures
            c == (match pfm.page(self.0 as int) { Some(p) => p.count, None => 0 }),
    {
        match self.page(pfm) {
            Some(p) => p.count,
            None => 0,
        }
    }

    /// Adds one to the reference count and returns the new count.
    pub fn inc_count(self, pfm: &mut Pfm) -> (c: u32)
        requires
            old(pfm).wf(),
            self.0 * 4096 <= usize::MAX,
            old(pfm).page(self.0 as int) matches Some(p) ==> p.count < u32::MAX,
        ensures
            old(pfm).page(self.0 as int) matches Some(p) ==> c == p.count + 1
                && Pfm::updated(old(pfm), final(pfm), self.0 as int, Page { count: c, ..p }),
            old(pfm).page(self.0 as int) is None ==> c == 0 && *final(pfm) == *old(pfm),
    {
        match get_page(pfm, self.0) {
            Some(p) => {
                let c = p.count + 1;
                pfm.set_page(self.0, Page { count: c, ..p });
                c
            },
            None => 0,
        }
    }

    /// Takes one from the reference count and returns the new count.
    pub fn dec_count(self, pfm: &mut Pfm) -> (c: u32)
        requires
            old(pfm).wf(),
            self.0 * 4096 <= usize::MAX,
            old(pfm).page(self.0 as int) matches Some(p) ==> p.count > 0,
        ensures
            old(pfm).page(self.0 as int) matches Some(p) ==> c == p.count - 1
                && Pfm::updated(old(pfm), final(pfm), self.0 as int, Page { count: c, ..p }),
            old(pfm).page(self.0 as int) is None ==> c == 0 && *final(pfm) == *old(pfm),
    {
        match get_page(pfm, self.0) {
            Some(p) => {
                let c = p.count - 1;
                pfm.set_page(self.0, Page { count: c, ..p });
                c
            },
            None => 0,
        }
    }

    /// Moves the frame from free (its flags exactly `FREE`) to allocated;
    /// says whether it did.
    pub fn try_alloc(self, pfm: &mut Pfm) -> (b: bool)
        requires
            old(pfm).wf(),
            self.0 * 4096 <= usize::MAX,
        ensures
            b == (old(pfm).page(self.0 as int) matches Some(p) && p.flags == FREE),
            b ==> Pfm::updated(old(pfm), final(pfm), self.0 as int, with_flags(old(pfm).page(self.0 as int)->Some_0, ALLOCATED)),
            !b ==> *final(pfm) == *old(pfm),
    {
        match get_page(pfm, self.0) {
            Some(p) => {
                if p.flags == FREE {
                    self.store_flags(pfm, ALLOCATED);
                    true
                } else {
                    false
                }
            },
            None => false,
        }
    }

    /// Moves the frame from allocated (its flags exactly `ALLOCATED`) to
    /// free; says whether it did.
    pub fn try_free(self, pfm: &mut Pfm) -> (b: bool)
        requires
            old(pfm).wf(),
            self.0 * 4096 <= usize::MAX,
        ensures
            b == (old(pfm).page(self.0 as int) matches Some(p) && p.flags == ALLOCATED),
            b ==> Pfm::updated(old(pfm), final(pfm), self.0 as int, with_flags(old(pfm).page(self.0 as int)->Some_0, FREE)),
            !b ==> *final(pfm) == *old(pfm),
    {
        match get_page(pfm, self.0) {
            Some(p) => {
                if p.flags == ALLOCATED {
                    self.store_flags(pfm, FREE);
                    true
                } else {
                    false
                }
            },
            None => false,
        }
    }

    /// The buddy order (0 for a frame without a record).
    pub fn order(self, pfm: &Pfm) -> (o: u8)
        requires
            pfm.wf(),
            self.0 * 4096 <= usize::MAX,
        ensures
            o == (match pfm.page(self.0 as int) { Some(p) => p.order, None => 0 }),
    {
        match self.page(pfm) {
            Some(p) => p.order,
            None => 0,
        }
    }

    /// Sets the buddy order.
    pub fn set_order(self, pfm: &mut Pfm, order: u8) -> (r: Self)
        requires
            old(pfm).wf(),
            self.0 * 4096 <= usize::MAX,
        ensures
            r == self,
            old(pfm).page(self.0 as int) matches Some(p)
                ==> Pfm::updated(old(pfm), final(pfm), self.0 as int, Page { order: order, ..p }),
            old(pfm).page(self.0 as int) is None ==> *final(pfm) == *old(pfm),
    {
        if let Some(p) = get_page(pfm, self.0) {
            pfm.set_page(self.0, Page { order: order, ..p });
        }
        self
    }

    /// The allocator's word (0 for a frame without a record).
    pub fn private(self, pfm: &Pfm) -> (w: u32)
        requires
            pfm.wf(),
            self.0 * 4096 <= usize::MAX,
        ensures
            w == (match pfm.page(self.0 as int) { Some(p) => p.private, None => 0 }),
    {
        match self.page(pfm) {
            Some(p) => p.private,
            None => 0,
        }
    }

    /// Sets the allocator's word.
    pub fn set_private(self, pfm: &mut Pfm, private: u32) -> (r: Self)
        requires
            old(pfm).wf(),
            self.0 * 4096 <= usize::MAX,
        ensures
            r == self,
            old(pfm).page(self.0 as int) matches Some(p)
                ==> Pfm::updated(old(pfm), final(pfm), self.0 as int, Page { private: private, ..p }),
            old(pfm).page(self.0 as int) is None ==> *final(pfm) == *old(pfm),
    {
        if let Some(p) = get_page(pfm, self.0) {
            pfm.set_page(self.0, Page { private: private, ..p });
        }
        self
    }
}

} // verus!
