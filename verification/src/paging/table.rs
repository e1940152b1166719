//! The memory that holds page tables, and walks through a hierarchy.
//!
//! Tables live in a pool of frames: table `i` sits at physical address
//! `base + 4096 * i`. Each table has a level (3 for a PML4, 2 for a PDPT,
//! 1 for a PD, 0 for a PT); an entry of a table above level 0 that points
//! to a table (present, and not a huge page below the PML4) always points to
//! a table of the pool one level down, and no two such entries point to the
//! same table, so each hierarchy is a tree.

use vstd::prelude::*;
use crate::paging::entry::{Entry, address_bits, is_huge_bits, is_present_bits};

verus! {

/// Entries per table.
pub const ENTRIES: usize = 512;

/// Upper bound of the physical addresses that an entry can hold.
pub const PHYS_LIMIT: u64 = 0x10_0000_0000_0000;

/// Why a walk or an edit of the page tables failed.
#[derive(Clone, Copy, Debug, PartialEq, Eq, Structural)]
pub enum PtError {
    /// "PML4 entry not present"
    Pml4NotPresent,
    /// "PDPT entry not present"
    PdptNotPresent,
    /// "PD entry not present"
    PdNotPresent,
    /// "PT entry not present"
    PtNotPresent,
    /// "1 GiB huge page encountered - split first"
    Huge1G,
    /// "2 MiB huge page encountered - split first"
    Huge2M,
    /// "PML4 huge - unsupported"
    Pml4Huge,
    /// The pool has no frame left for a new table.
    OutOfTables,
    /// "vaddr not 4 KiB-aligned"
    Misaligned4K,
    /// "vaddr not 2 MiB-aligned"
    Misaligned2M,
    /// "vaddr not 1 GiB-aligned"
    Misaligned1G,
    /// "paddr not 2 MiB-aligned"
    PhysMisaligned2M,
    /// "paddr not 1 GiB-aligned"
    PhysMisaligned1G,
    /// "address not mapped"
    NotMapped,
    /// "not a 2 MiB huge page"
    Not2M,
    /// "not a 1 GiB huge page"
    Not1G,
    /// "PD entry is not a table pointer"
    PdNotTable,
    /// "PDPT entry is not a table pointer"
    PdptNotTable,
    /// "first PT entry not present" / "PT entry not present" while merging
    MergeHole,
    /// "inconsistent flags across PT entries" / "... PD entries"
    MergeFlags,
    /// "non-contiguous physical addresses"
    MergeDiscontiguous,
    /// "first PD entry not a 2 MiB huge page" / "PD entry not a 2 MiB huge page"
    MergeNotHuge,
    /// "misaligned virtual address"
    MisalignedVaddr,
    /// "misaligned or zero-size remap"
    BadRemapRange,
    /// "misaligned or zero-size unmap"
    BadUnmapRange,
    /// "zero-size mapping"
    ZeroSize,
    /// "map_4k_block: cannot resolve blocking page"
    Unresolvable,
    /// The value for CR3 does not name a PML4 of the pool.
    NotRoot,
    /// "report: Vec capacity exhausted - some areas may be missing"
    ReportFull,
}

/// The text that describes error `e`.
pub open spec fn message_text(e: PtError) -> Seq<char> {
    match e {
        PtError::Pml4NotPresent => "PML4 entry not present"@,
        PtError::PdptNotPresent => "PDPT entry not present"@,
        PtError::PdNotPresent => "PD entry not present"@,
        PtError::PtNotPresent => "PT entry not present"@,
        PtError::Huge1G => "1 GiB huge page encountered - split first"@,
        PtError::Huge2M => "2 MiB huge page encountered - split first"@,
        PtError::Pml4Huge => "PML4 huge - unsupported"@,
        PtError::OutOfTables => "no frame left for a page table"@,
        PtError::Misaligned4K => "vaddr not 4 KiB-aligned"@,
        PtError::Misaligned2M => "vaddr not 2 MiB-aligned"@,
        PtError::Misaligned1G => "vaddr not 1 GiB-aligned"@,
        PtError::PhysMisaligned2M => "paddr not 2 MiB-aligned"@,
        PtError::PhysMisaligned1G => "paddr not 1 GiB-aligned"@,
        PtError::NotMapped => "address not mapped"@,
        PtError::Not2M => "not a 2 MiB huge page"@,
        PtError::Not1G => "not a 1 GiB huge page"@,
        PtError::PdNotTable => "PD entry is not a table pointer"@,
        PtError::PdptNotTable => "PDPT entry is not a table pointer"@,
        PtError::MergeHole => "PT entry not present"@,
        PtError::MergeFlags => "inconsistent flags across entries"@,
        PtError::MergeDiscontiguous => "non-contiguous physical addresses"@,
        PtError::MergeNotHuge => "PD entry not a 2 MiB huge page"@,
        PtError::MisalignedVaddr => "misaligned virtual address"@,
        PtError::BadRemapRange => "misaligned or zero-size remap"@,
        PtError::BadUnmapRange => "misaligned or zero-size unmap"@,
        PtError::ZeroSize => "zero-size mapping"@,
        PtError::Unresolvable => "map_4k_block: cannot resolve blocking page"@,
        PtError::NotRoot => "CR3 does not name a PML4 of the pool"@,
        PtError::ReportFull => "report: Vec capacity exhausted - some areas may be missing"@,
    }
}

impl PtError {
    /// The message that describes the error.
    pub fn message(&self) -> (r: &'static str)
        ensures
            r@ == message_text(*self),
    {
        match self {
            PtError::Pml4NotPresent => "PML4 entry not present",
            PtError::PdptNotPresent => "PDPT entry not present",
            PtError::PdNotPresent => "PD entry not present",
            PtError::PtNotPresent => "PT entry not present",
            PtError::Huge1G => "1 GiB huge page encountered - split first",
            PtError::Huge2M => "2 MiB huge page encountered - split first",
            PtError::Pml4Huge => "PML4 huge - unsupported",
            PtError::OutOfTables => "no frame left for a page table",
            PtError::Misaligned4K => "vaddr not 4 KiB-aligned",
            PtError::Misaligned2M => "vaddr not 2 MiB-aligned",
            PtError::Misaligned1G => "vaddr not 1 GiB-aligned",
            PtError::PhysMisaligned2M => "paddr not 2 MiB-aligned",
            PtError::PhysMisaligned1G => "paddr not 1 GiB-aligned",
            PtError::NotMapped => "address not mapped",
            PtError::Not2M => "not a 2 MiB huge page",
            PtError::Not1G => "not a 1 GiB huge page",
            PtError::PdNotTable => "PD entry is not a table pointer",
            PtError::PdptNotTable => "PDPT entry is not a table pointer",
            PtError::MergeHole => "PT entry not present",
            PtError::MergeFlags => "inconsistent flags across entries",
            PtError::MergeDiscontiguous => "non-contiguous physical addresses",
            PtError::MergeNotHuge => "PD entry not a 2 MiB huge page",
            PtError::MisalignedVaddr => "misaligned virtual address",
            PtError::BadRemapRange => "misaligned or zero-size remap",
            PtError::BadUnmapRange => "misaligned or zero-size unmap",
            PtError::ZeroSize => "zero-size mapping",
            PtError::Unresolvable => "map_4k_block: cannot resolve blocking page",
            PtError::NotRoot => "CR3 does not name a PML4 of the pool",
            PtError::ReportFull => "report: Vec capacity exhausted - some areas may be missing",
        }
    }
}

/// One page table: 512 entries.
pub struct Tab(pub Vec<Entry>);

/// Index into the PML4 for `v` (bits 39 to 47).
pub open spec fn pml4_index(v: u64) -> int { ((v >> 39u64) & 0x1ffu64) as int }
/// Index into the PDPT for `v` (bits 30 to 38).
pub open spec fn pdpt_index(v: u64) -> int { ((v >> 30u64) & 0x1ffu64) as int }
/// Index into the PD for `v` (bits 21 to 29).
pub open spec fn pd_index(v: u64) -> int { ((v >> 21u64) & 0x1ffu64) as int }
/// Index into the PT for `v` (bits 12 to 20).
pub open spec fn pt_index(v: u64) -> int { ((v >> 12u64) & 0x1ffu64) as int }

/// Each table index of a virtual address is below 512.
pub proof fn lemma_indices(v: u64)
    ensures
        0 <= pml4_index(v) < 512,
        0 <= pdpt_index(v) < 512,
        0 <= pd_index(v) < 512,
        0 <= pt_index(v) < 512,
{
    assert((v >> 39u64) & 0x1ffu64 < 512 && (v >> 30u64) & 0x1ffu64 < 512
        && (v >> 21u64) & 0x1ffu64 < 512 && (v >> 12u64) & 0x1ffu64 < 512) by (bit_vector);
}

/// The zero entry has no flag set.
pub proof fn lemma_zero_flags()
    ensures
        0u64 & 1u64 == 0,
        0u64 & 0x80u64 == 0,
{
    assert(0u64 & 1u64 == 0 && 0u64 & 0x80u64 == 0) by (bit_vector);
}

/// The PML4 index of a virtual address.
pub fn pml4_i(vaddr: u64) -> (i: usize)
    ensures i == pml4_index(vaddr), i < 512,
{
    proof { lemma_indices(vaddr); }
    ((vaddr >> 39) & 0x1ff) as usize
}

/// The PDPT index of a virtual address.
pub fn pdpt_i(vaddr: u64) -> (i: usize)
    ensures i == pdpt_index(vaddr), i < 512,
{
    proof { lemma_indices(vaddr); }
    ((vaddr >> 30) & 0x1ff) as usize
}

/// The PD index of a virtual address.
pub fn pd_i(vaddr: u64) -> (i: usize)
    ensures i == pd_index(vaddr), i < 512,
{
    proof { lemma_indices(vaddr); }
    ((vaddr >> 21) & 0x1ff) as usize
}

/// The PT index of a virtual address.
pub fn pt_i(vaddr: u64) -> (i: usize)
    ensures i == pt_index(vaddr), i < 512,
{
    proof { lemma_indices(vaddr); }
    ((vaddr >> 12) & 0x1ff) as usize
}

/// Whether entry `e` of a table at `level` points to a table one level down:
/// at the PML4 any present entry does, at the PDPT and PD a present entry
/// that is not a huge page does, at the PT none does.
pub open spec fn is_table_ptr(level: int, e: u64) -> bool {
    if level == 3 {
        is_present_bits(e)
    } else if level == 1 || level == 2 {
        is_present_bits(e) && !is_huge_bits(e)
    } else {
        false
    }
}

/// The memory that holds page tables.
pub struct PtMem {
    /// Physical address of table 0.
    pub base: u64,
    /// The tables; table `i` is at `base + 4096 * i`.
    pub tabs: Vec<Tab>,
    /// The level of each table.
    pub levels: Vec<u8>,
    /// Tables handed back; they stay in the pool and are never reused.
    pub released: Vec<usize>,
}

impl PtMem {
    /// Entry `j` of table `t`.
    pub open spec fn ent(&self, t: int, j: int) -> u64 {
        self.tabs@[t].0@[j].0
    }

    /// The level of table `t`.
    pub open spec fn level(&self, t: int) -> int {
        self.levels@[t] as int
    }

    /// Number of tables in the pool.
    pub open spec fn len(&self) -> int {
        self.tabs@.len() as int
    }

    /// Physical address of table `t`.
    pub open spec fn tab_addr(&self, t: int) -> int {
        self.base + 4096 * t
    }

    /// The table that entry value `e` points to.
    pub open spec fn child(&self, e: u64) -> int {
        (address_bits(e) - self.base) / 4096
    }

    /// Whether `e` points exactly at a table of the pool with level `lvl`.
    pub open spec fn points_to(&self, e: u64, lvl: int) -> bool {
        &&& address_bits(e) >= self.base
        &&& (address_bits(e) - self.base) % 4096 == 0
        &&& 0 <= self.child(e) < self.len()
        &&& self.level(self.child(e)) == lvl
    }

    /// Whether entry `j` of table `t` points to a table.
    pub open spec fn is_ptr_slot(&self, t: int, j: int) -> bool {
        0 <= t < self.len() && 0 <= j < 512 && is_table_ptr(self.level(t), self.ent(t, j))
    }

    /// The pool's invariant.
    pub open spec fn wf(&self) -> bool {
        &&& self.base % 4096 == 0
        &&& self.base + 4096 * self.len() <= PHYS_LIMIT
        &&& self.levels@.len() == self.tabs@.len()
        &&& forall|t: int| 0 <= t < self.len() ==> (#[trigger] self.tabs@[t]).0@.len() == 512
        &&& forall|t: int| 0 <= t < self.len() ==> #[trigger] self.levels@[t] <= 3
        &&& forall|t: int, j: int| #[trigger] self.is_ptr_slot(t, j)
            ==> self.points_to(self.ent(t, j), self.level(t) - 1)
        &&& forall|t1: int, j1: int, t2: int, j2: int|
            #[trigger] self.is_ptr_slot(t1, j1) && #[trigger] self.is_ptr_slot(t2, j2) && (t1, j1) != (t2, j2)
                && (self.level(t1) < 3 || t1 == t2)
            ==> self.child(self.ent(t1, j1)) != self.child(self.ent(t2, j2))
    }
}


/// The slot (table, index) that the walk for `v` reaches at `lvl` (3 to 0),
/// following the entries above it.
pub open spec fn path_slot(mem: &PtMem, root: int, v: u64, lvl: int) -> (int, int)
    decreases 3 - lvl,
{
    if lvl >= 3 {
        (root, pml4_index(v))
    } else {
        let up = path_slot(mem, root, v, lvl + 1);
        let idx = if lvl == 2 { pdpt_index(v) } else if lvl == 1 { pd_index(v) } else { pt_index(v) };
        (mem.child(mem.ent(up.0, up.1)), idx)
    }
}

/// Whether every slot of the walk for `v` above `lvl` points to a table.
pub open spec fn path_ok(mem: &PtMem, root: int, v: u64, lvl: int) -> bool
    decreases 3 - lvl,
{
    if lvl >= 3 {
        true
    } else {
        let up = path_slot(mem, root, v, lvl + 1);
        path_ok(mem, root, v, lvl + 1) && mem.is_ptr_slot(up.0, up.1)
    }
}

/// The entry value at the slot of the walk for `v` at `lvl`.
pub open spec fn path_ent(mem: &PtMem, root: int, v: u64, lvl: int) -> u64 {
    let s = path_slot(mem, root, v, lvl);
    mem.ent(s.0, s.1)
}

/// Whether `root` is a PML4 of the pool.
pub open spec fn is_root(mem: &PtMem, root: int) -> bool {
    0 <= root < mem.len() && mem.level(root) == 3
}

/// The outcome of the non-creating mutable walk for `v` down to `hint`
/// (0 for the PT entry, 1 for the PD entry, 2 for the PDPT entry).
pub open spec fn walk_mut_spec(mem: &PtMem, root: int, v: u64, hint: int) -> Result<(int, int), PtError> {
    if !is_present_bits(path_ent(mem, root, v, 3)) {
        Err(PtError::Pml4NotPresent)
    } else if hint == 2 {
        Ok(path_slot(mem, root, v, 2))
    } else if !is_present_bits(path_ent(mem, root, v, 2)) {
        Err(PtError::PdptNotPresent)
    } else if is_huge_bits(path_ent(mem, root, v, 2)) {
        Err(PtError::Huge1G)
    } else if hint == 1 {
        Ok(path_slot(mem, root, v, 1))
    } else if !is_present_bits(path_ent(mem, root, v, 1)) {
        Err(PtError::PdNotPresent)
    } else if is_huge_bits(path_ent(mem, root, v, 1)) {
        Err(PtError::Huge2M)
    } else if !is_present_bits(path_ent(mem, root, v, 0)) {
        Err(PtError::PtNotPresent)
    } else {
        Ok(path_slot(mem, root, v, 0))
    }
}

/// The outcome of the read-only walk for `v` down to `hint`.
pub open spec fn walk_spec(mem: &PtMem, root: int, v: u64, hint: int) -> Result<u64, PtError> {
    if !is_present_bits(path_ent(mem, root, v, 3)) {
        Err(PtError::Pml4NotPresent)
    } else if is_huge_bits(path_ent(mem, root, v, 3)) {
        Err(PtError::Pml4Huge)
    } else if !is_present_bits(path_ent(mem, root, v, 2)) {
        Err(PtError::PdptNotPresent)
    } else if hint == 2 {
        Ok(path_ent(mem, root, v, 2))
    } else if is_huge_bits(path_ent(mem, root, v, 2)) {
        Err(PtError::Huge1G)
    } else if !is_present_bits(path_ent(mem, root, v, 1)) {
        Err(PtError::PdNotPresent)
    } else if hint == 1 {
        Ok(path_ent(mem, root, v, 1))
    } else if is_huge_bits(path_ent(mem, root, v, 1)) {
        Err(PtError::Huge2M)
    } else if !is_present_bits(path_ent(mem, root, v, 0)) {
        Err(PtError::PtNotPresent)
    } else {
        Ok(path_ent(mem, root, v, 0))
    }
}

/// What the hierarchy at `root` maps `v` to: the physical address and the
/// flag bits, from a 4 KiB page, else a 2 MiB page, else a 1 GiB page.
pub open spec fn translate(mem: &PtMem, root: int, v: u64) -> Option<(int, u64)> {
    match walk_spec(mem, root, v, 0) {
        Ok(e) => Some((address_bits(e) + (v & 0xfffu64), e & all_flags_spec())),
        Err(_) => match walk_spec(mem, root, v, 1) {
            Ok(e) if is_huge_bits(e) => Some((address_bits(e) + (v & 0x1f_ffffu64), e & all_flags_spec())),
            _ => match walk_spec(mem, root, v, 2) {
                Ok(e) if is_huge_bits(e) => Some((address_bits(e) + (v & 0x3fff_ffffu64), e & all_flags_spec())),
                _ => None,
            },
        },
    }
}

/// Every defined flag bit (for specifications).
pub open spec fn all_flags_spec() -> u64 {
    0x8070_0000_0000_01ffu64
}


/// A table address or'd with the present and writable bits keeps the
/// address, is present and is not a huge page.
pub proof fn lemma_table_pointer_bits(a: u64)
    requires
        a % 4096 == 0,
        a < PHYS_LIMIT,
    ensures
        address_bits(a | 3u64) == a,
        is_present_bits(a | 3u64),
        !is_huge_bits(a | 3u64),
{
    assert(address_bits(a | 3u64) == a) by (bit_vector)
        requires a % 4096 == 0, a < 0x10_0000_0000_0000u64;
    assert((a | 3u64) & 1u64 != 0) by (bit_vector);
    assert((a | 3u64) & 0x80u64 == 0) by (bit_vector)
        requires a % 4096 == 0;
}

/// Along a walk whose upper slots all point to tables, the slot at `lvl`
/// lies in a table of the pool of level `lvl`.
pub proof fn lemma_path_slot(mem: &PtMem, root: int, v: u64, lvl: int)
    requires
        mem.wf(),
        is_root(mem, root),
        0 <= lvl <= 3,
        path_ok(mem, root, v, lvl),
    ensures
        0 <= path_slot(mem, root, v, lvl).0 < mem.len(),
        mem.level(path_slot(mem, root, v, lvl).0) == lvl,
        0 <= path_slot(mem, root, v, lvl).1 < 512,
    decreases 3 - lvl,
{
    lemma_indices(v);
    if lvl < 3 {
        lemma_path_slot(mem, root, v, lvl + 1);
        let up = path_slot(mem, root, v, lvl + 1);
        assert(mem.is_ptr_slot(up.0, up.1));
    }
}

impl Tab {
    /// A table of 512 empty entries.
    pub fn zeroed() -> (t: Tab)
        ensures
            t.0@.len() == 512,
            forall|j: int| 0 <= j < 512 ==> (#[trigger] t.0@[j]).0 == 0,
    {
        let mut v: Vec<Entry> = Vec::new();
        let mut i: usize = 0;
        while i < ENTRIES
            invariant
                i <= 512,
                v@.len() == i,
                forall|j: int| 0 <= j < i ==> (#[trigger] v@[j]).0 == 0,
            decreases 512 - i,
        {
            v.push(Entry(0));
            i = i + 1;
        }
        Tab(v)
    }
}

impl PtMem {
    /// An empty pool whose first table will sit at physical address `base`.
    pub fn new(base: u64) -> (m: PtMem)
        requires
            base % 4096 == 0,
            base <= PHYS_LIMIT,
        ensures
            m.wf(),
            m.base == base,
            m.len() == 0,
    {
        PtMem { base, tabs: Vec::new(), levels: Vec::new(), released: Vec::new() }
    }

    /// Physical address of table `t`.
    pub fn addr_of(&self, t: usize) -> (a: u64)
        requires
            self.wf(),
            t < self.len(),
        ensures
            a == self.tab_addr(t as int),
            a % 4096 == 0,
            a < PHYS_LIMIT,
    {
        self.base + 4096 * (t as u64)
    }

    /// Entry `j` of table `t`.
    pub fn read(&self, t: usize, j: usize) -> (e: Entry)
        requires
            self.wf(),
            t < self.len(),
            j < 512,
        ensures
            e.0 == self.ent(t as int, j as int),
    {
        self.tabs[t].0[j]
    }

    /// The table that `entry` points to.
    pub fn tab_index(&self, entry: &Entry, lvl: Ghost<int>) -> (t: usize)
        requires
            self.wf(),
            self.points_to(entry.0, lvl@),
        ensures
            t == self.child(entry.0),
            t < self.len(),
    {
        let c: u64 = ((entry.0 & ADDRESS_MASK_EXEC) - self.base) / 4096;
        assert(c == self.child(entry.0));
        let n = self.tabs.len();
        assert(c < n);
        c as usize
    }

    /// Adds a zeroed table of level `level` at the end of the pool.
    pub fn alloc_tab_zeroed(&mut self, level: u8) -> (r: Result<usize, PtError>)
        requires
            old(self).wf(),
            level <= 3,
        ensures
            final(self).wf(),
            final(self).base == old(self).base,
            r is Err <==> old(self).base + 4096 * (old(self).len() + 1) > PHYS_LIMIT,
            r matches Err(e) ==> e == PtError::OutOfTables && *final(self) == *old(self),
            r matches Ok(i) ==> {
                &&& i == old(self).len()
                &&& final(self).len() == old(self).len() + 1
                &&& final(self).level(i as int) == level
                &&& forall|j: int| 0 <= j < 512 ==> #[trigger] final(self).ent(i as int, j) == 0
                &&& forall|t: int, j: int| 0 <= t < old(self).len() ==> #[trigger] final(self).ent(t, j) == old(self).ent(t, j)
                &&& forall|t: int| 0 <= t < old(self).len() ==> #[trigger] final(self).level(t) == old(self).level(t)
            },
    {
        let n = self.tabs.len();
        if self.base > PHYS_LIMIT - 4096 || (n as u64) >= (PHYS_LIMIT - 4096 - self.base) / 4096 + 1 {
            assert(self.base + 4096 * (n + 1) > PHYS_LIMIT) by (nonlinear_arith)
                requires
                    self.base > PHYS_LIMIT - 4096 || n >= (PHYS_LIMIT - 4096 - self.base) / 4096 + 1,
                    self.base <= PHYS_LIMIT;
            return Err(PtError::OutOfTables);
        }
        assert(self.base + 4096 * (n + 1) <= PHYS_LIMIT) by (nonlinear_arith)
            requires
                self.base <= PHYS_LIMIT - 4096,
                n < (PHYS_LIMIT - 4096 - self.base) / 4096 + 1;
        let ghost old_mem = *self;
        self.tabs.push(Tab::zeroed());
        self.levels.push(level);
        proof {
            assert forall|t: int| 0 <= t < self.len() implies (#[trigger] self.tabs@[t]).0@.len() == 512 by {
                if t < n {
                    assert(self.tabs@[t] == old_mem.tabs@[t]);
                }
            }
            assert forall|t: int, j: int| #[trigger] self.is_ptr_slot(t, j)
                implies self.points_to(self.ent(t, j), self.level(t) - 1) by {
                if t < n {
                    assert(self.tabs@[t] == old_mem.tabs@[t]);
                    assert(old_mem.is_ptr_slot(t, j));
                } else {
                    assert(self.ent(t, j) == 0);
                    assert(0u64 & 1u64 == 0) by { lemma_zero_flags(); }
                }
            }
            assert forall|t1: int, j1: int, t2: int, j2: int|
                #[trigger] self.is_ptr_slot(t1, j1) && #[trigger] self.is_ptr_slot(t2, j2) && (t1, j1) != (t2, j2)
                    && (self.level(t1) < 3 || t1 == t2)
                implies self.child(self.ent(t1, j1)) != self.child(self.ent(t2, j2)) by {
                assert(0u64 & 1u64 == 0) by { lemma_zero_flags(); }
                if t1 >= n {
                    assert(self.ent(t1, j1) == 0);
                }
                if t2 >= n {
                    assert(self.ent(t2, j2) == 0);
                }
                assert(self.tabs@[t1] == old_mem.tabs@[t1]);
                assert(self.tabs@[t2] == old_mem.tabs@[t2]);
                assert(old_mem.is_ptr_slot(t1, j1));
                assert(old_mem.is_ptr_slot(t2, j2));
            }
            assert forall|t: int, j: int| 0 <= t < old_mem.len() implies #[trigger] self.ent(t, j) == old_mem.ent(t, j) by {
                assert(self.tabs@[t] == old_mem.tabs@[t]);
            }
        }
        Ok(n)
    }

    /// Records table `t` as handed back; the tables themselves stay.
    pub fn release(&mut self, t: usize)
        requires
            old(self).wf(),
        ensures
            final(self).wf(),
            final(self).tabs == old(self).tabs,
            final(self).levels == old(self).levels,
            final(self).base == old(self).base,
            final(self).released@ == old(self).released@.push(t),
    {
        let ghost m0 = *self;
        self.released.push(t);
        proof {
            assert forall|t1: int, j1: int| #[trigger] self.is_ptr_slot(t1, j1)
                implies self.points_to(self.ent(t1, j1), self.level(t1) - 1) by {
                assert(m0.is_ptr_slot(t1, j1));
            }
            assert forall|t1: int, j1: int, t2: int, j2: int|
                #[trigger] self.is_ptr_slot(t1, j1) && #[trigger] self.is_ptr_slot(t2, j2) && (t1, j1) != (t2, j2)
                    && (self.level(t1) < 3 || t1 == t2)
                implies self.child(self.ent(t1, j1)) != self.child(self.ent(t2, j2)) by {
                assert(m0.is_ptr_slot(t1, j1));
                assert(m0.is_ptr_slot(t2, j2));
            }
        }
    }

    /// Sets entry `j` of table `t` to `e`; a pointer to a table must point to
    /// a table of the next level down that no other entry points to.
    pub fn write(&mut self, t: usize, j: usize, e: Entry)
        requires
            old(self).wf(),
            t < old(self).len(),
            j < 512,
            is_table_ptr(old(self).level(t as int), e.0) ==> {
                &&& old(self).points_to(e.0, old(self).level(t as int) - 1)
                &&& forall|t2: int, j2: int| #[trigger] old(self).is_ptr_slot(t2, j2) && (t2, j2) != (t as int, j as int)
                    && (old(self).level(t as int) < 3 || old(self).level(t2) < 3 || t2 == t)
                    ==> old(self).child(old(self).ent(t2, j2)) != old(self).child(e.0)
            },
        ensures
            final(self).wf(),
            final(self).base == old(self).base,
            final(self).len() == old(self).len(),
            final(self).levels == old(self).levels,
            final(self).released == old(self).released,
            final(self).ent(t as int, j as int) == e.0,
            forall|t2: int, j2: int| 0 <= t2 < old(self).len() && 0 <= j2 < 512 && (t2, j2) != (t as int, j as int) ==> #[trigger] final(self).ent(t2, j2) == old(self).ent(t2, j2),
    {
        let ghost old_mem = *self;
        self.tabs[t].0.set(j, e);
        proof {
            assert forall|t2: int, j2: int| 0 <= t2 < old_mem.len() && 0 <= j2 < 512 && (t2, j2) != (t as int, j as int) implies #[trigger] self.ent(t2, j2) == old_mem.ent(t2, j2) by {
                if t2 != t {
                    assert(self.tabs@[t2] == old_mem.tabs@[t2]);
                }
            }
            assert forall|t2: int| 0 <= t2 < self.len() implies (#[trigger] self.tabs@[t2]).0@.len() == 512 by {
                if t2 != t {
                    assert(self.tabs@[t2] == old_mem.tabs@[t2]);
                }
            }
            assert forall|t1: int, j1: int| #[trigger] self.is_ptr_slot(t1, j1)
                implies self.points_to(self.ent(t1, j1), self.level(t1) - 1) by {
                if (t1, j1) != (t as int, j as int) {
                    assert(old_mem.is_ptr_slot(t1, j1));
                }
            }
            assert forall|t1: int, j1: int, t2: int, j2: int|
                #[trigger] self.is_ptr_slot(t1, j1) && #[trigger] self.is_ptr_slot(t2, j2) && (t1, j1) != (t2, j2)
                    && (self.level(t1) < 3 || t1 == t2)
                implies self.child(self.ent(t1, j1)) != self.child(self.ent(t2, j2)) by {
                if (t1, j1) != (t as int, j as int) {
                    assert(old_mem.is_ptr_slot(t1, j1));
                }
                if (t2, j2) != (t as int, j as int) {
                    assert(old_mem.is_ptr_slot(t2, j2));
                }
            }
        }
    }
}

/// The physical-address bits of an entry, for executable code.
pub const ADDRESS_MASK_EXEC: u64 = 0x000f_ffff_ffff_f000;

} // verus!
