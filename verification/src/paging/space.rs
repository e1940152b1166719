//! Creating, copying, adopting and clearing whole hierarchies.

use vstd::prelude::*;
use crate::paging::entry::{Entry, is_huge, is_huge_bits, is_present_bits};
use crate::paging::exco::Exco;
use crate::paging::table::{
    ADDRESS_MASK_EXEC, PHYS_LIMIT, PtError, PtMem, Tab, is_root, lemma_path_slot, path_ent, path_ok,
    path_slot, pml4_index, translate, walk_spec,
};

verus! {

/// A run of mapped virtual memory with one set of flags.
#[derive(Clone, Copy, Debug)]
pub struct Area {
    /// First virtual address.
    pub start: u64,
    /// Number of 4 KiB pages.
    pub count: u64,
    /// The flags of its entries.
    pub flags: u64,
}

/// A PML4 whose entries are all empty maps nothing.
pub proof fn lemma_empty_root(mem: &PtMem, root: int)
    requires
        mem.wf(),
        is_root(mem, root),
        forall|j: int| 0 <= j < 512 ==> #[trigger] mem.ent(root, j) == 0,
    ensures
        forall|v: u64| #[trigger] translate(mem, root, v) is None,
{
    assert(0u64 & 1u64 == 0) by { crate::paging::table::lemma_zero_flags(); }
    assert forall|v: u64| #[trigger] translate(mem, root, v) is None by {
        assert(0 <= pml4_index(v) < 512) by { crate::paging::table::lemma_indices(v); }
        assert(path_ent(mem, root, v, 3) == mem.ent(root, pml4_index(v)));
    }
}

/// Two pools with the same base, levels and entries translate alike.
pub proof fn lemma_translate_same(m1: &PtMem, m2: &PtMem, root: int, v: u64)
    requires
        m1.wf(),
        m2.wf(),
        is_root(m1, root),
        m1.base == m2.base,
        m1.len() == m2.len(),
        forall|t: int| 0 <= t < m1.len() ==> #[trigger] m2.level(t) == m1.level(t),
        forall|t: int, j: int| 0 <= t < m1.len() && 0 <= j < 512 ==> #[trigger] m2.ent(t, j) == m1.ent(t, j),
    ensures
        translate(m2, root, v) == translate(m1, root, v),
        walk_spec(m2, root, v, 0) == walk_spec(m1, root, v, 0),
        walk_spec(m2, root, v, 1) == walk_spec(m1, root, v, 1),
        walk_spec(m2, root, v, 2) == walk_spec(m1, root, v, 2),
{
    reveal_with_fuel(path_slot, 4);
    reveal_with_fuel(path_ok, 4);
    lemma_path_slot(m1, root, v, 3);
    let s3 = path_slot(m1, root, v, 3);
    assert(path_slot(m2, root, v, 3) == s3);
    if m1.is_ptr_slot(s3.0, s3.1) {
        assert(m2.is_ptr_slot(s3.0, s3.1));
        lemma_path_slot(m1, root, v, 2);
        let s2 = path_slot(m1, root, v, 2);
        assert(path_slot(m2, root, v, 2) == s2);
        if m1.is_ptr_slot(s2.0, s2.1) {
            lemma_path_slot(m1, root, v, 1);
            let s1 = path_slot(m1, root, v, 1);
            assert(path_slot(m2, root, v, 1) == s1);
            if m1.is_ptr_slot(s1.0, s1.1) {
                lemma_path_slot(m1, root, v, 0);
                assert(path_slot(m2, root, v, 0) == path_slot(m1, root, v, 0));
            }
        }
    }
}

impl Exco {
    /// A new, empty hierarchy: a zeroed PML4 added to the pool `mem`.
    pub fn new(mem: PtMem) -> (x: Exco)
        requires
            mem.wf(),
            mem.base + 4096 * (mem.len() + 1) <= PHYS_LIMIT,
        ensures
            x.wf(),
            x.owned,
            x.root == mem.len(),
            x.cr3 == x.mem.tab_addr(x.root as int),
            x.mem.len() == mem.len() + 1,
            forall|t: int, j: int| 0 <= t < mem.len() && 0 <= j < 512 ==> #[trigger] x.mem.ent(t, j) == mem.ent(t, j),
            forall|j: int| 0 <= j < 512 ==> #[trigger] x.mem.ent(x.root as int, j) == 0,
            forall|v: u64| #[trigger] x.view_at(v) is None,
    {
        let mut mem = mem;
        let r = mem.alloc_tab_zeroed(3);
        match r {
            Ok(root) => {
                let cr3 = mem.addr_of(root);
                proof {
                    lemma_empty_root(&mem, root as int);
                }
                Exco { cr3, root, owned: true, mem }
            },
            Err(_) => {
                proof { assert(false); }
                Exco { cr3: 0, root: 0, owned: true, mem }
            },
        }
    }

    /// A new, empty hierarchy, or `OutOfTables` when the pool has no room
    /// for its PML4.
    pub fn try_new(mem: PtMem) -> (r: Result<Exco, PtError>)
        requires
            mem.wf(),
        ensures
            r is Err <==> mem.base + 4096 * (mem.len() + 1) > PHYS_LIMIT,
            r matches Err(e) ==> e == PtError::OutOfTables,
            r matches Ok(x) ==> x.wf() && x.owned && x.root == mem.len() && x.mem.len() == mem.len() + 1
                && x.cr3 == x.mem.tab_addr(x.root as int)
                && (forall|v: u64| #[trigger] x.view_at(v) is None),
    {
        let n = mem.tabs.len();
        if mem.base > PHYS_LIMIT - 4096 || (n as u64) >= (PHYS_LIMIT - 4096 - mem.base) / 4096 + 1 {
            assert(mem.base + 4096 * (n + 1) > PHYS_LIMIT) by (nonlinear_arith)
                requires
                    mem.base > PHYS_LIMIT - 4096 || n >= (PHYS_LIMIT - 4096 - mem.base) / 4096 + 1,
                    mem.base <= PHYS_LIMIT;
            return Err(PtError::OutOfTables);
        }
        assert(mem.base + 4096 * (n + 1) <= PHYS_LIMIT) by (nonlinear_arith)
            requires
                mem.base <= PHYS_LIMIT - 4096,
                n < (PHYS_LIMIT - 4096 - mem.base) / 4096 + 1;
        Ok(Exco::new(mem))
    }

    /// Adopts the hierarchy that the value `cr3` of the CR3 register names:
    /// the PML4 of the pool at its physical address. The tables stay
    /// borrowed (not owned).
    pub fn try_current(mem: PtMem, cr3: u64) -> (r: Result<Exco, PtError>)
        requires
            mem.wf(),
        ensures
            r is Ok <==> exists|t: int| #[trigger] is_root(&mem, t) && mem.tab_addr(t) == (cr3 & ADDRESS_MASK_EXEC),
            r matches Err(e) ==> e == PtError::NotRoot,
            r matches Ok(x) ==> x.wf() && !x.owned && x.cr3 == cr3 && x.mem == mem
                && x.mem.tab_addr(x.root as int) == (cr3 & ADDRESS_MASK_EXEC),
    {
        let a: u64 = cr3 & ADDRESS_MASK_EXEC;
        let n = mem.tabs.len();
        if a < mem.base || (a - mem.base) % 4096 != 0 || (a - mem.base) / 4096 >= n as u64 {
            proof {
                assert forall|t: int| #[trigger] is_root(&mem, t) implies mem.tab_addr(t) != a by {
                    if mem.tab_addr(t) == a {
                        assert((a - mem.base) % 4096 == 0 && (a - mem.base) / 4096 == t) by (nonlinear_arith)
                            requires a == mem.base + 4096 * t, t >= 0;
                    }
                }
            }
            return Err(PtError::NotRoot);
        }
        let t: usize = ((a - mem.base) / 4096) as usize;
        assert(mem.tab_addr(t as int) == a) by (nonlinear_arith)
            requires t == (a - mem.base) / 4096, (a - mem.base) % 4096 == 0, a >= mem.base;
        if mem.levels[t] != 3 {
            proof {
                assert forall|t2: int| #[trigger] is_root(&mem, t2) implies mem.tab_addr(t2) != a by {
                    if mem.tab_addr(t2) == a {
                        assert(t2 == t) by (nonlinear_arith)
                            requires mem.base + 4096 * t2 == mem.base + 4096 * t;
                    }
                }
            }
            return Err(PtError::NotRoot);
        }
        proof {
            assert(is_root(&mem, t as int));
        }
        Ok(Exco { cr3, root: t, owned: false, mem })
    }
}

impl Tab {
    /// A copy of the table.
    pub fn copy(&self) -> (t: Tab)
        ensures
            t.0@ == self.0@,
    {
        let mut v: Vec<Entry> = Vec::new();
        let mut i: usize = 0;
        while i < self.0.len()
            invariant
                i <= self.0@.len(),
                v@ == self.0@.subrange(0, i as int),
            decreases self.0@.len() - i,
        {
            v.push(self.0[i]);
            i = i + 1;
        }
        Tab(v)
    }
}

impl PtMem {
    /// A second pool with the same tables at the same addresses.
    pub fn copy(&self) -> (m: PtMem)
        requires
            self.wf(),
        ensures
            m.wf(),
            m.base == self.base,
            m.len() == self.len(),
            m.levels@ == self.levels@,
            m.released@ == Seq::<usize>::empty(),
            forall|t: int, j: int| 0 <= t < self.len() && 0 <= j < 512 ==> #[trigger] m.ent(t, j) == self.ent(t, j),
    {
        let mut tabs: Vec<Tab> = Vec::new();
        let mut levels: Vec<u8> = Vec::new();
        let mut i: usize = 0;
        while i < self.tabs.len()
            invariant
                self.wf(),
                i <= self.len(),
                tabs@.len() == i,
                levels@ == self.levels@.subrange(0, i as int),
                forall|t: int| 0 <= t < i ==> (#[trigger] tabs@[t]).0@ == self.tabs@[t].0@,
            decreases self.len() - i,
        {
            tabs.push(self.tabs[i].copy());
            levels.push(self.levels[i]);
            i = i + 1;
        }
        let m = PtMem { base: self.base, tabs, levels, released: Vec::new() };
        proof {
            assert(m.levels@ =~= self.levels@);
            assert forall|t: int, j: int| #[trigger] m.is_ptr_slot(t, j)
                implies m.points_to(m.ent(t, j), m.level(t) - 1) by {
                assert(self.is_ptr_slot(t, j));
            }
            assert forall|t1: int, j1: int, t2: int, j2: int|
                #[trigger] m.is_ptr_slot(t1, j1) && #[trigger] m.is_ptr_slot(t2, j2) && (t1, j1) != (t2, j2)
                    && (m.level(t1) < 3 || t1 == t2)
                implies m.child(m.ent(t1, j1)) != m.child(m.ent(t2, j2)) by {
                assert(self.is_ptr_slot(t1, j1));
                assert(self.is_ptr_slot(t2, j2));
            }
        }
        m
    }
}

impl Exco {
    /// A copy of the hierarchy in a pool of its own: the same tables (and
    /// so the same translations), owned by the copy.
    pub fn dup(&self) -> (x: Exco)
        requires
            self.wf(),
        ensures
            x.wf(),
            x.owned,
            x.root == self.root,
            x.cr3 == x.mem.tab_addr(x.root as int),
            x.mem.len() == self.mem.len(),
            forall|t: int, j: int| 0 <= t < self.mem.len() && 0 <= j < 512 ==> #[trigger] x.mem.ent(t, j) == self.mem.ent(t, j),
            forall|v: u64| #[trigger] x.view_at(v) == self.view_at(v),
    {
        let mem = self.mem.copy();
        let cr3 = mem.addr_of(self.root);
        proof {
            assert forall|v: u64| #[trigger] translate(&mem, self.root as int, v) == translate(&self.mem, self.root as int, v) by {
                lemma_translate_same(&self.mem, &mem, self.root as int, v);
            }
        }
        Exco { cr3, root: self.root, owned: true, mem }
    }

    /// A copy of the hierarchy; see [`Exco::dup`].
    pub fn try_dup(&self) -> (r: Result<Exco, PtError>)
        requires
            self.wf(),
        ensures
            r matches Ok(x) ==> x.wf() && x.owned && x.root == self.root && x.mem.len() == self.mem.len()
                && x.cr3 == x.mem.tab_addr(x.root as int)
                && (forall|v: u64| #[trigger] x.view_at(v) == self.view_at(v)),
            r is Ok,
    {
        Ok(self.dup())
    }
}

/// Records table `t` (of level `lvl`) and every table below it as handed
/// back to the pool.
fn release_subtree(mem: &mut PtMem, t: usize, lvl: u8)
    requires
        old(mem).wf(),
        t < old(mem).len(),
        old(mem).level(t as int) == lvl,
        lvl <= 3,
    ensures
        final(mem).wf(),
        final(mem).tabs == old(mem).tabs,
        final(mem).levels == old(mem).levels,
        final(mem).base == old(mem).base,
        final(mem).released@.len() > old(mem).released@.len(),
        final(mem).released@.subrange(0, old(mem).released@.len() as int) == old(mem).released@,
    decreases lvl,
{
    let ghost m0 = *mem;
    if lvl > 0 {
        let mut j: usize = 0;
        while j < 512
            invariant
                mem.wf(),
                mem.tabs == m0.tabs,
                mem.levels == m0.levels,
                mem.base == m0.base,
                m0.wf(),
                t < m0.len(),
                m0.level(t as int) == lvl,
                0 < lvl <= 3,
                j <= 512,
                mem.released@.len() >= m0.released@.len(),
                mem.released@.subrange(0, m0.released@.len() as int) == m0.released@,
            decreases 512 - j,
        {
            let e = mem.read(t, j);
            let is_ptr = if lvl == 3 { e.is_present() } else { e.is_present() && !is_huge(&e) };
            if is_ptr {
                proof {
                    assert(mem.is_ptr_slot(t as int, j as int));
                }
                let c = mem.tab_index(&e, Ghost(lvl - 1));
                let ghost r0 = mem.released@;
                release_subtree(mem, c, lvl - 1);
                proof {
                    assert(mem.released@.subrange(0, m0.released@.len() as int)
                        =~= r0.subrange(0, m0.released@.len() as int));
                }
            }
            j = j + 1;
        }
    }
    let ghost r1 = mem.released@;
    mem.release(t);
    proof {
        assert(mem.released@.subrange(0, m0.released@.len() as int) =~= r1.subrange(0, m0.released@.len() as int));
    }
}

impl Exco {
    /// Empties the hierarchy: an owned one hands every table back to the
    /// pool first; then all PML4 entries are cleared.
    pub fn clean(&mut self)
        requires
            old(self).wf(),
        ensures
            final(self).wf(),
            final(self).root == old(self).root,
            final(self).owned == old(self).owned,
            final(self).cr3 == final(self).mem.tab_addr(final(self).root as int),
            final(self).mem.len() == old(self).mem.len(),
            final(self).mem.base == old(self).mem.base,
            forall|j: int| 0 <= j < 512 ==> #[trigger] final(self).mem.ent(final(self).root as int, j) == 0,
            forall|t: int, j: int| 0 <= t < old(self).mem.len() && t != old(self).root && 0 <= j < 512
                ==> #[trigger] final(self).mem.ent(t, j) == old(self).mem.ent(t, j),
            !old(self).owned ==> final(self).mem.released == old(self).mem.released,
            old(self).owned ==> final(self).mem.released@.len() > old(self).mem.released@.len(),
            forall|v: u64| #[trigger] final(self).view_at(v) is None,
    {
        if self.owned {
            release_subtree(&mut self.mem, self.root, 3);
        }
        let ghost m1 = self.mem;
        let mut j: usize = 0;
        while j < 512
            invariant
                self.mem.wf(),
                is_root(&self.mem, self.root as int),
                self.root == old(self).root,
                self.owned == old(self).owned,
                self.mem.len() == m1.len(),
                self.mem.base == m1.base,
                self.mem.released == m1.released,
                m1.len() == old(self).mem.len(),
                m1.base == old(self).mem.base,
                !old(self).owned ==> m1.released == old(self).mem.released,
                old(self).owned ==> m1.released@.len() > old(self).mem.released@.len(),
                forall|t: int, j2: int| 0 <= t < m1.len() && 0 <= j2 < 512 ==> #[trigger] m1.ent(t, j2) == old(self).mem.ent(t, j2),
                j <= 512,
                forall|k: int| 0 <= k < j ==> #[trigger] self.mem.ent(self.root as int, k) == 0,
                forall|t: int, k: int| 0 <= t < m1.len() && t != self.root && 0 <= k < 512
                    ==> #[trigger] self.mem.ent(t, k) == m1.ent(t, k),
            decreases 512 - j,
        {
            assert(0u64 & 1u64 == 0) by { crate::paging::table::lemma_zero_flags(); }
            let ghost mi = self.mem;
            self.mem.write(self.root, j, Entry(0));
            proof {
                assert forall|k: int| 0 <= k < j + 1 implies #[trigger] self.mem.ent(self.root as int, k) == 0 by {
                    if k < j {
                        assert(self.mem.ent(self.root as int, k) == mi.ent(self.root as int, k));
                    }
                }
                assert forall|t: int, k: int| 0 <= t < m1.len() && t != self.root && 0 <= k < 512
                    implies #[trigger] self.mem.ent(t, k) == m1.ent(t, k) by {
                    assert(self.mem.ent(t, k) == mi.ent(t, k));
                }
            }
            j = j + 1;
        }
        self.cr3 = self.mem.addr_of(self.root);
        proof {
            lemma_empty_root(&self.mem, self.root as int);
        }
    }

    /// Empties the hierarchy; see [`Exco::clean`].
    pub fn try_clean(&mut self) -> (r: Result<(), PtError>)
        requires
            old(self).wf(),
        ensures
            r is Ok,
            final(self).wf(),
            final(self).root == old(self).root,
            final(self).owned == old(self).owned,
            final(self).cr3 == final(self).mem.tab_addr(final(self).root as int),
            forall|v: u64| #[trigger] final(self).view_at(v) is None,
    {
        self.clean();
        Ok(())
    }
}

} // verus!
