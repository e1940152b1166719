//! The mapped areas of a hierarchy, for reports: its leaf entries in
//! address order, with neighbours of equal flags merged.

use vstd::prelude::*;
use crate::paging::entry::{is_huge, is_huge_bits, is_present_bits, ALL_FLAGS};
use crate::paging::exco::Exco;
use crate::paging::space::Area;
use crate::paging::table::{PtError, PtMem};

verus! {

/// A leaf: `count` 4 KiB pages from `start`, mapped with flags `flags`.
pub type Leaf = (u64, u64, u64);

/// The address range that an entry of a table at level `lvl` covers.
pub open spec fn span(lvl: nat) -> int {
    if lvl == 0 { 0x1000 } else if lvl == 1 { 0x20_0000 } else if lvl == 2 { 0x4000_0000 } else { 0x80_0000_0000 }
}

/// The pages that a huge entry at level `lvl` is counted as (1 << 20 at
/// the PDPT, 512 at the PD, 1 at the PT).
pub open spec fn huge_pages(lvl: nat) -> u64 {
    if lvl == 2 { 0x10_0000 } else if lvl == 1 { 512 } else { 1 }
}

/// The leaves under entries `0..j` of table `t` at level `lvl` whose first
/// entry covers `base`.
pub open spec fn tab_leaves(mem: &PtMem, t: int, lvl: nat, base: int, j: int) -> Seq<Leaf>
    decreases lvl, j, 1int,
{
    if j <= 0 {
        Seq::empty()
    } else {
        tab_leaves(mem, t, lvl, base, j - 1) + entry_leaves(mem, t, lvl, base, j - 1)
    }
}

/// The leaves under entry `j` of table `t` at level `lvl` whose first
/// entry covers `base`: none for an absent entry or a huge PML4 entry, the
/// entry itself for a PT entry or a huge entry, else those of the table it
/// points to.
pub open spec fn entry_leaves(mem: &PtMem, t: int, lvl: nat, base: int, j: int) -> Seq<Leaf>
    decreases lvl, 0int, 0int,
{
    let e = mem.ent(t, j);
    let b = base + j * span(lvl);
    if !is_present_bits(e) {
        Seq::empty()
    } else if lvl == 0 {
        seq![(b as u64, 1u64, e & ALL_FLAGS)]
    } else if is_huge_bits(e) {
        if lvl == 3 { Seq::empty() } else { seq![(b as u64, huge_pages(lvl), e & ALL_FLAGS)] }
    } else {
        tab_leaves(mem, mem.child(e), (lvl - 1) as nat, b, 512)
    }
}

/// `areas` with leaf `l` added: merged into the last area when it has the
/// same flags and ends where `l` starts, else appended while fewer than
/// `cap` areas are held, else dropped.
pub open spec fn push_area(areas: Seq<Area>, cap: int, l: Leaf) -> Seq<Area> {
    if areas.len() > 0 && areas.last().flags == l.2 && areas.last().start + areas.last().count * 4096 == l.0 {
        areas.update(areas.len() - 1, Area { count: (areas.last().count + l.1) as u64, ..areas.last() })
    } else if areas.len() < cap {
        areas.push(Area { start: l.0, count: l.1, flags: l.2 })
    } else {
        areas
    }
}

/// `areas` with the leaves `ls` added in order.
pub open spec fn push_all(areas: Seq<Area>, cap: int, ls: Seq<Leaf>) -> Seq<Area>
    decreases ls.len(),
{
    if ls.len() == 0 {
        areas
    } else {
        push_area(push_all(areas, cap, ls.drop_last()), cap, ls.last())
    }
}

/// Adding two runs of leaves one after the other adds their concatenation.
proof fn lemma_push_all_concat(areas: Seq<Area>, cap: int, a: Seq<Leaf>, b: Seq<Leaf>)
    ensures
        push_all(push_all(areas, cap, a), cap, b) == push_all(areas, cap, a + b),
    decreases b.len(),
{
    if b.len() > 0 {
        lemma_push_all_concat(areas, cap, a, b.drop_last());
        assert((a + b).drop_last() == a + b.drop_last());
    } else {
        assert(a + b == a);
    }
}

/// Whether every area of `areas` ends within 2^49.
pub open spec fn areas_bounded(areas: Seq<Area>) -> bool {
    forall|i: int| 0 <= i < areas.len() ==> (#[trigger] areas[i]).start + areas[i].count * 4096 <= 0x2_0000_0000_0000
}

/// Adds leaf `l` to `areas`; see [`push_area`].
fn try_push_area(areas: &mut Vec<Area>, cap: usize, l: Leaf)
    requires
        areas_bounded(old(areas)@),
        l.0 < 0x1_0000_0000_0000,
        l.1 <= 0x10_0000,
    ensures
        final(areas)@ == push_area(old(areas)@, cap as int, l),
        areas_bounded(final(areas)@),
{
    let n = areas.len();
    if n > 0 {
        let last = areas[n - 1];
        assert(areas@[n - 1] == last);
        if last.flags == l.2 && last.start + last.count * 4096 == l.0 {
            areas.set(n - 1, Area { count: last.count + l.1, ..last });
            proof {
                assert forall|i: int| 0 <= i < areas@.len() implies (#[trigger] areas@[i]).start + areas@[i].count * 4096 <= 0x2_0000_0000_0000 by {
                    if i != n - 1 { assert(areas@[i] == old(areas)@[i]); }
                }
            }
            return;
        }
    }
    if n < cap {
        areas.push(Area { start: l.0, count: l.1, flags: l.2 });
        proof {
            assert forall|i: int| 0 <= i < areas@.len() implies (#[trigger] areas@[i]).start + areas@[i].count * 4096 <= 0x2_0000_0000_0000 by {
                if i < n { assert(areas@[i] == old(areas)@[i]); }
            }
        }
    }
}

/// Adds the leaves of table `t` at level `lvl` (0 to 2) covering from
/// `base`, in order.
fn report_tab(mem: &PtMem, t: usize, lvl: u8, base: u64, areas: &mut Vec<Area>, cap: usize)
    requires
        mem.wf(),
        t < mem.len(),
        lvl <= 2,
        mem.level(t as int) == lvl,
        base + 512 * span(lvl as nat) <= 0x1_0000_0000_0000,
        areas_bounded(old(areas)@),
    ensures
        final(areas)@ == push_all(old(areas)@, cap as int, tab_leaves(mem, t as int, lvl as nat, base as int, 512)),
        areas_bounded(final(areas)@),
    decreases lvl,
{
    let step: u64 = if lvl == 0 { 0x1000 } else if lvl == 1 { 0x20_0000 } else { 0x4000_0000 };
    let mut j: usize = 0;
    while j < 512
        invariant
            mem.wf(),
            t < mem.len(),
            lvl <= 2,
            mem.level(t as int) == lvl,
            step == span(lvl as nat),
            base + 512 * span(lvl as nat) <= 0x1_0000_0000_0000,
            j <= 512,
            areas_bounded(areas@),
            areas@ == push_all(old(areas)@, cap as int, tab_leaves(mem, t as int, lvl as nat, base as int, j as int)),
        decreases 512 - j,
    {
        let e = mem.read(t, j);
        proof {
            assert(j * span(lvl as nat) <= 511 * span(lvl as nat)) by (nonlinear_arith) requires j <= 511, span(lvl as nat) > 0;
        }
        let b = base + (j as u64) * step;
        let ghost before = areas@;
        proof {
            assert(tab_leaves(mem, t as int, lvl as nat, base as int, j + 1)
                == tab_leaves(mem, t as int, lvl as nat, base as int, j as int) + entry_leaves(mem, t as int, lvl as nat, base as int, j as int));
        }
        if e.is_present() {
            if lvl == 0 || is_huge(&e) {
                let count: u64 = if lvl == 2 { 0x10_0000 } else if lvl == 1 { 512 } else { 1 };
                try_push_area(areas, cap, (b, count, e.0 & ALL_FLAGS));
                proof {
                    assert(entry_leaves(mem, t as int, lvl as nat, base as int, j as int) == seq![(b, count, e.0 & ALL_FLAGS)]);
                    lemma_push_all_concat(old(areas)@, cap as int, tab_leaves(mem, t as int, lvl as nat, base as int, j as int),
                        entry_leaves(mem, t as int, lvl as nat, base as int, j as int));
                    let s1 = seq![(b, count, e.0 & ALL_FLAGS)];
                    assert(s1.drop_last() =~= Seq::<Leaf>::empty());
                    assert(s1.last() == (b, count, e.0 & ALL_FLAGS));
                    assert(push_all(before, cap as int, Seq::<Leaf>::empty()) == before);
                    assert(push_all(before, cap as int, seq![(b, count, e.0 & ALL_FLAGS)]) == push_area(before, cap as int, (b, count, e.0 & ALL_FLAGS)));
                }
            } else {
                assert(mem.is_ptr_slot(t as int, j as int));
                let c = mem.tab_index(&e, Ghost((lvl - 1) as int));
                proof { assert(512 * span((lvl - 1) as nat) == span(lvl as nat)); }
                report_tab(mem, c, lvl - 1, b, areas, cap);
                proof {
                    lemma_push_all_concat(old(areas)@, cap as int, tab_leaves(mem, t as int, lvl as nat, base as int, j as int),
                        entry_leaves(mem, t as int, lvl as nat, base as int, j as int));
                }
            }
        } else {
            proof {
                assert(entry_leaves(mem, t as int, lvl as nat, base as int, j as int) == Seq::<Leaf>::empty());
                assert(tab_leaves(mem, t as int, lvl as nat, base as int, j + 1) =~= tab_leaves(mem, t as int, lvl as nat, base as int, j as int));
            }
        }
        j = j + 1;
    }
}

impl Exco {
    /// The mapped areas, in address order: each present leaf entry (a
    /// 4 KiB page, a 2 MiB page counted as 512 pages, a 1 GiB page counted
    /// as 1 << 20 pages, at the address its indices give) merged into the
    /// area before it when the flags are equal and it starts where that
    /// area ends; at most `cap` areas are kept (a leaf that would start
    /// another is dropped). Huge PML4 entries are skipped.
    pub fn report(&self, cap: usize) -> (r: Vec<Area>)
        requires
            self.wf(),
        ensures
            r@ == push_all(Seq::empty(), cap as int, tab_leaves(&self.mem, self.root as int, 3, 0, 512)),
    {
        let mut areas: Vec<Area> = Vec::new();
        let mut j: usize = 0;
        let mem = &self.mem;
        let t = self.root;
        while j < 512
            invariant
                mem.wf(),
                mem == &self.mem,
                t == self.root,
                t < mem.len(),
                mem.level(t as int) == 3,
                j <= 512,
                areas_bounded(areas@),
                areas@ == push_all(Seq::empty(), cap as int, tab_leaves(mem, t as int, 3, 0, j as int)),
            decreases 512 - j,
        {
            let e = mem.read(t, j);
            let b = (j as u64) * 0x80_0000_0000;
            proof {
                assert(tab_leaves(mem, t as int, 3, 0, j + 1)
                    == tab_leaves(mem, t as int, 3, 0, j as int) + entry_leaves(mem, t as int, 3, 0, j as int));
            }
            if e.is_present() && !is_huge(&e) {
                assert(mem.is_ptr_slot(t as int, j as int));
                let c = mem.tab_index(&e, Ghost(2int));
                report_tab(mem, c, 2, b, &mut areas, cap);
                proof {
                    lemma_push_all_concat(Seq::empty(), cap as int, tab_leaves(mem, t as int, 3, 0, j as int),
                        entry_leaves(mem, t as int, 3, 0, j as int));
                }
            } else {
                proof {
                    assert(entry_leaves(mem, t as int, 3, 0, j as int) == Seq::<Leaf>::empty());
                    assert(tab_leaves(mem, t as int, 3, 0, j + 1) =~= tab_leaves(mem, t as int, 3, 0, j as int));
                }
            }
            j = j + 1;
        }
        areas
    }

    /// [`Exco::report`], or an error when `cap` areas were reached (some may
    /// be missing).
    pub fn try_report(&self, cap: usize) -> (r: Result<Vec<Area>, PtError>)
        requires
            self.wf(),
        ensures
            ({
                let a = push_all(Seq::empty(), cap as int, tab_leaves(&self.mem, self.root as int, 3, 0, 512));
                if a.len() == cap { r == Err::<Vec<Area>, PtError>(PtError::ReportFull) } else { r matches Ok(v) && v@ == a }
            }),
    {
        let areas = self.report(cap);
        if areas.len() == cap {
            Err(PtError::ReportFull)
        } else {
            Ok(areas)
        }
    }
}

} // verus!
