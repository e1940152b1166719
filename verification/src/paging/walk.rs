//! Walking a hierarchy down to the entry that maps an address.

use vstd::prelude::*;
use crate::paging::entry::{Entry, is_huge, is_huge_bits, is_present_bits};
use crate::paging::table::PHYS_LIMIT;
use crate::paging::table::{
    PtError, PtMem, is_root, lemma_path_slot, lemma_table_pointer_bits, path_ent, path_ok, path_slot,
    pd_i, pdpt_i, pml4_i, pt_i, walk_mut_spec, walk_spec,
};

verus! {

/// Read-only walk for `vaddr` from the PML4 `root` down to the PT entry
/// (`level_hint` 0), the PD entry (1) or the PDPT entry (2).
pub fn walk_entry(mem: &PtMem, root: usize, vaddr: u64, level_hint: u8) -> (r: Result<Entry, PtError>)
    requires
        mem.wf(),
        is_root(mem, root as int),
        level_hint <= 2,
    ensures
        r is Ok == walk_spec(mem, root as int, vaddr, level_hint as int) is Ok,
        r matches Ok(e) ==> walk_spec(mem, root as int, vaddr, level_hint as int) == Ok::<u64, PtError>(e.0),
        r matches Err(x) ==> walk_spec(mem, root as int, vaddr, level_hint as int) == Err::<u64, PtError>(x),
{
    reveal_with_fuel(path_slot, 4);
    reveal_with_fuel(path_ok, 4);
    let ghost v = vaddr;
    let ghost rt = root as int;
    let e4 = mem.read(root, pml4_i(vaddr));
    if !e4.is_present() {
        return Err(PtError::Pml4NotPresent);
    }
    if is_huge(&e4) {
        return Err(PtError::Pml4Huge);
    }
    proof {
        lemma_path_slot(mem, rt, v, 3);
        assert(mem.is_ptr_slot(rt, path_slot(mem, rt, v, 3).1));
        assert(path_ok(mem, rt, v, 2));
        lemma_path_slot(mem, rt, v, 2);
    }
    let pdpt = mem.tab_index(&e4, Ghost(2));
    let e3 = mem.read(pdpt, pdpt_i(vaddr));
    if !e3.is_present() {
        return Err(PtError::PdptNotPresent);
    }
    if level_hint == 2 {
        return Ok(e3);
    }
    if is_huge(&e3) {
        return Err(PtError::Huge1G);
    }
    proof {
        assert(path_ok(mem, rt, v, 1));
        lemma_path_slot(mem, rt, v, 1);
    }
    let pd = mem.tab_index(&e3, Ghost(1));
    let e2 = mem.read(pd, pd_i(vaddr));
    if !e2.is_present() {
        return Err(PtError::PdNotPresent);
    }
    if level_hint == 1 {
        return Ok(e2);
    }
    if is_huge(&e2) {
        return Err(PtError::Huge2M);
    }
    proof {
        assert(path_ok(mem, rt, v, 0));
        lemma_path_slot(mem, rt, v, 0);
    }
    let pt = mem.tab_index(&e2, Ghost(0));
    let e1 = mem.read(pt, pt_i(vaddr));
    if !e1.is_present() {
        return Err(PtError::PtNotPresent);
    }
    Ok(e1)
}


/// Whether `new` grew from `old` only along the walk for `v`: tables kept
/// their levels, an old entry changed only where it was empty and now points
/// to a new table on that walk at a level from `lo` up, and new tables are
/// empty except on that walk, where they point to new tables.
pub open spec fn grows_along(old: &PtMem, new: &PtMem, root: int, v: u64, lo: int) -> bool {
    &&& new.base == old.base
    &&& old.len() <= new.len()
    &&& forall|t: int| 0 <= t < old.len() ==> #[trigger] new.level(t) == old.level(t)
    &&& forall|t: int, j: int| 0 <= t < old.len() && 0 <= j < 512 && #[trigger] new.ent(t, j) != old.ent(t, j)
        ==> !is_present_bits(old.ent(t, j)) && !is_huge_bits(new.ent(t, j)) && on_path(new, root, v, t, j, lo)
            && new.child(new.ent(t, j)) >= old.len()
    &&& forall|t: int, j: int| old.len() <= t < new.len() && 0 <= j < 512 && #[trigger] new.ent(t, j) != 0
        ==> on_path(new, root, v, t, j, lo) && !is_huge_bits(new.ent(t, j)) && new.child(new.ent(t, j)) >= old.len()
}

/// The entry value that links an upper slot to table `c` of the pool: the
/// table's address with PRESENT and WRITABLE (bits 0 and 1) and no other flag.
pub open spec fn link_bits(mem: &PtMem, c: int) -> u64 {
    (mem.tab_addr(c) as u64) | 3u64
}

/// Whether every slot that `new` filled (an old slot that changed, or a
/// nonzero slot of a new table) links to its table as [`link_bits`] says.
pub open spec fn links_writable(old: &PtMem, new: &PtMem) -> bool {
    &&& forall|t: int, j: int| 0 <= t < old.len() && 0 <= j < 512 && #[trigger] new.ent(t, j) != old.ent(t, j)
        ==> new.ent(t, j) == link_bits(new, new.child(new.ent(t, j)))
    &&& forall|t: int, j: int| old.len() <= t < new.len() && 0 <= j < 512 && #[trigger] new.ent(t, j) != 0
        ==> new.ent(t, j) == link_bits(new, new.child(new.ent(t, j)))
}

/// Filling slot `(t, j)` with a link to a new, empty table keeps every
/// filled slot a writable link.
proof fn lemma_step_links(old: &PtMem, a: &PtMem, b: &PtMem, t: int, j: int)
    requires
        links_writable(old, a),
        old.len() <= a.len(),
        0 <= t < a.len(),
        0 <= j < 512,
        b.base == a.base,
        b.len() == a.len() + 1,
        b.ent(t, j) == link_bits(b, a.len() as int),
        b.child(b.ent(t, j)) == a.len(),
        forall|t2: int, j2: int| 0 <= t2 < a.len() && 0 <= j2 < 512 && (t2, j2) != (t, j)
            ==> #[trigger] b.ent(t2, j2) == a.ent(t2, j2),
        forall|j2: int| 0 <= j2 < 512 ==> #[trigger] b.ent(a.len() as int, j2) == 0,
    ensures
        links_writable(old, b),
{
    assert forall|t2: int, j2: int| 0 <= t2 < old.len() && 0 <= j2 < 512 && #[trigger] b.ent(t2, j2) != old.ent(t2, j2)
        implies b.ent(t2, j2) == link_bits(b, b.child(b.ent(t2, j2))) by {
        if (t2, j2) != (t, j) {
            assert(b.ent(t2, j2) == a.ent(t2, j2));
        }
    }
    assert forall|t2: int, j2: int| old.len() <= t2 < b.len() && 0 <= j2 < 512 && #[trigger] b.ent(t2, j2) != 0
        implies b.ent(t2, j2) == link_bits(b, b.child(b.ent(t2, j2))) by {
        if t2 < a.len() && (t2, j2) != (t, j) {
            assert(b.ent(t2, j2) == a.ent(t2, j2));
        }
    }
}

/// Whether slot `(t, j)` is one of the upper slots, at a level from `lo`
/// (and at least 1) to 3, that the walk for `v` reaches.
pub open spec fn on_path(mem: &PtMem, root: int, v: u64, t: int, j: int, lo: int) -> bool {
    ||| lo <= 3 && (t, j) == path_slot(mem, root, v, 3)
    ||| lo <= 2 && path_ok(mem, root, v, 2) && (t, j) == path_slot(mem, root, v, 2)
    ||| lo <= 1 && path_ok(mem, root, v, 1) && (t, j) == path_slot(mem, root, v, 1)
}

/// Makes slot `(t, j)` of a table of level `lvl` (3, 2 or 1) point to a
/// table: an empty slot gets a new, zeroed table of level `lvl - 1`.
/// Returns the table that the slot points to; the slot must not be a huge page.
fn ensure_child(mem: &mut PtMem, t: usize, j: usize, lvl: u8) -> (r: Result<usize, PtError>)
    requires
        old(mem).wf(),
        t < old(mem).len(),
        j < 512,
        1 <= lvl <= 3,
        old(mem).level(t as int) == lvl,
        lvl < 3 ==> !(is_present_bits(old(mem).ent(t as int, j as int)) && is_huge_bits(old(mem).ent(t as int, j as int))),
    ensures
        final(mem).wf(),
        final(mem).base == old(mem).base,
        r is Err <==> !is_present_bits(old(mem).ent(t as int, j as int))
            && old(mem).base + 4096 * (old(mem).len() + 1) > PHYS_LIMIT,
        r matches Err(e) ==> e == PtError::OutOfTables && *final(mem) == *old(mem),
        r matches Ok(c) ==> {
            &&& final(mem).is_ptr_slot(t as int, j as int)
            &&& c == final(mem).child(final(mem).ent(t as int, j as int))
            &&& c < final(mem).len()
            &&& final(mem).level(c as int) == lvl - 1
            &&& is_present_bits(old(mem).ent(t as int, j as int)) ==> *final(mem) == *old(mem)
            &&& !is_present_bits(old(mem).ent(t as int, j as int)) ==> {
                &&& c == old(mem).len()
                &&& final(mem).ent(t as int, j as int) == link_bits(final(mem), c as int)
                &&& !is_huge_bits(final(mem).ent(t as int, j as int))
                &&& final(mem).len() == old(mem).len() + 1
                &&& forall|t2: int, j2: int| 0 <= t2 < old(mem).len() && 0 <= j2 < 512 && (t2, j2) != (t as int, j as int)
                    ==> #[trigger] final(mem).ent(t2, j2) == old(mem).ent(t2, j2)
                &&& forall|j2: int| 0 <= j2 < 512 ==> #[trigger] final(mem).ent(c as int, j2) == 0
                &&& forall|t2: int| 0 <= t2 < old(mem).len() ==> #[trigger] final(mem).level(t2) == old(mem).level(t2)
            }
        },
{
    let e = mem.read(t, j);
    if e.is_present() {
        proof {
            assert(mem.is_ptr_slot(t as int, j as int));
        }
        return Ok(mem.tab_index(&e, Ghost(lvl - 1)));
    }
    let ghost m0 = *mem;
    let c = mem.alloc_tab_zeroed(lvl - 1)?;
    let a = mem.addr_of(c);
    let ghost m1 = *mem;
    proof {
        lemma_table_pointer_bits(a);
        assert(mem.child(a | 3u64) == c);
        assert forall|t2: int, j2: int| #[trigger] mem.is_ptr_slot(t2, j2) && (t2, j2) != (t as int, j as int)
            implies mem.child(mem.ent(t2, j2)) != mem.child(a | 3u64) by {
            assert(0u64 & 1u64 == 0) by { crate::paging::table::lemma_zero_flags(); }
            if t2 == c {
                assert(mem.ent(t2, j2) == 0);
            } else {
                assert(mem.ent(t2, j2) == m0.ent(t2, j2));
                assert(m0.is_ptr_slot(t2, j2));
            }
        }
    }
    proof {
        assert(m1.level(t as int) == m0.level(t as int));
    }
    mem.write(t, j, Entry(a | 3));
    proof {
        assert(mem.level(t as int) == lvl);
        assert(mem.ent(t as int, j as int) == a | 3u64);
        assert(mem.is_ptr_slot(t as int, j as int));
        assert forall|t2: int, j2: int| 0 <= t2 < m0.len() && 0 <= j2 < 512 && (t2, j2) != (t as int, j as int)
            implies #[trigger] mem.ent(t2, j2) == m0.ent(t2, j2) by {
            assert(mem.ent(t2, j2) == m1.ent(t2, j2));
        }
        assert forall|j2: int| 0 <= j2 < 512 implies #[trigger] mem.ent(c as int, j2) == 0 by {
            assert(mem.ent(c as int, j2) == m1.ent(c as int, j2));
        }
        assert forall|t2: int| 0 <= t2 < m0.len() implies #[trigger] mem.level(t2) == m0.level(t2) by {
            assert(mem.level(t2) == m1.level(t2));
        }
    }
    Ok(c)
}


/// Filling the empty slot `(t, j)` at level `lvl` of the walk for `v` with a
/// pointer to a new, empty table keeps the growth along that walk.
proof fn lemma_step_grows(old: &PtMem, a: &PtMem, b: &PtMem, root: int, v: u64, lvl: int, lo: int)
    requires
        old.wf(), a.wf(), b.wf(),
        is_root(old, root),
        1 <= lvl <= 3,
        1 <= lo <= lvl,
        grows_along(old, a, root, v, lo),
        path_ok(a, root, v, lvl),
        !is_present_bits(a.ent(path_slot(a, root, v, lvl).0, path_slot(a, root, v, lvl).1)),
        b.base == a.base,
        b.len() == a.len() + 1,
        b.is_ptr_slot(path_slot(a, root, v, lvl).0, path_slot(a, root, v, lvl).1),
        b.child(b.ent(path_slot(a, root, v, lvl).0, path_slot(a, root, v, lvl).1)) == a.len(),
        !is_huge_bits(b.ent(path_slot(a, root, v, lvl).0, path_slot(a, root, v, lvl).1)),
        forall|t2: int, j2: int| 0 <= t2 < a.len() && 0 <= j2 < 512 && (t2, j2) != path_slot(a, root, v, lvl)
            ==> #[trigger] b.ent(t2, j2) == a.ent(t2, j2),
        forall|j2: int| 0 <= j2 < 512 ==> #[trigger] b.ent(a.len(), j2) == 0,
        forall|t2: int| 0 <= t2 < a.len() ==> #[trigger] b.level(t2) == a.level(t2),
    ensures
        grows_along(old, b, root, v, lo),
        forall|k: int| lvl <= k <= 3 ==> #[trigger] path_slot(b, root, v, k) == path_slot(a, root, v, k),
        path_ok(b, root, v, lvl - 1),
{
    reveal_with_fuel(path_slot, 4);
    reveal_with_fuel(path_ok, 4);
    let s = path_slot(a, root, v, lvl);
    lemma_path_slot(a, root, v, lvl);
    assert forall|k: int| lvl <= k <= 3 implies #[trigger] path_slot(b, root, v, k) == path_slot(a, root, v, k) by {
        if k < 3 {
            lemma_path_slot(a, root, v, 3);
            if k < 2 {
                lemma_path_slot(a, root, v, 2);
            }
        }
    }
    assert(path_ok(b, root, v, lvl)) by {
        if lvl < 3 {
            lemma_path_slot(a, root, v, 3);
            assert(a.is_ptr_slot(path_slot(a, root, v, 3).0, path_slot(a, root, v, 3).1));
            if lvl < 2 {
                lemma_path_slot(a, root, v, 2);
            }
        }
    }
    assert(path_ok(b, root, v, lvl - 1));
    assert forall|t: int, j: int| 0 <= t < old.len() && 0 <= j < 512 && #[trigger] b.ent(t, j) != old.ent(t, j)
        implies !is_present_bits(old.ent(t, j)) && !is_huge_bits(b.ent(t, j)) && on_path(b, root, v, t, j, lo) && b.child(b.ent(t, j)) >= old.len() by {
        if (t, j) == s {
            if a.ent(t, j) != old.ent(t, j) {
                // a changed it to a pointer, but it is empty in a
                assert(is_present_bits(a.ent(t, j)) || !is_present_bits(a.ent(t, j)));
                assert(on_path(a, root, v, t, j, lo));
                assert(a.is_ptr_slot(t, j) || !a.is_ptr_slot(t, j));
            }
            assert(b.child(b.ent(t, j)) == a.len());
        } else {
            assert(b.ent(t, j) == a.ent(t, j));
            assert(on_path(a, root, v, t, j, lo));
            lemma_path_slot(a, root, v, 3);
            if lvl <= 2 { lemma_path_slot(a, root, v, 2); }
            if path_ok(a, root, v, 2) { lemma_path_slot(a, root, v, 2); }
            if path_ok(a, root, v, 1) { lemma_path_slot(a, root, v, 1); }
        }
    }
    assert forall|t: int, j: int| old.len() <= t < b.len() && 0 <= j < 512 && #[trigger] b.ent(t, j) != 0
        implies on_path(b, root, v, t, j, lo) && !is_huge_bits(b.ent(t, j)) && b.child(b.ent(t, j)) >= old.len() by {
        if t < a.len() {
            if (t, j) == s {
            } else {
                assert(b.ent(t, j) == a.ent(t, j));
                assert(on_path(a, root, v, t, j, lo));
                lemma_path_slot(a, root, v, 3);
                if path_ok(a, root, v, 2) { lemma_path_slot(a, root, v, 2); }
                if path_ok(a, root, v, 1) { lemma_path_slot(a, root, v, 1); }
            }
        }
    }
}


/// Whether a creating walk for `v` down to `hint` meets a 1 GiB page.
pub open spec fn blocked_1g(mem: &PtMem, root: int, v: u64, hint: int) -> bool {
    &&& hint <= 1
    &&& is_present_bits(path_ent(mem, root, v, 3))
    &&& is_present_bits(path_ent(mem, root, v, 2))
    &&& is_huge_bits(path_ent(mem, root, v, 2))
}

/// Whether a creating walk for `v` down to `hint` meets a 2 MiB page.
pub open spec fn blocked_2m(mem: &PtMem, root: int, v: u64, hint: int) -> bool {
    &&& hint == 0
    &&& is_present_bits(path_ent(mem, root, v, 3))
    &&& is_present_bits(path_ent(mem, root, v, 2))
    &&& !is_huge_bits(path_ent(mem, root, v, 2))
    &&& is_present_bits(path_ent(mem, root, v, 1))
    &&& is_huge_bits(path_ent(mem, root, v, 1))
}

/// Mutable walk for `vaddr` from the PML4 `root` to the PT entry
/// (`level_hint` 0), the PD entry (1) or the PDPT entry (2); returns the
/// slot (table, index). With `create`, empty upper entries get new tables.
pub fn walk_entry_mut(mem: &mut PtMem, root: usize, vaddr: u64, level_hint: u8, create: bool) -> (r: Result<(usize, usize), PtError>)
    requires
        old(mem).wf(),
        is_root(old(mem), root as int),
        level_hint <= 2,
    ensures
        final(mem).wf(),
        is_root(final(mem), root as int),
        !create ==> *final(mem) == *old(mem),
        !create ==> (r is Ok == walk_mut_spec(old(mem), root as int, vaddr, level_hint as int) is Ok),
        !create ==> (r matches Ok(p) ==> walk_mut_spec(old(mem), root as int, vaddr, level_hint as int)
            == Ok::<(int, int), PtError>((p.0 as int, p.1 as int))),
        !create ==> (r matches Err(x) ==> walk_mut_spec(old(mem), root as int, vaddr, level_hint as int)
            == Err::<(int, int), PtError>(x)),
        r matches Ok(s) ==> s.0 < final(mem).len() && s.1 < 512 && final(mem).level(s.0 as int) == level_hint,
        create ==> grows_along(old(mem), final(mem), root as int, vaddr, level_hint as int + 1),
        links_writable(old(mem), final(mem)),
        final(mem).len() <= old(mem).len() + 3,
        create ==> (r matches Ok(s) ==> path_ok(final(mem), root as int, vaddr, level_hint as int)
            && path_slot(final(mem), root as int, vaddr, level_hint as int) == (s.0 as int, s.1 as int)),
        create ==> (r matches Err(x) ==> x == PtError::OutOfTables
            || (x == PtError::Huge1G && blocked_1g(old(mem), root as int, vaddr, level_hint as int))
            || (x == PtError::Huge2M && blocked_2m(old(mem), root as int, vaddr, level_hint as int))),
        create && blocked_1g(old(mem), root as int, vaddr, level_hint as int) ==> r == Err::<(usize, usize), PtError>(PtError::Huge1G),
        create && blocked_2m(old(mem), root as int, vaddr, level_hint as int) ==> r == Err::<(usize, usize), PtError>(PtError::Huge2M),
        create && old(mem).base + 4096 * (old(mem).len() + 3) <= PHYS_LIMIT
            && !blocked_1g(old(mem), root as int, vaddr, level_hint as int)
            && !blocked_2m(old(mem), root as int, vaddr, level_hint as int) ==> r is Ok,
{
    reveal_with_fuel(path_slot, 4);
    reveal_with_fuel(path_ok, 4);
    let ghost v = vaddr;
    let ghost rt = root as int;
    let ghost m0 = *mem;
    let i4 = pml4_i(vaddr);
    let i3 = pdpt_i(vaddr);
    let i2 = pd_i(vaddr);
    let i1 = pt_i(vaddr);
    proof {
        lemma_path_slot(mem, rt, v, 3);
    }
    // ---- PML4
    let e4 = mem.read(root, i4);
    if !e4.is_present() && !create {
        return Err(PtError::Pml4NotPresent);
    }
    let pdpt = ensure_child(mem, root, i4, 3)?;
    let ghost m1 = *mem;
    proof {
        if !is_present_bits(m0.ent(rt, i4 as int)) {
            lemma_step_grows(&m0, &m0, &m1, rt, v, 3, level_hint as int + 1);
            lemma_step_links(&m0, &m0, &m1, rt, i4 as int);
        } else {
            assert(m1 == m0);
        }
        assert(path_ok(&m1, rt, v, 2));
        lemma_path_slot(&m1, rt, v, 2);
        assert(path_slot(&m1, rt, v, 2) == (pdpt as int, i3 as int));
        assert(0u64 & 1u64 == 0) by { crate::paging::table::lemma_zero_flags(); }
        if !is_present_bits(m0.ent(rt, i4 as int)) {
            assert(m1.ent(pdpt as int, i3 as int) == 0);
        }
    }
    if level_hint == 2 {
        return Ok((pdpt, i3));
    }
    // ---- PDPT
    let e3 = mem.read(pdpt, i3);
    if !e3.is_present() && !create {
        return Err(PtError::PdptNotPresent);
    }
    if e3.is_present() && is_huge(&e3) {
        return Err(PtError::Huge1G);
    }
    let pd = ensure_child(mem, pdpt, i3, 2)?;
    let ghost m2 = *mem;
    proof {
        if !is_present_bits(m1.ent(pdpt as int, i3 as int)) {
            lemma_step_grows(&m0, &m1, &m2, rt, v, 2, level_hint as int + 1);
            lemma_step_links(&m0, &m1, &m2, pdpt as int, i3 as int);
        } else {
            assert(m2 == m1);
        }
        assert(path_slot(&m2, rt, v, 3) == path_slot(&m1, rt, v, 3));
        assert(path_ok(&m2, rt, v, 1));
        lemma_path_slot(&m2, rt, v, 1);
        assert(path_slot(&m2, rt, v, 1) == (pd as int, i2 as int));
        if !is_present_bits(m1.ent(pdpt as int, i3 as int)) {
            assert(m2.ent(pd as int, i2 as int) == 0);
        } else {
            assert(m2 == m1);
        }
    }
    if level_hint == 1 {
        return Ok((pd, i2));
    }
    // ---- PD
    let e2 = mem.read(pd, i2);
    if !e2.is_present() && !create {
        return Err(PtError::PdNotPresent);
    }
    if e2.is_present() && is_huge(&e2) {
        return Err(PtError::Huge2M);
    }
    let pt = ensure_child(mem, pd, i2, 1)?;
    let ghost m3 = *mem;
    proof {
        if !is_present_bits(m2.ent(pd as int, i2 as int)) {
            lemma_step_grows(&m0, &m2, &m3, rt, v, 1, level_hint as int + 1);
            lemma_step_links(&m0, &m2, &m3, pd as int, i2 as int);
        } else {
            assert(m3 == m2);
        }
        assert(path_ok(&m3, rt, v, 0));
        lemma_path_slot(&m3, rt, v, 0);
        assert(path_slot(&m3, rt, v, 0) == (pt as int, i1 as int));
    }
    // ---- PT
    let e1 = mem.read(pt, i1);
    if !e1.is_present() && !create {
        return Err(PtError::PtNotPresent);
    }
    Ok((pt, i1))
}

} // verus!
