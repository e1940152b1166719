//! Marking the user half of an address space copy-on-write: every present,
//! writable 4 KiB page below the PML4 slots of the lower half loses write
//! access and gains the copy-on-write bit.

use vstd::prelude::*;
use crate::paging::entry::{Entry, EntryFlags, ALL_FLAGS, COPY_ON_WRITE, WRITABLE, is_huge, is_huge_bits, is_present_bits};
use crate::paging::polen::Polen;
use crate::paging::frame::{leaf_level, lemma_path_slot_levels};
use crate::paging::table::{is_root, lemma_indices, path_ent, path_slot, pd_index, pdpt_index, pml4_index, translate, PtMem};

verus! {

/// The PDPT that PML4 slot `i` of `root` points to.
pub open spec fn pdpt_of(mem: &PtMem, root: int, i: int) -> int {
    mem.child(mem.ent(root, i))
}

/// The PD that slot `j` of that PDPT points to.
pub open spec fn pd_of(mem: &PtMem, root: int, i: int, j: int) -> int {
    mem.child(mem.ent(pdpt_of(mem, root, i), j))
}

/// The PT that slot `k` of that PD points to.
pub open spec fn pt_of(mem: &PtMem, root: int, i: int, j: int, k: int) -> int {
    mem.child(mem.ent(pd_of(mem, root, i, j), k))
}

/// Whether the slots `i`, `j`, `k` lead from `root` down to a PT: each is
/// present and none maps a huge page.
pub open spec fn pt_ok(mem: &PtMem, root: int, i: int, j: int, k: int) -> bool {
    &&& 0 <= i < 512 && 0 <= j < 512 && 0 <= k < 512
    &&& mem.is_ptr_slot(root, i) && !is_huge_bits(mem.ent(root, i))
    &&& mem.is_ptr_slot(pdpt_of(mem, root, i), j)
    &&& mem.is_ptr_slot(pd_of(mem, root, i, j), k)
}

/// Whether `t` is a PT below the lower half (PML4 slots 0 to 255) of `root`.
pub open spec fn user_pt(mem: &PtMem, root: int, t: int) -> bool {
    exists|i: int, j: int, k: int| i < 256 && #[trigger] pt_ok(mem, root, i, j, k) && pt_of(mem, root, i, j, k) == t
}

/// Whether entry value `e` maps a present, writable page.
pub open spec fn cowable(e: u64) -> bool {
    is_present_bits(e) && e & WRITABLE != 0
}

/// Entry value `e` made read-only and copy-on-write.
pub open spec fn cow_entry(e: u64) -> u64 {
    (e & !ALL_FLAGS) | (((e & ALL_FLAGS) & !WRITABLE) | COPY_ON_WRITE)
}

/// What marking the user half copy-on-write makes of entry `l` of table
/// `t`.
pub open spec fn after_cow(mem: &PtMem, root: int, t: int, l: int) -> u64 {
    if user_pt(mem, root, t) && cowable(mem.ent(t, l)) { cow_entry(mem.ent(t, l)) } else { mem.ent(t, l) }
}

/// Whether `(i2, j2, k2)` comes before `(i, j, k)`.
pub open spec fn before(i2: int, j2: int, k2: int, i: int, j: int, k: int) -> bool {
    i2 < i || (i2 == i && (j2 < j || (j2 == j && k2 < k)))
}

/// The tables of a valid path are tables of the pool at the levels below
/// the root.
pub proof fn lemma_pt_path(mem: &PtMem, root: int, i: int, j: int, k: int)
    requires
        mem.wf(),
        is_root(mem, root),
        pt_ok(mem, root, i, j, k),
    ensures
        0 <= pdpt_of(mem, root, i) < mem.len() && mem.level(pdpt_of(mem, root, i)) == 2,
        0 <= pd_of(mem, root, i, j) < mem.len() && mem.level(pd_of(mem, root, i, j)) == 1,
        0 <= pt_of(mem, root, i, j, k) < mem.len() && mem.level(pt_of(mem, root, i, j, k)) == 0,
{
}

/// Different paths lead to different PTs.
pub proof fn lemma_pt_distinct(mem: &PtMem, root: int, i: int, j: int, k: int, i2: int, j2: int, k2: int)
    requires
        mem.wf(),
        is_root(mem, root),
        pt_ok(mem, root, i, j, k),
        pt_ok(mem, root, i2, j2, k2),
        (i, j, k) != (i2, j2, k2),
    ensures
        pt_of(mem, root, i, j, k) != pt_of(mem, root, i2, j2, k2),
{
    lemma_pt_path(mem, root, i, j, k);
    lemma_pt_path(mem, root, i2, j2, k2);
    let p1 = pdpt_of(mem, root, i);
    let p2 = pdpt_of(mem, root, i2);
    let d1 = pd_of(mem, root, i, j);
    let d2 = pd_of(mem, root, i2, j2);
    assert(mem.is_ptr_slot(root, i) && mem.is_ptr_slot(root, i2));
    assert(mem.is_ptr_slot(p1, j) && mem.is_ptr_slot(p2, j2));
    assert(mem.is_ptr_slot(d1, k) && mem.is_ptr_slot(d2, k2));
    if i != i2 {
        assert(p1 != p2);
    }
    if (p1, j) != (p2, j2) {
        assert(d1 != d2);
    }
}

/// Marks every present, writable entry of PT `t` read-only and
/// copy-on-write.
fn cow_table(mem: &mut PtMem, t: usize)
    requires
        old(mem).wf(),
        t < old(mem).len(),
        old(mem).level(t as int) == 0,
    ensures
        final(mem).wf(),
        final(mem).base == old(mem).base,
        final(mem).len() == old(mem).len(),
        final(mem).levels == old(mem).levels,
        forall|t2: int, l: int| 0 <= t2 < old(mem).len() && 0 <= l < 512 ==> #[trigger] final(mem).ent(t2, l)
            == if t2 == t && cowable(old(mem).ent(t2, l)) { cow_entry(old(mem).ent(t2, l)) } else { old(mem).ent(t2, l) },
{
    let ghost m0 = *mem;
    let mut l: usize = 0;
    while l < 512
        invariant
            mem.wf(),
            t < mem.len(),
            mem.base == m0.base,
            mem.len() == m0.len(),
            mem.levels == m0.levels,
            m0.level(t as int) == 0,
            l <= 512,
            forall|t2: int, l2: int| 0 <= t2 < m0.len() && 0 <= l2 < 512 ==> #[trigger] mem.ent(t2, l2)
                == if t2 == t && l2 < l && cowable(m0.ent(t2, l2)) { cow_entry(m0.ent(t2, l2)) } else { m0.ent(t2, l2) },
        decreases 512 - l,
    {
        let mut e = mem.read(t, l);
        if e.is_present() && e.is_writable() {
            let mut flags = e.flags();
            flags.remove(EntryFlags(WRITABLE));
            flags.insert(EntryFlags(COPY_ON_WRITE));
            e.set_flags(flags);
            mem.write(t, l, e);
        }
        l = l + 1;
    }
}

impl Polen {
    /// Marks every present, writable 4 KiB page of the lower half (PML4
    /// slots 0 to 255) read-only and copy-on-write; PML4 entries marked
    /// huge, and huge pages below, are passed over.
    pub fn mark_user_cow(&mut self)
        requires
            old(self).wf(),
        ensures
            Polen::same_space(old(self), final(self)),
            final(self).exco.mem.len() == old(self).exco.mem.len(),
            final(self).exco.mem.levels == old(self).exco.mem.levels,
            forall|t: int, l: int| 0 <= t < old(self).exco.mem.len() && 0 <= l < 512 ==> #[trigger] final(self).exco.mem.ent(t, l)
                == after_cow(&old(self).exco.mem, old(self).exco.root as int, t, l),
            forall|a: u64| #[trigger] final(self).view_at(a) == cow_view(&old(self).exco.mem, old(self).exco.root as int, a),
    {
        let root = self.exco.root;
        let ghost m0 = self.exco.mem;
        let ghost rt = root as int;
        let ghost mut done: Set<int> = Set::empty();
        let mut i: usize = 0;
        while i < 256
            invariant
                Polen::same_space(old(self), self),
                m0 == old(self).exco.mem,
                m0.wf(),
                is_root(&m0, rt),
                rt == root,
                root == old(self).exco.root,
                self.exco.mem.len() == m0.len(),
                self.exco.mem.levels == m0.levels,
                i <= 256,
                forall|t: int, l: int| 0 <= t < m0.len() && 0 <= l < 512 && m0.level(t) != 0 ==> #[trigger] self.exco.mem.ent(t, l) == m0.ent(t, l),
                forall|t: int| #[trigger] done.contains(t) ==> exists|i2: int, j2: int, k2: int|
                    before(i2, j2, k2, i as int, 0, 0) && #[trigger] pt_ok(&m0, rt, i2, j2, k2) && pt_of(&m0, rt, i2, j2, k2) == t,
                forall|i2: int, j2: int, k2: int| i2 < i && #[trigger] pt_ok(&m0, rt, i2, j2, k2) ==> done.contains(pt_of(&m0, rt, i2, j2, k2)),
                forall|t: int, l: int| 0 <= t < m0.len() && 0 <= l < 512 ==> #[trigger] self.exco.mem.ent(t, l)
                    == if done.contains(t) && cowable(m0.ent(t, l)) { cow_entry(m0.ent(t, l)) } else { m0.ent(t, l) },
            decreases 256 - i,
        {
            let e3 = self.exco.mem.read(root, i);
            assert(e3.0 == m0.ent(rt, i as int));
            if e3.is_present() && !is_huge(&e3) {
                assert(self.exco.mem.is_ptr_slot(rt, i as int));
                assert(m0.is_ptr_slot(rt, i as int));
                let pdpt = self.exco.mem.tab_index(&e3, Ghost(2));
                let mut j: usize = 0;
                while j < 512
                    invariant
                        Polen::same_space(old(self), self),
                        m0 == old(self).exco.mem,
                        m0.wf(),
                        is_root(&m0, rt),
                m0.wf(),
                is_root(&m0, rt),
                        rt == root,
                        root == old(self).exco.root,
                        self.exco.mem.len() == m0.len(),
                        self.exco.mem.levels == m0.levels,
                        i < 256,
                        j <= 512,
                        m0.is_ptr_slot(rt, i as int) && !is_huge_bits(m0.ent(rt, i as int)),
                        pdpt as int == pdpt_of(&m0, rt, i as int),
                        (pdpt as int) < m0.len() && m0.level(pdpt as int) == 2,
                        forall|t: int, l: int| 0 <= t < m0.len() && 0 <= l < 512 && m0.level(t) != 0 ==> #[trigger] self.exco.mem.ent(t, l) == m0.ent(t, l),
                        forall|t: int| #[trigger] done.contains(t) ==> exists|i2: int, j2: int, k2: int|
                            before(i2, j2, k2, i as int, j as int, 0) && #[trigger] pt_ok(&m0, rt, i2, j2, k2) && pt_of(&m0, rt, i2, j2, k2) == t,
                        forall|i2: int, j2: int, k2: int| before(i2, j2, k2, i as int, j as int, 0) && #[trigger] pt_ok(&m0, rt, i2, j2, k2)
                            ==> done.contains(pt_of(&m0, rt, i2, j2, k2)),
                        forall|t: int, l: int| 0 <= t < m0.len() && 0 <= l < 512 ==> #[trigger] self.exco.mem.ent(t, l)
                            == if done.contains(t) && cowable(m0.ent(t, l)) { cow_entry(m0.ent(t, l)) } else { m0.ent(t, l) },
                    decreases 512 - j,
                {
                    let e2 = self.exco.mem.read(pdpt, j);
                    assert(e2.0 == m0.ent(pdpt as int, j as int));
                    if e2.is_present() && !is_huge(&e2) {
                        assert(self.exco.mem.is_ptr_slot(pdpt as int, j as int));
                        assert(m0.is_ptr_slot(pdpt as int, j as int));
                        let pd = self.exco.mem.tab_index(&e2, Ghost(1));
                        let mut k: usize = 0;
                        while k < 512
                            invariant
                                Polen::same_space(old(self), self),
                                m0 == old(self).exco.mem,
                                m0.wf(),
                                is_root(&m0, rt),
                        m0.wf(),
                        is_root(&m0, rt),
                m0.wf(),
                is_root(&m0, rt),
                                rt == root,
                                root == old(self).exco.root,
                                self.exco.mem.len() == m0.len(),
                                self.exco.mem.levels == m0.levels,
                                i < 256,
                                j < 512,
                                k <= 512,
                                m0.is_ptr_slot(rt, i as int) && !is_huge_bits(m0.ent(rt, i as int)),
                                pdpt as int == pdpt_of(&m0, rt, i as int),
                                m0.is_ptr_slot(pdpt as int, j as int),
                                pd as int == pd_of(&m0, rt, i as int, j as int),
                                (pdpt as int) < m0.len() && m0.level(pdpt as int) == 2,
                                (pd as int) < m0.len() && m0.level(pd as int) == 1,
                                forall|t: int, l: int| 0 <= t < m0.len() && 0 <= l < 512 && m0.level(t) != 0 ==> #[trigger] self.exco.mem.ent(t, l) == m0.ent(t, l),
                                forall|t: int| #[trigger] done.contains(t) ==> exists|i2: int, j2: int, k2: int|
                                    before(i2, j2, k2, i as int, j as int, k as int) && #[trigger] pt_ok(&m0, rt, i2, j2, k2) && pt_of(&m0, rt, i2, j2, k2) == t,
                                forall|i2: int, j2: int, k2: int| before(i2, j2, k2, i as int, j as int, k as int) && #[trigger] pt_ok(&m0, rt, i2, j2, k2)
                                    ==> done.contains(pt_of(&m0, rt, i2, j2, k2)),
                                forall|t: int, l: int| 0 <= t < m0.len() && 0 <= l < 512 ==> #[trigger] self.exco.mem.ent(t, l)
                                    == if done.contains(t) && cowable(m0.ent(t, l)) { cow_entry(m0.ent(t, l)) } else { m0.ent(t, l) },
                            decreases 512 - k,
                        {
                            let e1 = self.exco.mem.read(pd, k);
                            assert(e1.0 == m0.ent(pd as int, k as int));
                            if e1.is_present() && !is_huge(&e1) {
                                assert(self.exco.mem.is_ptr_slot(pd as int, k as int));
                                assert(m0.is_ptr_slot(pd as int, k as int));
                                let pt = self.exco.mem.tab_index(&e1, Ghost(0));
                                proof {
                                    assert(pt_ok(&m0, rt, i as int, j as int, k as int));
                                    lemma_pt_path(&m0, rt, i as int, j as int, k as int);
                                    if done.contains(pt as int) {
                                        let (i2, j2, k2) = choose|i2: int, j2: int, k2: int|
                                            before(i2, j2, k2, i as int, j as int, k as int) && #[trigger] pt_ok(&m0, rt, i2, j2, k2)
                                                && pt_of(&m0, rt, i2, j2, k2) == pt as int;
                                        lemma_pt_distinct(&m0, rt, i as int, j as int, k as int, i2, j2, k2);
                                    }
                                }
                                let ghost mb = self.exco.mem;
                                cow_table(&mut self.exco.mem, pt);
                                proof {
                                    done = done.insert(pt as int);
                                    assert forall|t: int, l: int| 0 <= t < m0.len() && 0 <= l < 512 implies #[trigger] self.exco.mem.ent(t, l)
                                        == if done.contains(t) && cowable(m0.ent(t, l)) { cow_entry(m0.ent(t, l)) } else { m0.ent(t, l) } by {
                                        assert(mb.ent(t, l) == self.exco.mem.ent(t, l) || t == pt);
                                    }
                                }
                            }
                            k = k + 1;
                        }
                    }
                    j = j + 1;
                }
            }
            i = i + 1;
        }
        proof {
            assert forall|t: int, l: int| 0 <= t < m0.len() && 0 <= l < 512 implies #[trigger] self.exco.mem.ent(t, l)
                == after_cow(&m0, rt, t, l) by {
                if user_pt(&m0, rt, t) {
                    let (i2, j2, k2) = choose|i2: int, j2: int, k2: int| i2 < 256 && #[trigger] pt_ok(&m0, rt, i2, j2, k2)
                        && pt_of(&m0, rt, i2, j2, k2) == t;
                    assert(done.contains(t));
                }
                if done.contains(t) {
                    let (i2, j2, k2) = choose|i2: int, j2: int, k2: int|
                        before(i2, j2, k2, 256, 0, 0) && #[trigger] pt_ok(&m0, rt, i2, j2, k2) && pt_of(&m0, rt, i2, j2, k2) == t;
                    assert(user_pt(&m0, rt, t));
                }
            }
            assert forall|a: u64| #[trigger] self.view_at(a) == cow_view(&m0, rt, a) by {
                lemma_cow_translate(&m0, &self.exco.mem, rt, a);
            }
        }
    }
}

/// What marking the user half copy-on-write makes of the translation of
/// `a`: an address of the lower half mapped by a present, writable 4 KiB
/// page keeps its physical address and loses write access for the
/// copy-on-write bit; every other address is mapped as before.
pub open spec fn cow_view(mem: &PtMem, root: int, a: u64) -> Option<(int, u64)> {
    let tr = translate(mem, root, a);
    if pml4_index(a) < 256 && leaf_level(mem, root, a) == 0 && tr is Some && path_ent(mem, root, a, 0) & WRITABLE != 0 {
        Some((tr->Some_0.0, (tr->Some_0.1 & !WRITABLE) | COPY_ON_WRITE))
    } else {
        tr
    }
}

/// The bits that marking an entry copy-on-write keeps and sets.
pub proof fn lemma_cow_bits(e: u64)
    ensures
        cow_entry(e) & 0x000f_ffff_ffff_f000u64 == e & 0x000f_ffff_ffff_f000u64,
        cow_entry(e) & 0x8070_0000_0000_01ffu64 == ((e & 0x8070_0000_0000_01ffu64) & !WRITABLE) | COPY_ON_WRITE,
        cow_entry(e) & 1u64 == e & 1u64,
{
    assert({
        let c = (e & !0x8070_0000_0000_01ffu64) | (((e & 0x8070_0000_0000_01ffu64) & !2u64) | 0x10_0000_0000_0000u64);
        &&& c & 0x000f_ffff_ffff_f000u64 == e & 0x000f_ffff_ffff_f000u64
        &&& c & 0x8070_0000_0000_01ffu64 == ((e & 0x8070_0000_0000_01ffu64) & !2u64) | 0x10_0000_0000_0000u64
        &&& c & 1u64 == e & 1u64
    }) by (bit_vector);
}

/// A PT below the lower half is a PT of the pool.
pub proof fn lemma_user_pt_level(mem: &PtMem, root: int, t: int)
    requires
        mem.wf(),
        is_root(mem, root),
        user_pt(mem, root, t),
    ensures
        0 <= t < mem.len(),
        mem.level(t) == 0,
{
    let (i, j, k) = choose|i: int, j: int, k: int| i < 256 && #[trigger] pt_ok(mem, root, i, j, k) && pt_of(mem, root, i, j, k) == t;
    lemma_pt_path(mem, root, i, j, k);
}

/// With the entries of `new` as marking the user half of `old`
/// copy-on-write leaves them, each address translates as [`cow_view`] says.
pub proof fn lemma_cow_translate(old: &PtMem, new: &PtMem, root: int, a: u64)
    requires
        old.wf(),
        is_root(old, root),
        new.base == old.base,
        new.len() == old.len(),
        new.levels == old.levels,
        forall|t: int, l: int| 0 <= t < old.len() && 0 <= l < 512 ==> #[trigger] new.ent(t, l) == after_cow(old, root, t, l),
    ensures
        translate(new, root, a) == cow_view(old, root, a),
{
    reveal_with_fuel(path_slot, 4);
    lemma_indices(a);
    lemma_path_slot_levels(old, root, a);
    assert forall|t: int, l: int| 0 <= t < old.len() && 0 <= l < 512 && old.level(t) != 0
        implies #[trigger] new.ent(t, l) == old.ent(t, l) by {
        if user_pt(old, root, t) {
            lemma_user_pt_level(old, root, t);
        }
    }
    let i = pml4_index(a);
    let j = pdpt_index(a);
    let k = pd_index(a);
    let p3 = path_slot(old, root, a, 3);
    let e3 = old.ent(p3.0, p3.1);
    assert(p3 == (root, i));
    assert(new.ent(p3.0, p3.1) == e3);
    assert(path_slot(new, root, a, 3) == p3);
    if is_present_bits(e3) && !is_huge_bits(e3) {
        let p2 = path_slot(old, root, a, 2);
        let e2 = old.ent(p2.0, p2.1);
        assert(p2 == (pdpt_of(old, root, i), j));
        assert(new.ent(p2.0, p2.1) == e2);
        assert(path_slot(new, root, a, 2) == p2);
        if is_present_bits(e2) && !is_huge_bits(e2) {
            let p1 = path_slot(old, root, a, 1);
            let e1 = old.ent(p1.0, p1.1);
            assert(p1 == (pd_of(old, root, i, j), k));
            assert(new.ent(p1.0, p1.1) == e1);
            assert(path_slot(new, root, a, 1) == p1);
            if is_present_bits(e1) && !is_huge_bits(e1) {
                let p0 = path_slot(old, root, a, 0);
                assert(path_slot(new, root, a, 0) == p0);
                assert(pt_ok(old, root, i, j, k));
                let t = pt_of(old, root, i, j, k);
                assert(p0.0 == t);
                let e0 = old.ent(p0.0, p0.1);
                lemma_cow_bits(e0);
                if user_pt(old, root, t) {
                    let (i2, j2, k2) = choose|i2: int, j2: int, k2: int| i2 < 256 && #[trigger] pt_ok(old, root, i2, j2, k2)
                        && pt_of(old, root, i2, j2, k2) == t;
                    if (i, j, k) != (i2, j2, k2) {
                        lemma_pt_distinct(old, root, i, j, k, i2, j2, k2);
                    }
                    assert(i < 256);
                } else if i < 256 {
                    assert(user_pt(old, root, t));
                }
            }
        }
    }
}

} // verus!

