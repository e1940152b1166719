//! What an edit of one slot does to translations: an address whose walk
//! does not read the slot translates as before, and an address whose walk
//! reads a slot that maps a page is mapped.

use vstd::prelude::*;
use crate::paging::entry::{address_bits, is_huge_bits, is_present_bits, ADDRESS_MASK};
use crate::paging::exco::{offset_mask, pml4_huge, split_slot, unmap_slot};
use crate::paging::table::{is_root, lemma_indices, lemma_path_slot, path_ent, path_ok, path_slot, pd_index, pdpt_index, pml4_index, pt_index, translate, walk_mut_spec, PtMem};

verus! {

/// Whether the walk for `v` reads slot `s`: the PML4 slot, and each slot
/// below that the entry above it leads to.
pub open spec fn visits(mem: &PtMem, root: int, v: u64, s: (int, int)) -> bool {
    let e3 = path_ent(mem, root, v, 3);
    let e2 = path_ent(mem, root, v, 2);
    let e1 = path_ent(mem, root, v, 1);
    let down3 = is_present_bits(e3) && !is_huge_bits(e3);
    let down2 = down3 && is_present_bits(e2) && !is_huge_bits(e2);
    let down1 = down2 && is_present_bits(e1) && !is_huge_bits(e1);
    ||| s == path_slot(mem, root, v, 3)
    ||| down3 && s == path_slot(mem, root, v, 2)
    ||| down2 && s == path_slot(mem, root, v, 1)
    ||| down1 && s == path_slot(mem, root, v, 0)
}

/// Whether `new` keeps every slot of the tables of `old` but `s`, and
/// their levels.
pub open spec fn keeps_but(old: &PtMem, new: &PtMem, s: (int, int)) -> bool {
    &&& new.base == old.base
    &&& old.len() <= new.len()
    &&& forall|t: int| 0 <= t < old.len() ==> #[trigger] new.level(t) == old.level(t)
    &&& forall|t: int, j: int| 0 <= t < old.len() && 0 <= j < 512 && (t, j) != s ==> #[trigger] new.ent(t, j) == old.ent(t, j)
}

/// An address whose walk does not read slot `s` translates as before when
/// only `s` changes.
pub proof fn lemma_frame(old: &PtMem, new: &PtMem, root: int, v: u64, s: (int, int))
    requires
        old.wf(),
        is_root(old, root),
        keeps_but(old, new, s),
        !visits(old, root, v, s),
    ensures
        translate(new, root, v) == translate(old, root, v),
        leaf_level(new, root, v) == leaf_level(old, root, v),
        !pml4_huge(old, root, v) ==> !pml4_huge(new, root, v),
{
    reveal_with_fuel(path_slot, 4);
    lemma_indices(v);
    lemma_path_slot_levels(old, root, v);
    assert forall|x: (int, int)| #[trigger] visits(old, root, v, x) implies new.ent(x.0, x.1) == old.ent(x.0, x.1) by {
        assert(0 <= x.0 < old.len() && 0 <= x.1 < 512);
    }
    lemma_frame_walk(old, new, root, v);
}

/// An address whose walk reads a slot below the PML4 that maps a page (a
/// present PT entry, or a present huge entry) is mapped.
pub proof fn lemma_visit_leaf(mem: &PtMem, root: int, v: u64, s: (int, int))
    requires
        mem.wf(),
        is_root(mem, root),
        visits(mem, root, v, s),
        0 <= s.0 < mem.len(),
        mem.level(s.0) <= 2,
        is_present_bits(mem.ent(s.0, s.1)),
        mem.level(s.0) > 0 ==> is_huge_bits(mem.ent(s.0, s.1)),
    ensures
        translate(mem, root, v) is Some,
{
    reveal_with_fuel(path_slot, 4);
    reveal_with_fuel(path_ok, 4);
    lemma_indices(v);
    let p3 = path_slot(mem, root, v, 3);
    let e3 = path_ent(mem, root, v, 3);
    assert(s != p3);
    assert(is_present_bits(e3) && !is_huge_bits(e3));
    assert(mem.is_ptr_slot(p3.0, p3.1));
    let p2 = path_slot(mem, root, v, 2);
    assert(mem.level(p2.0) == 2);
    let e2 = path_ent(mem, root, v, 2);
    if s == p2 {
    } else {
        assert(is_present_bits(e2) && !is_huge_bits(e2));
        assert(mem.is_ptr_slot(p2.0, p2.1));
        let p1 = path_slot(mem, root, v, 1);
        assert(mem.level(p1.0) == 1);
        let e1 = path_ent(mem, root, v, 1);
        if s == p1 {
        } else {
            assert(is_present_bits(e1) && !is_huge_bits(e1));
            assert(mem.is_ptr_slot(p1.0, p1.1));
            let p0 = path_slot(mem, root, v, 0);
            assert(mem.level(p0.0) == 0);
            assert(s == p0);
        }
    }
}

/// Clearing or splitting a slot that maps a page maps no address that was
/// unmapped.
pub proof fn lemma_no_new_mapping(old: &PtMem, new: &PtMem, root: int, s: (int, int))
    requires
        old.wf(),
        is_root(old, root),
        keeps_but(old, new, s),
        0 <= s.0 < old.len(),
        0 <= s.1 < 512,
        old.level(s.0) <= 2,
        is_present_bits(old.ent(s.0, s.1)),
        old.level(s.0) > 0 ==> is_huge_bits(old.ent(s.0, s.1)),
    ensures
        forall|v: u64| #[trigger] translate(old, root, v) is None ==> translate(new, root, v) is None,
{
    assert forall|v: u64| #[trigger] translate(old, root, v) is None implies translate(new, root, v) is None by {
        if visits(old, root, v, s) {
            lemma_visit_leaf(old, root, v, s);
        } else {
            lemma_frame(old, new, root, v, s);
        }
    }
}

/// The slot that unmapping `v` clears maps a page and lies below the PML4.
pub proof fn lemma_unmap_slot_leaf(mem: &PtMem, root: int, v: u64)
    requires
        mem.wf(),
        is_root(mem, root),
        unmap_slot(mem, root, v) is Some,
    ensures
        ({
            let s = unmap_slot(mem, root, v)->Some_0;
            &&& 0 <= s.0 < mem.len()
            &&& 0 <= s.1 < 512
            &&& mem.level(s.0) <= 2
            &&& is_present_bits(mem.ent(s.0, s.1))
            &&& mem.level(s.0) > 0 ==> is_huge_bits(mem.ent(s.0, s.1))
        }),
{
    reveal_with_fuel(path_slot, 4);
    reveal_with_fuel(path_ok, 4);
    lemma_indices(v);
    lemma_path_slot_levels(mem, root, v);
}

/// The slots of the walk for `v`, as far as the entries above lead, lie in
/// tables of their level.
pub proof fn lemma_path_slot_levels(mem: &PtMem, root: int, v: u64)
    requires
        mem.wf(),
        is_root(mem, root),
    ensures
        ({
            let e3 = path_ent(mem, root, v, 3);
            let e2 = path_ent(mem, root, v, 2);
            let e1 = path_ent(mem, root, v, 1);
            &&& 0 <= path_slot(mem, root, v, 3).1 < 512
            &&& is_present_bits(e3) ==> {
                let p2 = path_slot(mem, root, v, 2);
                &&& 0 <= p2.0 < mem.len() && mem.level(p2.0) == 2 && 0 <= p2.1 < 512
                &&& (is_present_bits(e2) && !is_huge_bits(e2)) ==> {
                    let p1 = path_slot(mem, root, v, 1);
                    &&& 0 <= p1.0 < mem.len() && mem.level(p1.0) == 1 && 0 <= p1.1 < 512
                    &&& (is_present_bits(e1) && !is_huge_bits(e1)) ==> {
                        let p0 = path_slot(mem, root, v, 0);
                        0 <= p0.0 < mem.len() && mem.level(p0.0) == 0 && 0 <= p0.1 < 512
                    }
                }
            }
        }),
{
    reveal_with_fuel(path_slot, 4);
    reveal_with_fuel(path_ok, 4);
    lemma_indices(v);
    let p3 = path_slot(mem, root, v, 3);
    let e3 = path_ent(mem, root, v, 3);
    if is_present_bits(e3) {
        assert(mem.is_ptr_slot(p3.0, p3.1));
        let p2 = path_slot(mem, root, v, 2);
        let e2 = path_ent(mem, root, v, 2);
        if is_present_bits(e2) && !is_huge_bits(e2) {
            assert(mem.is_ptr_slot(p2.0, p2.1));
            let p1 = path_slot(mem, root, v, 1);
            let e1 = path_ent(mem, root, v, 1);
            if is_present_bits(e1) && !is_huge_bits(e1) {
                assert(mem.is_ptr_slot(p1.0, p1.1));
            }
        }
    }
}

/// A split that succeeds maps no address that was unmapped.
pub proof fn lemma_split_no_new_mapping(old: &PtMem, new: &PtMem, root: int, v: u64, lvl: int)
    requires
        old.wf(),
        is_root(old, root),
        1 <= lvl <= 2,
        walk_mut_spec(old, root, v, lvl) is Ok,
        ({
            let s = walk_mut_spec(old, root, v, lvl)->Ok_0;
            is_present_bits(old.ent(s.0, s.1)) && is_huge_bits(old.ent(s.0, s.1)) && split_slot(old, new, s, lvl)
        }),
    ensures
        forall|x: u64| #[trigger] translate(old, root, x) is None ==> translate(new, root, x) is None,
{
    reveal_with_fuel(path_slot, 4);
    reveal_with_fuel(path_ok, 4);
    lemma_indices(v);
    lemma_path_slot_levels(old, root, v);
    let s = walk_mut_spec(old, root, v, lvl)->Ok_0;
    lemma_no_new_mapping(old, new, root, s);
}


/// Addresses of one 4 KiB page are all mapped or all unmapped.
pub proof fn lemma_same_page(mem: &PtMem, root: int, v: u64, a: u64)
    requires
        v & 0xfffu64 == 0,
        v <= a < v + 4096,
    ensures
        (translate(mem, root, a) is None) == (translate(mem, root, v) is None),
{
    reveal_with_fuel(path_slot, 4);
    assert((a >> 39u64) & 0x1ffu64 == (v >> 39u64) & 0x1ffu64 && (a >> 30u64) & 0x1ffu64 == (v >> 30u64) & 0x1ffu64
        && (a >> 21u64) & 0x1ffu64 == (v >> 21u64) & 0x1ffu64 && (a >> 12u64) & 0x1ffu64 == (v >> 12u64) & 0x1ffu64) by (bit_vector)
        requires v & 0xfffu64 == 0, v <= a, a < v + 4096;
    assert(path_slot(mem, root, a, 3) == path_slot(mem, root, v, 3));
    assert(path_slot(mem, root, a, 2) == path_slot(mem, root, v, 2));
    assert(path_slot(mem, root, a, 1) == path_slot(mem, root, v, 1));
    assert(path_slot(mem, root, a, 0) == path_slot(mem, root, v, 0));
}

/// Unmapping an address maps no address that was unmapped.
pub proof fn lemma_unmap_no_new_mapping(old: &PtMem, new: &PtMem, root: int, v: u64)
    requires
        old.wf(),
        is_root(old, root),
        unmap_slot(old, root, v) is Some,
        crate::paging::exco::set_slot(old, new, unmap_slot(old, root, v)->Some_0, 0),
    ensures
        forall|x: u64| #[trigger] translate(old, root, x) is None ==> translate(new, root, x) is None,
{
    lemma_unmap_slot_leaf(old, root, v);
    let s = unmap_slot(old, root, v)->Some_0;
    lemma_no_new_mapping(old, new, root, s);
}


/// Whether `a` and `v` have the same table indices from level 3 down to
/// level `k`: they lie in one region of the size that an entry at level `k`
/// maps.
pub open spec fn same_region(a: u64, v: u64, k: int) -> bool {
    &&& pml4_index(a) == pml4_index(v)
    &&& k <= 2 ==> pdpt_index(a) == pdpt_index(v)
    &&& k <= 1 ==> pd_index(a) == pd_index(v)
    &&& k <= 0 ==> pt_index(a) == pt_index(v)
}

/// Whether the walk for `v` goes on down to level `k` (a present PML4
/// entry always leads to a table).
pub open spec fn reaches(mem: &PtMem, root: int, v: u64, k: int) -> bool {
    let e3 = path_ent(mem, root, v, 3);
    let e2 = path_ent(mem, root, v, 2);
    let e1 = path_ent(mem, root, v, 1);
    &&& k <= 2 ==> is_present_bits(e3)
    &&& k <= 1 ==> is_present_bits(e2) && !is_huge_bits(e2)
    &&& k <= 0 ==> is_present_bits(e1) && !is_huge_bits(e1)
}

/// Two walks that reach the same slot at level `k` come from one region.
pub proof fn lemma_region(mem: &PtMem, root: int, a: u64, v: u64, k: int)
    requires
        mem.wf(),
        is_root(mem, root),
        0 <= k <= 3,
        reaches(mem, root, a, k),
        reaches(mem, root, v, k),
        path_slot(mem, root, a, k) == path_slot(mem, root, v, k),
    ensures
        same_region(a, v, k),
    decreases 3 - k,
{
    reveal_with_fuel(path_slot, 4);
    reveal_with_fuel(path_ok, 4);
    lemma_indices(a);
    lemma_indices(v);
    if k < 3 {
        let pa = path_slot(mem, root, a, k + 1);
        let pv = path_slot(mem, root, v, k + 1);
        lemma_path_slot_levels(mem, root, a);
        lemma_path_slot_levels(mem, root, v);
        assert(mem.is_ptr_slot(pa.0, pa.1));
        assert(mem.is_ptr_slot(pv.0, pv.1));
        assert(pa == pv);
        lemma_region(mem, root, a, v, k + 1);
    }
}

/// A mapped address reads only present slots.
proof fn lemma_mapped_visits_present(mem: &PtMem, root: int, a: u64, s: (int, int))
    requires
        translate(mem, root, a) is Some,
        visits(mem, root, a, s),
        0 <= s.0 < mem.len(),
    ensures
        is_present_bits(mem.ent(s.0, s.1)),
{
}

/// The level of the slot that unmapping `v` clears, and the walk that
/// reaches it.
pub open spec fn unmap_level(mem: &PtMem, root: int, v: u64) -> int {
    match walk_mut_spec(mem, root, v, 0) {
        Ok(_) => 0,
        Err(_) => match walk_mut_spec(mem, root, v, 1) {
            Ok(s) if is_present_bits(mem.ent(s.0, s.1)) && is_huge_bits(mem.ent(s.0, s.1)) => 1,
            _ => 2,
        },
    }
}

/// Unmapping `v` leaves every address outside the page that held it as it
/// was.
pub proof fn lemma_unmap_frame(old: &PtMem, new: &PtMem, root: int, v: u64, a: u64)
    requires
        old.wf(),
        is_root(old, root),
        unmap_slot(old, root, v) is Some,
        crate::paging::exco::set_slot(old, new, unmap_slot(old, root, v)->Some_0, 0),
        !same_region(a, v, unmap_level(old, root, v)),
    ensures
        translate(new, root, a) == translate(old, root, a),
        leaf_level(new, root, a) == leaf_level(old, root, a),
{
    reveal_with_fuel(path_slot, 4);
    reveal_with_fuel(path_ok, 4);
    lemma_indices(a);
    lemma_indices(v);
    lemma_unmap_slot_leaf(old, root, v);
    lemma_path_slot_levels(old, root, v);
    lemma_path_slot_levels(old, root, a);
    let s = unmap_slot(old, root, v)->Some_0;
    let k = unmap_level(old, root, v);
    assert(s == path_slot(old, root, v, k));
    assert(reaches(old, root, v, k));
    if visits(old, root, a, s) {
        assert(old.level(s.0) == k);
        assert(reaches(old, root, a, k) && path_slot(old, root, a, k) == s);
        lemma_region(old, root, a, v, k);
    }
    lemma_frame(old, new, root, a, s);
}

/// A split of the huge page at `v` on level `lvl` leaves every address
/// outside that page as it was.
pub proof fn lemma_split_frame(old: &PtMem, new: &PtMem, root: int, v: u64, lvl: int, a: u64)
    requires
        old.wf(),
        is_root(old, root),
        1 <= lvl <= 2,
        walk_mut_spec(old, root, v, lvl) is Ok,
        ({
            let s = walk_mut_spec(old, root, v, lvl)->Ok_0;
            is_present_bits(old.ent(s.0, s.1)) && is_huge_bits(old.ent(s.0, s.1)) && split_slot(old, new, s, lvl)
        }),
        !same_region(a, v, lvl),
    ensures
        translate(new, root, a) == translate(old, root, a),
{
    reveal_with_fuel(path_slot, 4);
    reveal_with_fuel(path_ok, 4);
    lemma_indices(a);
    lemma_indices(v);
    lemma_path_slot_levels(old, root, v);
    lemma_path_slot_levels(old, root, a);
    let s = walk_mut_spec(old, root, v, lvl)->Ok_0;
    assert(s == path_slot(old, root, v, lvl));
    assert(reaches(old, root, v, lvl));
    if visits(old, root, a, s) {
        assert(old.level(s.0) == lvl);
        assert(reaches(old, root, a, lvl) && path_slot(old, root, a, lvl) == s);
        lemma_region(old, root, a, v, lvl);
    }
    lemma_frame(old, new, root, a, s);
}



/// The level of the slot at which the walk for `a` ends: 0 for a PT
/// entry, 1 for a PD entry, 2 for a PDPT entry (or above).
pub open spec fn leaf_level(mem: &PtMem, root: int, a: u64) -> int {
    let e3 = path_ent(mem, root, a, 3);
    let e2 = path_ent(mem, root, a, 2);
    let e1 = path_ent(mem, root, a, 1);
    if is_present_bits(e3) && !is_huge_bits(e3) && is_present_bits(e2) && !is_huge_bits(e2)
        && is_present_bits(e1) && !is_huge_bits(e1) {
        0
    } else if is_present_bits(e3) && !is_huge_bits(e3) && is_present_bits(e2) && !is_huge_bits(e2) {
        1
    } else {
        2
    }
}

/// Whether `new` holds, at each slot that the walk for `a` reads in `old`,
/// the entry that `old` holds there, with the same base and table levels.
pub open spec fn walk_kept(old: &PtMem, new: &PtMem, root: int, a: u64) -> bool {
    &&& new.base == old.base
    &&& old.len() <= new.len()
    &&& forall|t: int| 0 <= t < old.len() ==> #[trigger] new.level(t) == old.level(t)
    &&& forall|s: (int, int)| #[trigger] visits(old, root, a, s) ==> new.ent(s.0, s.1) == old.ent(s.0, s.1)
}

/// An address whose walk reads the same entries translates as before.
pub proof fn lemma_frame_walk(old: &PtMem, new: &PtMem, root: int, a: u64)
    requires
        old.wf(),
        is_root(old, root),
        walk_kept(old, new, root, a),
    ensures
        translate(new, root, a) == translate(old, root, a),
        leaf_level(new, root, a) == leaf_level(old, root, a),
        !pml4_huge(old, root, a) ==> !pml4_huge(new, root, a),
{
    reveal_with_fuel(path_slot, 4);
    reveal_with_fuel(path_ok, 4);
    lemma_indices(a);
    lemma_path_slot_levels(old, root, a);
    let p3 = path_slot(old, root, a, 3);
    assert(visits(old, root, a, p3));
    assert(path_slot(new, root, a, 3) == p3);
    let e3 = path_ent(old, root, a, 3);
    if is_present_bits(e3) && !is_huge_bits(e3) {
        let p2 = path_slot(old, root, a, 2);
        assert(visits(old, root, a, p2));
        assert(path_slot(new, root, a, 2) == p2);
        let e2 = path_ent(old, root, a, 2);
        if is_present_bits(e2) && !is_huge_bits(e2) {
            let p1 = path_slot(old, root, a, 1);
            assert(visits(old, root, a, p1));
            assert(path_slot(new, root, a, 1) == p1);
            let e1 = path_ent(old, root, a, 1);
            if is_present_bits(e1) && !is_huge_bits(e1) {
                let p0 = path_slot(old, root, a, 0);
                assert(visits(old, root, a, p0));
                assert(path_slot(new, root, a, 0) == p0);
            }
        }
    }
}

/// A mapping of `v` at level `lvl` leaves every mapped address outside the
/// region it maps as it was.
pub proof fn lemma_map_frame(old: &PtMem, new: &PtMem, root: int, v: u64, lvl: int, e: u64, a: u64)
    requires
        old.wf(),
        new.wf(),
        is_root(old, root),
        0 <= lvl <= 2,
        crate::paging::exco::updated_along(old, new, root, v, lvl, e),
        translate(old, root, a) is Some,
        !same_region(a, v, lvl),
    ensures
        translate(new, root, a) == translate(old, root, a),
        leaf_level(new, root, a) == leaf_level(old, root, a),
{
    reveal_with_fuel(path_slot, 4);
    reveal_with_fuel(path_ok, 4);
    lemma_indices(a);
    lemma_indices(v);
    lemma_path_slot_levels(old, root, a);
    lemma_path_slot_levels(new, root, v);
    let sn = path_slot(new, root, v, lvl);
    let p3 = path_slot(old, root, a, 3);
    let p2 = path_slot(old, root, a, 2);
    let p1 = path_slot(old, root, a, 1);
    let p0 = path_slot(old, root, a, 0);
    let e3 = path_ent(old, root, a, 3);
    let e2 = path_ent(old, root, a, 2);
    let e1 = path_ent(old, root, a, 1);
    assert(new.level(sn.0) == lvl);
    // the slots that the walk for `a` reads are present
    assert(is_present_bits(e3));
    assert(is_present_bits(e3) && !is_huge_bits(e3) ==> is_present_bits(e2));
    assert(is_present_bits(e3) && !is_huge_bits(e3) && is_present_bits(e2) && !is_huge_bits(e2) ==> is_present_bits(e1));
    assert(is_present_bits(e3) && !is_huge_bits(e3) && is_present_bits(e2) && !is_huge_bits(e2)
        && is_present_bits(e1) && !is_huge_bits(e1) ==> is_present_bits(path_ent(old, root, a, 0)));
    // a slot read by the walk for `a` that changed is the slot written
    assert forall|x: (int, int)| #[trigger] visits(old, root, a, x) && new.ent(x.0, x.1) != old.ent(x.0, x.1) implies x == sn by {
        assert(0 <= x.0 < old.len() && 0 <= x.1 < 512);
        assert(is_present_bits(old.ent(x.0, x.1)));
    }
    if visits(old, root, a, sn) {
        // the walk for `a` reaches `sn` at level `lvl` through unchanged slots
        if lvl == 2 {
            assert(sn == p2);
            assert(new.ent(p3.0, p3.1) == old.ent(p3.0, p3.1));
            assert(path_slot(new, root, a, 2) == sn);
        } else if lvl == 1 {
            assert(sn == p1);
            assert(new.ent(p3.0, p3.1) == old.ent(p3.0, p3.1));
            assert(new.ent(p2.0, p2.1) == old.ent(p2.0, p2.1));
            assert(path_slot(new, root, a, 1) == sn);
        } else {
            assert(sn == p0);
            assert(new.ent(p3.0, p3.1) == old.ent(p3.0, p3.1));
            assert(new.ent(p2.0, p2.1) == old.ent(p2.0, p2.1));
            assert(new.ent(p1.0, p1.1) == old.ent(p1.0, p1.1));
            assert(path_slot(new, root, a, 0) == sn);
        }
        assert(reaches(new, root, a, lvl));
        assert(reaches(new, root, v, lvl));
        lemma_region(new, root, a, v, lvl);
        assert(false);
    }
    lemma_frame_walk(old, new, root, a);
}


/// [`lemma_unmap_frame`] for every address.
pub proof fn lemma_unmap_frame_all(old: &PtMem, new: &PtMem, root: int, v: u64)
    requires
        old.wf(),
        is_root(old, root),
        unmap_slot(old, root, v) is Some,
        crate::paging::exco::set_slot(old, new, unmap_slot(old, root, v)->Some_0, 0),
    ensures
        forall|a: u64| !same_region(a, v, unmap_level(old, root, v)) ==> #[trigger] translate(new, root, a) == translate(old, root, a),
{
    assert forall|a: u64| !same_region(a, v, unmap_level(old, root, v)) implies #[trigger] translate(new, root, a) == translate(old, root, a) by {
        lemma_unmap_frame(old, new, root, v, a);
    }
}

/// [`lemma_split_frame`] for every address.
pub proof fn lemma_split_frame_all(old: &PtMem, new: &PtMem, root: int, v: u64, lvl: int)
    requires
        old.wf(),
        is_root(old, root),
        1 <= lvl <= 2,
        walk_mut_spec(old, root, v, lvl) is Ok,
        ({
            let s = walk_mut_spec(old, root, v, lvl)->Ok_0;
            is_present_bits(old.ent(s.0, s.1)) && is_huge_bits(old.ent(s.0, s.1)) && split_slot(old, new, s, lvl)
        }),
    ensures
        forall|a: u64| !same_region(a, v, lvl) ==> #[trigger] translate(new, root, a) == translate(old, root, a),
{
    assert forall|a: u64| !same_region(a, v, lvl) implies #[trigger] translate(new, root, a) == translate(old, root, a) by {
        lemma_split_frame(old, new, root, v, lvl, a);
    }
}


/// The size of the region that an entry at level `k` maps.
pub open spec fn region_size(k: int) -> int {
    if k == 0 { 0x1000 } else if k == 1 { 0x20_0000 } else { 0x4000_0000 }
}

/// The first address of the region at level `k` that holds `a`.
pub open spec fn region_base(a: u64, k: int) -> int {
    a - (a as int) % region_size(k)
}

/// The offset masks give the offsets in the regions, and their complements
/// the region bases.
pub proof fn lemma_offset_masks(a: u64)
    ensures
        a & 0xfffu64 == a % 0x1000,
        a & 0x1f_ffffu64 == a % 0x20_0000,
        a & 0x3fff_ffffu64 == a % 0x4000_0000,
        a & !0xfffu64 == a - a % 0x1000,
        a & !0x1f_ffffu64 == a - a % 0x20_0000,
        a & !0x3fff_ffffu64 == a - a % 0x4000_0000,
{
    assert(a & 0xfffu64 == a % 0x1000 && a & 0x1f_ffffu64 == a % 0x20_0000 && a & 0x3fff_ffffu64 == a % 0x4000_0000
        && a & !0xfffu64 == a - a % 0x1000 && a & !0x1f_ffffu64 == a - a % 0x20_0000 && a & !0x3fff_ffffu64 == a - a % 0x4000_0000) by (bit_vector);
}

/// The address bits of an entry made of a page-aligned address below 2^52
/// and flags without address bits (with the present bit, and the huge-page
/// bit or not) are that address.
pub proof fn lemma_entry_address(p: u64, f: u64)
    requires
        p % 4096 == 0,
        p < 0x10_0000_0000_0000,
        f & ADDRESS_MASK == 0,
    ensures
        address_bits((p & ADDRESS_MASK) | (f | 1u64)) == p,
        address_bits((p & ADDRESS_MASK) | (f | 1u64 | 0x80u64)) == p,
{
    assert(((p & 0x000f_ffff_ffff_f000u64) | (f | 1u64)) & 0x000f_ffff_ffff_f000u64 == p
        && ((p & 0x000f_ffff_ffff_f000u64) | (f | 1u64 | 0x80u64)) & 0x000f_ffff_ffff_f000u64 == p) by (bit_vector)
        requires p % 4096 == 0, p < 0x10_0000_0000_0000u64, f & 0x000f_ffff_ffff_f000u64 == 0;
}

/// Addresses of one region at level `k` have the same walk slots from the
/// PML4 down to level `k`.
pub proof fn lemma_region_slots(mem: &PtMem, root: int, a: u64, v: u64, k: int)
    requires
        0 <= k <= 3,
        same_region(a, v, k),
    ensures
        forall|j: int| k <= j <= 3 ==> #[trigger] path_slot(mem, root, a, j) == path_slot(mem, root, v, j),
{
    reveal_with_fuel(path_slot, 4);
}

/// An address in the region that maps `v` (the region of its leaf) is
/// mapped through the same leaf, at its own offset.
pub proof fn lemma_region_translate(mem: &PtMem, root: int, v: u64, a: u64)
    requires
        translate(mem, root, v) is Some,
        same_region(a, v, leaf_level(mem, root, v)),
    ensures
        translate(mem, root, a) is Some,
        leaf_level(mem, root, a) == leaf_level(mem, root, v),
        translate(mem, root, a)->Some_0.0
            == address_bits(path_ent(mem, root, v, leaf_level(mem, root, v))) + (a as int) % region_size(leaf_level(mem, root, v)),
        translate(mem, root, a)->Some_0.1 == translate(mem, root, v)->Some_0.1,
{
    reveal_with_fuel(path_slot, 4);
    let k = leaf_level(mem, root, v);
    lemma_region_slots(mem, root, a, v, k);
    lemma_offset_masks(a);
    lemma_offset_masks(v);
    assert(path_ent(mem, root, a, 3) == path_ent(mem, root, v, 3));
    if k <= 2 { assert(path_ent(mem, root, a, 2) == path_ent(mem, root, v, 2)); }
    if k <= 1 { assert(path_ent(mem, root, a, 1) == path_ent(mem, root, v, 1)); }
    if k <= 0 { assert(path_ent(mem, root, a, 0) == path_ent(mem, root, v, 0)); }
}

/// A slot with a huge page that a mapped address reads is the slot it is
/// mapped by.
pub proof fn lemma_visited_huge_is_leaf(mem: &PtMem, root: int, a: u64, s: (int, int))
    requires
        mem.wf(),
        is_root(mem, root),
        translate(mem, root, a) is Some,
        visits(mem, root, a, s),
        0 <= s.0 < mem.len(),
        1 <= mem.level(s.0) <= 2,
        is_huge_bits(mem.ent(s.0, s.1)),
    ensures
        leaf_level(mem, root, a) == mem.level(s.0),
        s == path_slot(mem, root, a, mem.level(s.0)),
{
    reveal_with_fuel(path_slot, 4);
    reveal_with_fuel(path_ok, 4);
    lemma_indices(a);
    lemma_path_slot_levels(mem, root, a);
}

/// A split of the huge page at `w` on level `lvl` leaves a mapped address
/// that is not mapped by that page as it was.
pub proof fn lemma_split_frame_leaf(old: &PtMem, new: &PtMem, root: int, w: u64, lvl: int, a: u64)
    requires
        old.wf(),
        is_root(old, root),
        1 <= lvl <= 2,
        walk_mut_spec(old, root, w, lvl) is Ok,
        ({
            let s = walk_mut_spec(old, root, w, lvl)->Ok_0;
            is_present_bits(old.ent(s.0, s.1)) && is_huge_bits(old.ent(s.0, s.1)) && split_slot(old, new, s, lvl)
        }),
        translate(old, root, a) is Some,
        !(leaf_level(old, root, a) == lvl && same_region(a, w, lvl)),
    ensures
        translate(new, root, a) == translate(old, root, a),
        leaf_level(new, root, a) == leaf_level(old, root, a),
        !pml4_huge(old, root, a) ==> !pml4_huge(new, root, a),
{
    reveal_with_fuel(path_slot, 4);
    reveal_with_fuel(path_ok, 4);
    lemma_indices(w);
    lemma_path_slot_levels(old, root, w);
    let s = walk_mut_spec(old, root, w, lvl)->Ok_0;
    assert(s == path_slot(old, root, w, lvl));
    assert(old.level(s.0) == lvl);
    if visits(old, root, a, s) {
        lemma_visited_huge_is_leaf(old, root, a, s);
        assert(reaches(old, root, w, lvl));
        lemma_path_slot_levels(old, root, a);
        assert(reaches(old, root, a, lvl));
        lemma_region(old, root, a, w, lvl);
    }
    lemma_frame(old, new, root, a, s);
}

/// Tables that grew along a walk leave every mapped address as it was.
pub proof fn lemma_grow_frame(old: &PtMem, new: &PtMem, root: int, v: u64, lo: int, a: u64)
    requires
        old.wf(),
        is_root(old, root),
        crate::paging::walk::grows_along(old, new, root, v, lo),
        translate(old, root, a) is Some,
    ensures
        translate(new, root, a) == translate(old, root, a),
        leaf_level(new, root, a) == leaf_level(old, root, a),
        !pml4_huge(old, root, a) ==> !pml4_huge(new, root, a),
{
    reveal_with_fuel(path_slot, 4);
    lemma_indices(a);
    lemma_path_slot_levels(old, root, a);
    assert forall|x: (int, int)| #[trigger] visits(old, root, a, x) implies new.ent(x.0, x.1) == old.ent(x.0, x.1) by {
        assert(0 <= x.0 < old.len() && 0 <= x.1 < 512);
        lemma_mapped_visits_present(old, root, a, x);
    }
    lemma_frame_walk(old, new, root, a);
}


/// Whether no PML4 entry has the huge-page bit.
pub open spec fn no_pml4_huge(mem: &PtMem, root: int) -> bool {
    forall|a: u64| !#[trigger] pml4_huge(mem, root, a)
}

/// A mapping along a walk sets no huge-page bit in the PML4, and the
/// address mapped ends at the level of the mapping.
pub proof fn lemma_map_no_pml4_huge(old: &PtMem, new: &PtMem, root: int, v: u64, lvl: int, e: u64)
    requires
        old.wf(),
        new.wf(),
        is_root(old, root),
        0 <= lvl <= 2,
        crate::paging::exco::updated_along(old, new, root, v, lvl, e),
        no_pml4_huge(old, root),
        is_present_bits(e),
        lvl > 0 ==> is_huge_bits(e),
    ensures
        no_pml4_huge(new, root),
        leaf_level(new, root, v) == lvl,
        path_ent(new, root, v, lvl) == e,
{
    reveal_with_fuel(path_slot, 4);
    reveal_with_fuel(path_ok, 4);
    lemma_path_slot_levels(new, root, v);
    let sn = path_slot(new, root, v, lvl);
    assert(new.level(sn.0) == lvl);
    assert forall|a: u64| !#[trigger] pml4_huge(new, root, a) by {
        lemma_indices(a);
        let p = path_slot(old, root, a, 3);
        assert(path_slot(new, root, a, 3) == p);
        assert(!pml4_huge(old, root, a));
        assert(p != sn);
    }
    assert(!pml4_huge(new, root, v));
}

/// Tables that grow along a walk set no huge-page bit in the PML4.
pub proof fn lemma_grow_no_pml4_huge(old: &PtMem, new: &PtMem, root: int, v: u64, lo: int)
    requires
        old.wf(),
        is_root(old, root),
        crate::paging::walk::grows_along(old, new, root, v, lo),
        no_pml4_huge(old, root),
    ensures
        no_pml4_huge(new, root),
{
    reveal_with_fuel(path_slot, 4);
    assert forall|a: u64| !#[trigger] pml4_huge(new, root, a) by {
        lemma_indices(a);
        let p = path_slot(old, root, a, 3);
        assert(path_slot(new, root, a, 3) == p);
        assert(!pml4_huge(old, root, a));
    }
}

/// A split below the PML4 sets no huge-page bit in the PML4.
pub proof fn lemma_split_no_pml4_huge(old: &PtMem, new: &PtMem, root: int, s: (int, int), lvl: int)
    requires
        old.wf(),
        is_root(old, root),
        0 <= s.0 < old.len(),
        old.level(s.0) == lvl,
        1 <= lvl <= 2,
        split_slot(old, new, s, lvl),
        no_pml4_huge(old, root),
    ensures
        no_pml4_huge(new, root),
{
    reveal_with_fuel(path_slot, 4);
    assert forall|a: u64| !#[trigger] pml4_huge(new, root, a) by {
        lemma_indices(a);
        let p = path_slot(old, root, a, 3);
        assert(path_slot(new, root, a, 3) == p);
        assert(!pml4_huge(old, root, a));
        assert(p != s);
    }
}


/// Below a slot that a mapping created, the walk for `a` runs through new
/// tables only: it ends at an empty entry unless it follows the walk for
/// `v` down to the slot written, which it does not.
proof fn lemma_fresh_walk(old: &PtMem, new: &PtMem, root: int, v: u64, lvl: int, e: u64, a: u64, k: int)
    requires
        old.wf(),
        new.wf(),
        is_root(new, root),
        0 <= lvl <= 2,
        0 <= k <= 2,
        crate::paging::exco::updated_along(old, new, root, v, lvl, e),
        reaches(new, root, a, k),
        old.len() <= path_slot(new, root, a, k).0 < new.len(),
        new.level(path_slot(new, root, a, k).0) == k,
        !(reaches(new, root, a, lvl) && path_slot(new, root, a, lvl) == path_slot(new, root, v, lvl)),
    ensures
        translate(new, root, a) is None,
    decreases k,
{
    reveal_with_fuel(path_slot, 4);
    reveal_with_fuel(path_ok, 4);
    lemma_indices(a);
    lemma_indices(v);
    let s = path_slot(new, root, v, lvl);
    let y = path_slot(new, root, a, k);
    let n = new.ent(y.0, y.1);
    lemma_path_slot(new, root, v, lvl);
    assert(0 <= y.1 < 512);
    if n != 0 {
        if y == s {
            assert(k == lvl);
            assert(false);
        }
        assert(on_path_slot(new, root, v, y, lvl + 1));
        let kk = if y == path_slot(new, root, v, 3) { 3int } else if path_ok(new, root, v, 2) && y == path_slot(new, root, v, 2) { 2int } else { 1int };
        lemma_path_slot(new, root, v, kk);
        assert(kk == k);
        assert(k >= lvl + 1);
        assert(path_ok(new, root, v, k - 1));
        assert(new.is_ptr_slot(y.0, y.1));
        assert(is_present_bits(n) && !is_huge_bits(n));
        lemma_fresh_walk(old, new, root, v, lvl, e, a, k - 1);
    } else {
        assert(!is_present_bits(0u64)) by { crate::paging::table::lemma_zero_flags(); }
    }
}

/// Whether slot `y` is an upper slot of the walk for `v` at a level from
/// `lo` up.
pub open spec fn on_path_slot(mem: &PtMem, root: int, v: u64, y: (int, int), lo: int) -> bool {
    crate::paging::walk::on_path(mem, root, v, y.0, y.1, lo)
}

/// A mapping of `v` at level `lvl` maps no address outside the region it
/// maps that was unmapped.
pub proof fn lemma_map_keeps_unmapped(old: &PtMem, new: &PtMem, root: int, v: u64, lvl: int, e: u64, a: u64)
    requires
        old.wf(),
        new.wf(),
        is_root(old, root),
        0 <= lvl <= 2,
        crate::paging::exco::updated_along(old, new, root, v, lvl, e),
        no_pml4_huge(old, root),
        translate(old, root, a) is None,
        !same_region(a, v, lvl),
    ensures
        translate(new, root, a) is None,
{
    reveal_with_fuel(path_slot, 4);
    reveal_with_fuel(path_ok, 4);
    lemma_indices(a);
    lemma_indices(v);
    assert(is_root(new, root));
    let s = path_slot(new, root, v, lvl);
    lemma_path_slot(new, root, v, lvl);
    lemma_path_slot_levels(old, root, a);
    assert(0u64 & 1u64 == 0) by { crate::paging::table::lemma_zero_flags(); }
    if reaches(new, root, a, lvl) && path_slot(new, root, a, lvl) == s {
        assert(reaches(new, root, v, lvl)) by {
            if lvl < 3 { lemma_path_slot(new, root, v, 3); assert(new.is_ptr_slot(path_slot(new, root, v, 3).0, path_slot(new, root, v, 3).1)); }
            if lvl < 2 { lemma_path_slot(new, root, v, 2); assert(new.is_ptr_slot(path_slot(new, root, v, 2).0, path_slot(new, root, v, 2).1)); }
            if lvl < 1 { lemma_path_slot(new, root, v, 1); assert(new.is_ptr_slot(path_slot(new, root, v, 1).0, path_slot(new, root, v, 1).1)); }
        }
        lemma_region(new, root, a, v, lvl);
        assert(false);
    }
    let p3 = path_slot(old, root, a, 3);
    assert(path_slot(new, root, a, 3) == p3);
    assert(!pml4_huge(old, root, a));
    assert(p3 != s);
    let o3 = old.ent(p3.0, p3.1);
    let n3 = new.ent(p3.0, p3.1);
    if n3 != o3 {
        if is_present_bits(n3) {
            lemma_fresh_walk(old, new, root, v, lvl, e, a, 2);
        }
    } else if is_present_bits(o3) {
        let p2 = path_slot(old, root, a, 2);
        assert(path_slot(new, root, a, 2) == p2);
        let o2 = old.ent(p2.0, p2.1);
        let n2 = new.ent(p2.0, p2.1);
        if p2 == s {
        } else if n2 != o2 {
            if is_present_bits(n2) {
                lemma_fresh_walk(old, new, root, v, lvl, e, a, 1);
            }
        } else if is_present_bits(o2) && !is_huge_bits(o2) {
            let p1 = path_slot(old, root, a, 1);
            assert(path_slot(new, root, a, 1) == p1);
            let o1 = old.ent(p1.0, p1.1);
            let n1 = new.ent(p1.0, p1.1);
            if p1 == s {
            } else if n1 != o1 {
                if is_present_bits(n1) {
                    lemma_fresh_walk(old, new, root, v, lvl, e, a, 0);
                }
            } else if is_present_bits(o1) && !is_huge_bits(o1) {
                let p0 = path_slot(old, root, a, 0);
                assert(path_slot(new, root, a, 0) == p0);
                if p0 != s && new.ent(p0.0, p0.1) != old.ent(p0.0, p0.1) {
                    assert(on_path_slot(new, root, v, p0, lvl + 1));
                    if path_ok(new, root, v, 2) { lemma_path_slot(new, root, v, 2); }
                    if path_ok(new, root, v, 1) { lemma_path_slot(new, root, v, 1); }
                    lemma_path_slot(new, root, v, 3);
                    assert(false);
                }
            }
        }
    }
}

} // verus!
