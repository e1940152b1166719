//! What splitting a huge page and rewriting a 4 KiB entry's flags do to
//! translations: every address keeps its physical address.

use vstd::prelude::*;
use crate::paging::entry::{address_bits, is_huge_bits, is_present_bits};
use crate::paging::exco::{merge_bad, merge_outcome, pml4_huge, split_slot};
use crate::paging::frame::{
    leaf_level, lemma_frame, lemma_path_slot_levels, lemma_region, lemma_region_slots, lemma_split_frame_leaf,
    lemma_visited_huge_is_leaf, reaches, region_size, same_region, visits,
};
use crate::paging::table::{is_root, lemma_indices, pd_index, path_ent, path_ok, path_slot, translate, walk_mut_spec, PtError, PtMem, PHYS_LIMIT};

verus! {

/// The bit facts behind splits and flag rewrites: a child entry of a split
/// keeps the address of its part of the page and the present and huge bits
/// that the split gives it; the table indices and the offset in the small
/// page make up the offset in the large one; rewriting the flag bits of an
/// entry keeps its address.
pub proof fn lemma_entry_arith(e: u64, a: u64, i: u64, y: u64, nf: u64)
    ensures
        i < 512 && (e & 0x000f_ffff_ffff_f000u64) + 0x20_0000 <= 0x10_0000_0000_0000u64 ==>
            (((((e & 0x000f_ffff_ffff_f000u64) + i * 0x1000) as u64) & 0x000f_ffff_ffff_f000u64)
                | ((e & 0x8070_0000_0000_01ffu64) & !0x80u64)) & 0x000f_ffff_ffff_f000u64
                == (e & 0x000f_ffff_ffff_f000u64) + i * 0x1000,
        i < 512 && (e & 0x000f_ffff_ffff_f000u64) + 0x4000_0000 <= 0x10_0000_0000_0000u64 ==>
            (((((e & 0x000f_ffff_ffff_f000u64) + i * 0x20_0000) as u64) & 0x000f_ffff_ffff_f000u64)
                | (e & 0x8070_0000_0000_01ffu64)) & 0x000f_ffff_ffff_f000u64
                == (e & 0x000f_ffff_ffff_f000u64) + i * 0x20_0000,
        ((a >> 12u64) & 0x1ffu64) * 0x1000 + (a & 0xfffu64) == a & 0x1f_ffffu64,
        ((a >> 21u64) & 0x1ffu64) * 0x20_0000 + (a & 0x1f_ffffu64) == a & 0x3fff_ffffu64,
        ((y & 0x000f_ffff_ffff_f000u64) | ((e & 0x8070_0000_0000_01ffu64) & !0x80u64)) & 1u64 == e & 1u64,
        ((y & 0x000f_ffff_ffff_f000u64) | ((e & 0x8070_0000_0000_01ffu64) & !0x80u64)) & 0x80u64 == 0,
        ((y & 0x000f_ffff_ffff_f000u64) | (e & 0x8070_0000_0000_01ffu64)) & 1u64 == e & 1u64,
        ((y & 0x000f_ffff_ffff_f000u64) | (e & 0x8070_0000_0000_01ffu64)) & 0x80u64 == e & 0x80u64,
        nf & 0x000f_ffff_ffff_f000u64 == 0 ==>
            ((e & 0x000f_ffff_ffff_f000u64) | (nf | 1u64)) & 0x000f_ffff_ffff_f000u64 == e & 0x000f_ffff_ffff_f000u64,
        ((e & 0x000f_ffff_ffff_f000u64) | (nf | 1u64)) & 0x8070_0000_0000_01ffu64 == (nf | 1u64) & 0x8070_0000_0000_01ffu64,
        ((e & 0x000f_ffff_ffff_f000u64) | (nf | 1u64)) & 1u64 != 0,
        ((e & 0x000f_ffff_ffff_f000u64) | (nf | 1u64)) & 0x80u64 == nf & 0x80u64,
{
    assert({
        &&& (i < 512 && (e & 0x000f_ffff_ffff_f000u64) + 0x20_0000 <= 0x10_0000_0000_0000u64 ==>
            (((((e & 0x000f_ffff_ffff_f000u64) + i * 0x1000) as u64) & 0x000f_ffff_ffff_f000u64)
                | ((e & 0x8070_0000_0000_01ffu64) & !0x80u64)) & 0x000f_ffff_ffff_f000u64
                == (e & 0x000f_ffff_ffff_f000u64) + i * 0x1000)
        &&& (i < 512 && (e & 0x000f_ffff_ffff_f000u64) + 0x4000_0000 <= 0x10_0000_0000_0000u64 ==>
            (((((e & 0x000f_ffff_ffff_f000u64) + i * 0x20_0000) as u64) & 0x000f_ffff_ffff_f000u64)
                | (e & 0x8070_0000_0000_01ffu64)) & 0x000f_ffff_ffff_f000u64
                == (e & 0x000f_ffff_ffff_f000u64) + i * 0x20_0000)
        &&& ((a >> 12u64) & 0x1ffu64) * 0x1000 + (a & 0xfffu64) == a & 0x1f_ffffu64
        &&& ((a >> 21u64) & 0x1ffu64) * 0x20_0000 + (a & 0x1f_ffffu64) == a & 0x3fff_ffffu64
        &&& ((y & 0x000f_ffff_ffff_f000u64) | ((e & 0x8070_0000_0000_01ffu64) & !0x80u64)) & 1u64 == e & 1u64
        &&& ((y & 0x000f_ffff_ffff_f000u64) | ((e & 0x8070_0000_0000_01ffu64) & !0x80u64)) & 0x80u64 == 0
        &&& ((y & 0x000f_ffff_ffff_f000u64) | (e & 0x8070_0000_0000_01ffu64)) & 1u64 == e & 1u64
        &&& ((y & 0x000f_ffff_ffff_f000u64) | (e & 0x8070_0000_0000_01ffu64)) & 0x80u64 == e & 0x80u64
        &&& (nf & 0x000f_ffff_ffff_f000u64 == 0 ==>
            ((e & 0x000f_ffff_ffff_f000u64) | (nf | 1u64)) & 0x000f_ffff_ffff_f000u64 == e & 0x000f_ffff_ffff_f000u64)
        &&& ((e & 0x000f_ffff_ffff_f000u64) | (nf | 1u64)) & 0x8070_0000_0000_01ffu64 == (nf | 1u64) & 0x8070_0000_0000_01ffu64
        &&& ((e & 0x000f_ffff_ffff_f000u64) | (nf | 1u64)) & 1u64 != 0
        &&& ((e & 0x000f_ffff_ffff_f000u64) | (nf | 1u64)) & 0x80u64 == nf & 0x80u64
    }) by (bit_vector);
}

/// Whether every huge page of `mem` lies below the physical limit.
pub open spec fn huge_frames_ok(mem: &PtMem) -> bool {
    forall|t: int, j: int| 0 <= t < mem.len() && 0 <= j < 512 && 1 <= mem.level(t) <= 2
        && is_present_bits(#[trigger] mem.ent(t, j)) && is_huge_bits(mem.ent(t, j))
        ==> address_bits(mem.ent(t, j)) + region_size(mem.level(t)) <= PHYS_LIMIT
}

/// Splitting a huge page that lies below the physical limit keeps the
/// physical address of every mapped address; the addresses of the page
/// drop one level, every other address keeps its level.
pub proof fn lemma_split_keeps_address(old: &PtMem, new: &PtMem, root: int, w: u64, lvl: int, a: u64)
    requires
        old.wf(),
        new.wf(),
        is_root(old, root),
        1 <= lvl <= 2,
        walk_mut_spec(old, root, w, lvl) is Ok,
        ({
            let s = walk_mut_spec(old, root, w, lvl)->Ok_0;
            is_present_bits(old.ent(s.0, s.1)) && is_huge_bits(old.ent(s.0, s.1)) && split_slot(old, new, s, lvl)
        }),
        huge_frames_ok(old),
        translate(old, root, a) is Some,
    ensures
        translate(new, root, a) is Some,
        translate(new, root, a)->Some_0.0 == translate(old, root, a)->Some_0.0,
        leaf_level(old, root, a) != lvl || !same_region(a, w, lvl) ==> translate(new, root, a) == translate(old, root, a)
            && leaf_level(new, root, a) == leaf_level(old, root, a),
        leaf_level(old, root, a) == lvl && same_region(a, w, lvl) ==> leaf_level(new, root, a) == lvl - 1,
{
    if leaf_level(old, root, a) != lvl || !same_region(a, w, lvl) {
        lemma_split_frame_leaf(old, new, root, w, lvl, a);
    } else {
        reveal_with_fuel(path_slot, 4);
        lemma_indices(a);
        lemma_indices(w);
        lemma_path_slot_levels(old, root, w);
        lemma_path_slot_levels(old, root, a);
        let s = walk_mut_spec(old, root, w, lvl)->Ok_0;
        assert(s == path_slot(old, root, w, lvl));
        lemma_region_slots(old, root, a, w, lvl);
        assert(path_slot(old, root, a, lvl) == s);
        let e = old.ent(s.0, s.1);
        let c = old.len();
        assert(old.level(s.0) == lvl);
        assert(address_bits(e) + region_size(lvl) <= PHYS_LIMIT);
        let p3 = path_slot(old, root, a, 3);
        assert(new.ent(p3.0, p3.1) == old.ent(p3.0, p3.1));
        assert(path_slot(new, root, a, 3) == p3);
        if lvl == 1 {
            let p2 = path_slot(old, root, a, 2);
            assert(p2 != s);
            assert(new.ent(p2.0, p2.1) == old.ent(p2.0, p2.1));
            assert(path_slot(new, root, a, 2) == p2);
            assert(path_slot(new, root, a, 1) == s);
            assert(new.is_ptr_slot(s.0, s.1));
            let i = (a >> 12u64) & 0x1ffu64;
            assert(path_slot(new, root, a, 0) == (c, i as int));
            lemma_entry_arith(e, a, i, ((address_bits(e) + i * 4096) as u64), 0);
            assert(translate(new, root, a)->Some_0.0 == translate(old, root, a)->Some_0.0);
        } else {
            assert(path_slot(new, root, a, 2) == s);
            assert(new.is_ptr_slot(s.0, s.1));
            let i = (a >> 21u64) & 0x1ffu64;
            assert(path_slot(new, root, a, 1) == (c, i as int));
            lemma_entry_arith(e, a, i, ((address_bits(e) + i * 0x20_0000) as u64), 0);
            assert(translate(new, root, a)->Some_0.0 == translate(old, root, a)->Some_0.0);
        }
    }
}

/// Whether every address that `old` maps is mapped by `new` to the same
/// physical address, and no other address is.
pub open spec fn addr_kept(old: &PtMem, new: &PtMem, root: int) -> bool {
    forall|a: u64| #[trigger] translate(new, root, a) is Some == translate(old, root, a) is Some
        && (translate(old, root, a) is Some ==> translate(new, root, a)->Some_0.0 == translate(old, root, a)->Some_0.0)
}

/// Whether every address that `old` maps by a 4 KiB page is mapped alike
/// by `new`, by a 4 KiB page.
pub open spec fn leaf0_kept(old: &PtMem, new: &PtMem, root: int) -> bool {
    forall|a: u64| translate(old, root, a) is Some && leaf_level(old, root, a) == 0
        ==> #[trigger] translate(new, root, a) == translate(old, root, a) && leaf_level(new, root, a) == 0
}

/// Keeping addresses, and keeping 4 KiB pages, compose.
pub proof fn lemma_kept_compose(m0: &PtMem, m1: &PtMem, m2: &PtMem, root: int)
    requires
        addr_kept(m0, m1, root),
        addr_kept(m1, m2, root),
        leaf0_kept(m0, m1, root),
        leaf0_kept(m1, m2, root),
    ensures
        addr_kept(m0, m2, root),
        leaf0_kept(m0, m2, root),
{
    assert forall|a: u64| #[trigger] translate(m2, root, a) is Some == translate(m0, root, a) is Some
        && (translate(m0, root, a) is Some ==> translate(m2, root, a)->Some_0.0 == translate(m0, root, a)->Some_0.0) by {
        assert(translate(m1, root, a) is Some == translate(m0, root, a) is Some);
    }
    assert forall|a: u64| translate(m0, root, a) is Some && leaf_level(m0, root, a) == 0
        implies #[trigger] translate(m2, root, a) == translate(m0, root, a) && leaf_level(m2, root, a) == 0 by {
        assert(translate(m1, root, a) == translate(m0, root, a));
    }
}

/// Nothing changed keeps everything.
pub proof fn lemma_kept_refl(m: &PtMem, root: int)
    ensures
        addr_kept(m, m, root),
        leaf0_kept(m, m, root),
{
}

/// Splitting a huge page below the physical limit keeps every address and
/// every 4 KiB page, and the huge pages it makes lie below the limit.
pub proof fn lemma_split_kept(old: &PtMem, new: &PtMem, root: int, w: u64, lvl: int)
    requires
        old.wf(),
        new.wf(),
        is_root(old, root),
        1 <= lvl <= 2,
        walk_mut_spec(old, root, w, lvl) is Ok,
        ({
            let s = walk_mut_spec(old, root, w, lvl)->Ok_0;
            is_present_bits(old.ent(s.0, s.1)) && is_huge_bits(old.ent(s.0, s.1)) && split_slot(old, new, s, lvl)
        }),
        huge_frames_ok(old),
    ensures
        addr_kept(old, new, root),
        leaf0_kept(old, new, root),
        huge_frames_ok(new),
{
    crate::paging::frame::lemma_split_no_new_mapping(old, new, root, w, lvl);
    assert forall|a: u64| #[trigger] translate(new, root, a) is Some == translate(old, root, a) is Some
        && (translate(old, root, a) is Some ==> translate(new, root, a)->Some_0.0 == translate(old, root, a)->Some_0.0) by {
        if translate(old, root, a) is Some {
            lemma_split_keeps_address(old, new, root, w, lvl, a);
        }
    }
    assert forall|a: u64| translate(old, root, a) is Some && leaf_level(old, root, a) == 0
        implies #[trigger] translate(new, root, a) == translate(old, root, a) && leaf_level(new, root, a) == 0 by {
        lemma_split_keeps_address(old, new, root, w, lvl, a);
    }
    reveal_with_fuel(path_slot, 4);
    lemma_path_slot_levels(old, root, w);
    let s = walk_mut_spec(old, root, w, lvl)->Ok_0;
    assert(s == path_slot(old, root, w, lvl));
    let e = old.ent(s.0, s.1);
    let c = old.len();
    assert(old.level(s.0) == lvl);
    assert forall|t: int, j: int| 0 <= t < new.len() && 0 <= j < 512 && 1 <= new.level(t) <= 2
        && is_present_bits(#[trigger] new.ent(t, j)) && is_huge_bits(new.ent(t, j))
        implies address_bits(new.ent(t, j)) + region_size(new.level(t)) <= PHYS_LIMIT by {
        if t == c {
            assert(lvl == 2);
            let i = j as u64;
            lemma_entry_arith(e, 0, i, 0, 0);
            assert(new.ent(c, j) == (((address_bits(e) + j * 0x20_0000) as u64 & 0x000f_ffff_ffff_f000u64) | (e & 0x8070_0000_0000_01ffu64)));
        } else {
            assert(t < c);
            assert((t, j) != s);
        }
    }
}

/// Rewriting the 4 KiB entry that the walk for `v` reaches with the flags
/// `nf` (plus present), keeping its address: the addresses of that page
/// keep their physical addresses and take the new flags; every other
/// address is mapped as before.
pub proof fn lemma_rewrite_leaf(old: &PtMem, new: &PtMem, root: int, v: u64, nf: u64)
    requires
        old.wf(),
        new.wf(),
        is_root(old, root),
        walk_mut_spec(old, root, v, 0) is Ok,
        ({
            let s = walk_mut_spec(old, root, v, 0)->Ok_0;
            &&& is_present_bits(old.ent(s.0, s.1))
            &&& crate::paging::exco::set_slot(old, new, s,
                (old.ent(s.0, s.1) & 0x000f_ffff_ffff_f000u64) | (nf | 1u64))
        }),
        nf & 0x000f_ffff_ffff_f000u64 == 0,
        huge_frames_ok(old),
        !pml4_huge(old, root, v),
    ensures
        addr_kept(old, new, root),
        huge_frames_ok(new),
        forall|a: u64| #[trigger] pml4_huge(new, root, a) == pml4_huge(old, root, a),
        forall|a: u64| #[trigger] same_region(a, v, 0) ==> translate(old, root, a) is Some
            && translate(new, root, a) == Some((translate(old, root, a)->Some_0.0, (nf | 1u64) & 0x8070_0000_0000_01ffu64))
            && leaf_level(new, root, a) == 0,
        forall|a: u64| !#[trigger] same_region(a, v, 0) ==> translate(new, root, a) == translate(old, root, a)
            && leaf_level(new, root, a) == leaf_level(old, root, a),
{
    reveal_with_fuel(path_slot, 4);
    lemma_indices(v);
    lemma_path_slot_levels(old, root, v);
    let s = walk_mut_spec(old, root, v, 0)->Ok_0;
    assert(s == path_slot(old, root, v, 0));
    let e = old.ent(s.0, s.1);
    let ne = (e & 0x000f_ffff_ffff_f000u64) | (nf | 1u64);
    lemma_entry_arith(e, 0, 0, 0, nf);
    assert(reaches(old, root, v, 0));
    assert(old.level(s.0) == 0);
    assert(crate::paging::frame::keeps_but(old, new, s));
    assert forall|a: u64| #[trigger] same_region(a, v, 0) implies translate(old, root, a) is Some
        && translate(new, root, a) == Some((translate(old, root, a)->Some_0.0, (nf | 1u64) & 0x8070_0000_0000_01ffu64))
        && leaf_level(new, root, a) == 0 by {
        lemma_indices(a);
        lemma_region_slots(old, root, a, v, 0);
        assert(path_slot(old, root, a, 3) == path_slot(old, root, v, 3));
        assert(path_slot(old, root, a, 2) == path_slot(old, root, v, 2));
        assert(path_slot(old, root, a, 1) == path_slot(old, root, v, 1));
        assert(path_slot(old, root, a, 0) == s);
        lemma_path_slot_levels(old, root, a);
        let p3 = path_slot(old, root, a, 3);
        let p2 = path_slot(old, root, a, 2);
        let p1 = path_slot(old, root, a, 1);
        assert(p3 != s && p2 != s && p1 != s);
        assert(new.ent(p3.0, p3.1) == old.ent(p3.0, p3.1));
        assert(new.ent(p2.0, p2.1) == old.ent(p2.0, p2.1));
        assert(new.ent(p1.0, p1.1) == old.ent(p1.0, p1.1));
        assert(path_slot(new, root, a, 0) == s);
    }
    assert forall|a: u64| !#[trigger] same_region(a, v, 0) implies translate(new, root, a) == translate(old, root, a)
        && leaf_level(new, root, a) == leaf_level(old, root, a) by {
        lemma_indices(a);
        lemma_path_slot_levels(old, root, a);
        if visits(old, root, a, s) {
            assert(reaches(old, root, a, 0) && path_slot(old, root, a, 0) == s);
            lemma_region(old, root, a, v, 0);
        }
        lemma_frame(old, new, root, a, s);
    }
    assert forall|a: u64| #[trigger] translate(new, root, a) is Some == translate(old, root, a) is Some
        && (translate(old, root, a) is Some ==> translate(new, root, a)->Some_0.0 == translate(old, root, a)->Some_0.0) by {
        if same_region(a, v, 0) {
        } else {
        }
    }
    assert forall|t: int, j: int| 0 <= t < new.len() && 0 <= j < 512 && 1 <= new.level(t) <= 2
        && is_present_bits(#[trigger] new.ent(t, j)) && is_huge_bits(new.ent(t, j))
        implies address_bits(new.ent(t, j)) + region_size(new.level(t)) <= PHYS_LIMIT by {
        assert((t, j) != s);
    }
    assert forall|a: u64| #[trigger] pml4_huge(new, root, a) == pml4_huge(old, root, a) by {
        lemma_indices(a);
        let p3 = path_slot(old, root, a, 3);
        assert(p3 != s);
        assert(new.ent(p3.0, p3.1) == old.ent(p3.0, p3.1));
    }
}

/// Keeping addresses composes.
pub proof fn lemma_addr_kept_trans(m0: &PtMem, m1: &PtMem, m2: &PtMem, root: int)
    requires
        addr_kept(m0, m1, root),
        addr_kept(m1, m2, root),
    ensures
        addr_kept(m0, m2, root),
{
    assert forall|a: u64| #[trigger] translate(m2, root, a) is Some == translate(m0, root, a) is Some
        && (translate(m0, root, a) is Some ==> translate(m2, root, a)->Some_0.0 == translate(m0, root, a)->Some_0.0) by {
        assert(translate(m1, root, a) is Some == translate(m0, root, a) is Some);
    }
}

/// The entry a merge writes keeps the first entry's address and is present
/// and huge.
pub proof fn lemma_merged_bits(e: u64)
    ensures
        ((e & 0x000f_ffff_ffff_f000u64) | ((e & 0x8070_0000_0000_01ffu64) & !0x20u64 & !0x40u64) | 0x80u64 | 0x1u64)
            & 0x000f_ffff_ffff_f000u64 == e & 0x000f_ffff_ffff_f000u64,
        ((e & 0x000f_ffff_ffff_f000u64) | ((e & 0x8070_0000_0000_01ffu64) & !0x20u64 & !0x40u64) | 0x80u64 | 0x1u64) & 1u64 != 0,
        ((e & 0x000f_ffff_ffff_f000u64) | ((e & 0x8070_0000_0000_01ffu64) & !0x20u64 & !0x40u64) | 0x80u64 | 0x1u64) & 0x80u64 != 0,
{
    assert({
        let m = (e & 0x000f_ffff_ffff_f000u64) | ((e & 0x8070_0000_0000_01ffu64) & !0x20u64 & !0x40u64) | 0x80u64 | 0x1u64;
        &&& m & 0x000f_ffff_ffff_f000u64 == e & 0x000f_ffff_ffff_f000u64
        &&& m & 1u64 != 0
        &&& m & 0x80u64 != 0
    }) by (bit_vector);
}

/// Tables with the same entries at the same place translate alike.
pub proof fn lemma_same_tables(old: &PtMem, new: &PtMem, root: int, a: u64)
    requires
        new.tabs@ == old.tabs@,
        new.base == old.base,
    ensures
        translate(new, root, a) == translate(old, root, a),
{
    reveal_with_fuel(path_slot, 4);
    assert(path_slot(new, root, a, 3) == path_slot(old, root, a, 3));
    assert(path_slot(new, root, a, 2) == path_slot(old, root, a, 2));
    assert(path_slot(new, root, a, 1) == path_slot(old, root, a, 1));
    assert(path_slot(new, root, a, 0) == path_slot(old, root, a, 0));
}

/// Merging the table that the walk for `v` reaches at level `lvl` into one
/// huge page keeps the physical address of every address, and maps no
/// other address.
pub proof fn lemma_merge_kept(old: &PtMem, new: &PtMem, root: int, v: u64, lvl: int)
    requires
        old.wf(),
        is_root(old, root),
        1 <= lvl <= 2,
        walk_mut_spec(old, root, v, lvl) is Ok,
        ({
            let s = walk_mut_spec(old, root, v, lvl)->Ok_0;
            let c = old.child(old.ent(s.0, s.1));
            &&& is_present_bits(old.ent(s.0, s.1)) && !is_huge_bits(old.ent(s.0, s.1))
            &&& forall|i: int| 0 <= i < 512 ==> !#[trigger] crate::paging::exco::merge_bad(old, c, lvl, i)
            &&& crate::paging::exco::set_slot(old, new, s, crate::paging::exco::merged_entry(old, c))
        }),
    ensures
        addr_kept(old, new, root),
{
    reveal_with_fuel(path_slot, 4);
    lemma_indices(v);
    lemma_path_slot_levels(old, root, v);
    let s = walk_mut_spec(old, root, v, lvl)->Ok_0;
    assert(s == path_slot(old, root, v, lvl));
    assert(old.level(s.0) == lvl);
    assert(old.is_ptr_slot(s.0, s.1));
    let c = old.child(old.ent(s.0, s.1));
    let first = old.ent(c, 0);
    lemma_merged_bits(first);
    assert(crate::paging::frame::keeps_but(old, new, s));
    assert forall|a: u64| #[trigger] translate(new, root, a) is Some == translate(old, root, a) is Some
        && (translate(old, root, a) is Some ==> translate(new, root, a)->Some_0.0 == translate(old, root, a)->Some_0.0) by {
        lemma_indices(a);
        lemma_path_slot_levels(old, root, a);
        if visits(old, root, a, s) {
            assert(reaches(old, root, a, lvl) && path_slot(old, root, a, lvl) == s);
            assert(reaches(old, root, v, lvl));
            lemma_region(old, root, a, v, lvl);
            lemma_region_slots(old, root, a, v, lvl);
            let p3 = path_slot(old, root, a, 3);
            assert(new.ent(p3.0, p3.1) == old.ent(p3.0, p3.1) || p3 == s);
            if lvl == 1 {
                let p2 = path_slot(old, root, a, 2);
                assert(p2 != s && p3 != s);
                assert(new.ent(p2.0, p2.1) == old.ent(p2.0, p2.1));
                assert(path_slot(new, root, a, 1) == s);
                let i = (a >> 12u64) & 0x1ffu64;
                assert(path_slot(old, root, a, 0) == (c, i as int));
                assert(!crate::paging::exco::merge_bad(old, c, lvl, i as int));
                lemma_entry_arith(first, a, i, 0, 0);
            } else {
                assert(p3 != s);
                assert(path_slot(new, root, a, 2) == s);
                let i = (a >> 21u64) & 0x1ffu64;
                assert(path_slot(old, root, a, 1) == (c, i as int));
                assert(!crate::paging::exco::merge_bad(old, c, lvl, i as int));
                lemma_entry_arith(first, a, i, 0, 0);
            }
        } else {
            lemma_frame(old, new, root, a, s);
        }
    }
}

/// A merge attempt, successful or not, keeps every address.
pub proof fn lemma_merge_step(old: &PtMem, new: &PtMem, root: int, v: u64, lvl: int, r: Result<(), crate::paging::table::PtError>)
    requires
        old.wf(),
        is_root(old, root),
        1 <= lvl <= 2,
        crate::paging::exco::merge_outcome(old, new, root, v, lvl, r),
    ensures
        addr_kept(old, new, root),
        crate::paging::frame::no_pml4_huge(old, root) ==> crate::paging::frame::no_pml4_huge(new, root),
{
    if r is Ok {
        lemma_merge_kept(old, new, root, v, lvl);
        reveal_with_fuel(path_slot, 4);
        lemma_indices(v);
        lemma_path_slot_levels(old, root, v);
        let s = walk_mut_spec(old, root, v, lvl)->Ok_0;
        assert(s == path_slot(old, root, v, lvl));
        assert(old.level(s.0) == lvl);
        assert forall|a: u64| #[trigger] pml4_huge(new, root, a) implies pml4_huge(old, root, a) by {
            lemma_indices(a);
            assert(path_slot(new, root, a, 3) == path_slot(old, root, a, 3));
            assert(path_slot(old, root, a, 3).0 == root);
        }
    } else {
        assert forall|a: u64| #[trigger] translate(new, root, a) is Some == translate(old, root, a) is Some
            && (translate(old, root, a) is Some ==> translate(new, root, a)->Some_0.0 == translate(old, root, a)->Some_0.0) by {
            if new.tabs@ == old.tabs@ && new.base == old.base {
                lemma_same_tables(old, new, root, a);
            }
        }
        assert forall|a: u64| #[trigger] pml4_huge(new, root, a) implies pml4_huge(old, root, a) by {
            assert(path_slot(new, root, a, 3) == path_slot(old, root, a, 3));
        }
    }
}

/// Whether the walk for `v` reaches a slot at `lvl` that maps a huge page.
pub open spec fn huge_at(mem: &PtMem, root: int, v: u64, lvl: int) -> bool {
    walk_mut_spec(mem, root, v, lvl) matches Ok(s) && is_present_bits(mem.ent(s.0, s.1)) && is_huge_bits(mem.ent(s.0, s.1))
}

/// After the huge page at level `lvl` that holds `v` is split, the walk for
/// `v` no longer ends in a huge page at that level; a split at level 1
/// leaves the walk at level 2 as it was.
pub proof fn lemma_split_unhuge(old: &PtMem, new: &PtMem, root: int, w: u64, lvl: int, v: u64)
    requires
        old.wf(),
        is_root(old, root),
        1 <= lvl <= 2,
        walk_mut_spec(old, root, w, lvl) is Ok,
        ({
            let s = walk_mut_spec(old, root, w, lvl)->Ok_0;
            is_present_bits(old.ent(s.0, s.1)) && is_huge_bits(old.ent(s.0, s.1)) && split_slot(old, new, s, lvl)
        }),
        same_region(w, v, lvl),
    ensures
        !huge_at(new, root, v, lvl),
        lvl == 1 ==> huge_at(new, root, v, 2) == huge_at(old, root, v, 2),
{
    reveal_with_fuel(path_slot, 4);
    lemma_indices(v);
    lemma_indices(w);
    lemma_path_slot_levels(old, root, w);
    lemma_path_slot_levels(old, root, v);
    let s = walk_mut_spec(old, root, w, lvl)->Ok_0;
    assert(s == path_slot(old, root, w, lvl));
    lemma_region_slots(old, root, v, w, lvl);
    assert(path_slot(old, root, v, lvl) == s);
    assert(old.level(s.0) == lvl);
    let p3 = path_slot(old, root, v, 3);
    assert(p3 != s);
    assert(new.ent(p3.0, p3.1) == old.ent(p3.0, p3.1));
    if lvl == 1 {
        let p2 = path_slot(old, root, v, 2);
        assert(p2 != s);
        assert(new.ent(p2.0, p2.1) == old.ent(p2.0, p2.1));
        assert(path_slot(new, root, v, 2) == p2);
        assert(path_slot(new, root, v, 1) == s);
    } else {
        assert(path_slot(new, root, v, 2) == s);
    }
}

/// An address that shares its indices down to level 1 (or 2) with an
/// aligned huge page at `v` shares all four indices with the address of
/// that page at the same offset.
pub proof fn lemma_block_offset(a: u64, v: u64)
    ensures
        v & 0x1f_ffffu64 == 0 && v + 0x20_0000 <= u64::MAX && same_region(a, v, 1) ==> {
            let b = (v + (a & 0x1f_ffffu64)) as u64;
            &&& v <= b < v + 0x20_0000
            &&& same_region(a, b, 0)
        },
        v & 0x3fff_ffffu64 == 0 && v + 0x4000_0000 <= u64::MAX && same_region(a, v, 2) ==> {
            let b = (v + (a & 0x3fff_ffffu64)) as u64;
            &&& v <= b < v + 0x4000_0000
            &&& same_region(a, b, 0)
        },
{
    assert({
        let b1 = (v + (a & 0x1f_ffffu64)) as u64;
        let b2 = (v + (a & 0x3fff_ffffu64)) as u64;
        &&& (v & 0x1f_ffffu64 == 0 && v + 0x20_0000 <= u64::MAX
            && (a >> 39u64) & 0x1ffu64 == (v >> 39u64) & 0x1ffu64 && (a >> 30u64) & 0x1ffu64 == (v >> 30u64) & 0x1ffu64
            && (a >> 21u64) & 0x1ffu64 == (v >> 21u64) & 0x1ffu64 ==>
            v <= b1 && b1 < v + 0x20_0000
            && (a >> 39u64) & 0x1ffu64 == (b1 >> 39u64) & 0x1ffu64 && (a >> 30u64) & 0x1ffu64 == (b1 >> 30u64) & 0x1ffu64
            && (a >> 21u64) & 0x1ffu64 == (b1 >> 21u64) & 0x1ffu64 && (a >> 12u64) & 0x1ffu64 == (b1 >> 12u64) & 0x1ffu64)
        &&& (v & 0x3fff_ffffu64 == 0 && v + 0x4000_0000 <= u64::MAX
            && (a >> 39u64) & 0x1ffu64 == (v >> 39u64) & 0x1ffu64 && (a >> 30u64) & 0x1ffu64 == (v >> 30u64) & 0x1ffu64 ==>
            v <= b2 && b2 < v + 0x4000_0000
            && (a >> 39u64) & 0x1ffu64 == (b2 >> 39u64) & 0x1ffu64 && (a >> 30u64) & 0x1ffu64 == (b2 >> 30u64) & 0x1ffu64
            && (a >> 21u64) & 0x1ffu64 == (b2 >> 21u64) & 0x1ffu64 && (a >> 12u64) & 0x1ffu64 == (b2 >> 12u64) & 0x1ffu64)
    }) by (bit_vector);
}

/// Clearing a slot keeps every huge page below the physical limit.
pub proof fn lemma_clear_huge_frames(old: &PtMem, new: &PtMem, s: (int, int))
    requires
        huge_frames_ok(old),
        crate::paging::exco::set_slot(old, new, s, 0),
    ensures
        huge_frames_ok(new),
{
    assert forall|t: int, j: int| 0 <= t < new.len() && 0 <= j < 512 && 1 <= new.level(t) <= 2
        && is_present_bits(#[trigger] new.ent(t, j)) && is_huge_bits(new.ent(t, j))
        implies address_bits(new.ent(t, j)) + region_size(new.level(t)) <= PHYS_LIMIT by {
        if (t, j) == s {
            crate::paging::table::lemma_zero_flags();
        }
    }
}

/// Addresses with the same indices down to level `lvl` have the same walk
/// down to that level.
pub proof fn lemma_walk_same_region(mem: &PtMem, root: int, a: u64, b: u64, lvl: int)
    requires
        0 <= lvl <= 2,
        same_region(a, b, lvl),
    ensures
        walk_mut_spec(mem, root, a, lvl) == walk_mut_spec(mem, root, b, lvl),
{
    reveal_with_fuel(path_slot, 4);
    lemma_region_slots(mem, root, a, b, lvl);
    assert(path_slot(mem, root, a, 3) == path_slot(mem, root, b, 3));
    assert(path_slot(mem, root, a, 2) == path_slot(mem, root, b, 2));
    if lvl <= 1 {
        assert(path_slot(mem, root, a, 1) == path_slot(mem, root, b, 1));
    }
    if lvl == 0 {
        assert(path_slot(mem, root, a, 0) == path_slot(mem, root, b, 0));
    }
}

/// A mapped address whose walk ends in no huge page is mapped by a present
/// 4 KiB entry that the walk down to level 0 reaches.
pub proof fn lemma_mapped_small(mem: &PtMem, root: int, v: u64)
    requires
        translate(mem, root, v) is Some,
        !huge_at(mem, root, v, 2),
        !huge_at(mem, root, v, 1),
    ensures
        walk_mut_spec(mem, root, v, 0) is Ok,
        is_present_bits(mem.ent(walk_mut_spec(mem, root, v, 0)->Ok_0.0, walk_mut_spec(mem, root, v, 0)->Ok_0.1)),
{
}

/// Whether a merge at `v` on level `lvl` (1 for 2 MiB, 2 for 1 GiB) would
/// succeed: the walk reaches a slot there that points to a table whose 512
/// entries map one contiguous range with the same flags.
pub open spec fn mergeable(mem: &PtMem, root: int, v: u64, lvl: int) -> bool {
    walk_mut_spec(mem, root, v, lvl) matches Ok(s)
        && is_present_bits(mem.ent(s.0, s.1)) && !is_huge_bits(mem.ent(s.0, s.1))
        && forall|i: int| 0 <= i < 512 ==> !#[trigger] merge_bad(mem, mem.child(mem.ent(s.0, s.1)), lvl, i)
}

/// After a merge attempt at the aligned `v` on level `lvl`, neither the
/// block at `v` itself nor any block at a level up to `lvl` that could not
/// be merged before can be merged.
pub proof fn lemma_merge_unmergeable(old: &PtMem, new: &PtMem, root: int, v: u64, lvl: int, r: Result<(), PtError>, w: u64, k: int)
    requires
        old.wf(),
        is_root(old, root),
        crate::paging::frame::no_pml4_huge(old, root),
        1 <= lvl <= 2,
        1 <= k <= lvl,
        v & (if lvl == 1 { 0x1f_ffffu64 } else { 0x3fff_ffffu64 }) == 0,
        merge_outcome(old, new, root, v, lvl, r),
        (w == v && k == lvl) || !mergeable(old, root, w, k),
    ensures
        !mergeable(new, root, w, k),
{
    reveal_with_fuel(path_slot, 4);
    lemma_indices(v);
    lemma_indices(w);
    lemma_path_slot_levels(old, root, v);
    lemma_path_slot_levels(old, root, w);
    if r is Ok {
        let s = walk_mut_spec(old, root, v, lvl)->Ok_0;
        assert(s == path_slot(old, root, v, lvl));
        assert(old.level(s.0) == lvl);
        let c = old.child(old.ent(s.0, s.1));
        lemma_merged_bits(old.ent(c, 0));
        assert(is_present_bits(new.ent(s.0, s.1)) && is_huge_bits(new.ent(s.0, s.1)));
        let p3 = path_slot(old, root, w, 3);
        assert(!pml4_huge(old, root, w));
        assert(p3 != s);
        assert(path_slot(new, root, w, 3) == p3);
        assert(new.ent(p3.0, p3.1) == old.ent(p3.0, p3.1));
        if visits(old, root, w, s) {
            assert(reaches(old, root, w, lvl) && path_slot(old, root, w, lvl) == s);
            if lvl == 1 {
                let p2 = path_slot(old, root, w, 2);
                assert(p2 != s);
                assert(path_slot(new, root, w, 2) == p2);
                assert(new.ent(p2.0, p2.1) == old.ent(p2.0, p2.1));
                assert(path_slot(new, root, w, 1) == s);
            } else {
                assert(path_slot(new, root, w, 2) == s);
            }
        } else {
            let e3 = path_ent(old, root, w, 3);
            if is_present_bits(e3) {
                let p2 = path_slot(old, root, w, 2);
                assert(visits(old, root, w, p2) || is_huge_bits(e3));
                if !is_huge_bits(e3) {
                    assert(p2 != s);
                    assert(path_slot(new, root, w, 2) == p2);
                    assert(new.ent(p2.0, p2.1) == old.ent(p2.0, p2.1));
                    let e2 = path_ent(old, root, w, 2);
                    if k == 2 {
                        assert(walk_mut_spec(new, root, w, k) == Ok::<(int, int), PtError>(p2));
                        if is_present_bits(e2) && !is_huge_bits(e2) {
                            let cw = old.child(e2);
                            assert(old.level(cw) == 1);
                            assert forall|i: int| 0 <= i < 512 implies #[trigger] new.ent(cw, i) == old.ent(cw, i) by {}
                            assert(exists|i: int| 0 <= i < 512 && #[trigger] merge_bad(old, cw, k, i));
                            let i = choose|i: int| 0 <= i < 512 && #[trigger] merge_bad(old, cw, k, i);
                            assert(merge_bad(new, cw, k, i));
                        }
                    } else if is_present_bits(e2) && !is_huge_bits(e2) {
                        let p1 = path_slot(old, root, w, 1);
                        assert(visits(old, root, w, p1));
                        assert(p1 != s);
                        assert(path_slot(new, root, w, 1) == p1);
                        assert(new.ent(p1.0, p1.1) == old.ent(p1.0, p1.1));
                        let e1 = path_ent(old, root, w, 1);
                        assert(walk_mut_spec(new, root, w, k) == Ok::<(int, int), PtError>(p1));
                        if is_present_bits(e1) && !is_huge_bits(e1) {
                            let cw = old.child(e1);
                            assert(old.level(cw) == 0);
                            assert forall|i: int| 0 <= i < 512 implies #[trigger] new.ent(cw, i) == old.ent(cw, i) by {}
                            assert(exists|i: int| 0 <= i < 512 && #[trigger] merge_bad(old, cw, k, i));
                            let i = choose|i: int| 0 <= i < 512 && #[trigger] merge_bad(old, cw, k, i);
                            assert(merge_bad(new, cw, k, i));
                            assert(new.child(new.ent(p1.0, p1.1)) == cw);
                        }
                    }
                }
            }
        }
    } else {
        assert(path_slot(new, root, w, 3) == path_slot(old, root, w, 3));
        assert(path_slot(new, root, w, 2) == path_slot(old, root, w, 2));
        assert(path_slot(new, root, w, 1) == path_slot(old, root, w, 1));
        if mergeable(old, root, w, k) {
            assert(w == v && k == lvl);
            let s = walk_mut_spec(old, root, v, lvl)->Ok_0;
            let c = old.child(old.ent(s.0, s.1));
            assert(forall|i: int| 0 <= i < 512 ==> !#[trigger] merge_bad(old, c, lvl, i));
        }
        if mergeable(new, root, w, k) {
            let s = walk_mut_spec(new, root, w, k)->Ok_0;
            let c = new.child(new.ent(s.0, s.1));
            assert forall|i: int| 0 <= i < 512 implies !#[trigger] merge_bad(old, c, k, i) by {
                assert(!merge_bad(new, c, k, i));
            }
        }
    }
}

/// A merge attempt at the aligned `v` on level `lvl` leaves an address
/// mapped by a 4 KiB page as it was, unless (for a 2 MiB merge) the address
/// lies in the block merged: a 1 GiB merge cannot take in a 4 KiB page.
pub proof fn lemma_merge_keeps_small(old: &PtMem, new: &PtMem, root: int, v: u64, lvl: int, r: Result<(), PtError>, a: u64)
    requires
        old.wf(),
        is_root(old, root),
        1 <= lvl <= 2,
        merge_outcome(old, new, root, v, lvl, r),
        translate(old, root, a) is Some,
        leaf_level(old, root, a) == 0,
        lvl == 1 ==> !same_region(a, v, 1),
    ensures
        translate(new, root, a) == translate(old, root, a),
        leaf_level(new, root, a) == 0,
{
    reveal_with_fuel(path_slot, 4);
    lemma_indices(v);
    lemma_indices(a);
    lemma_path_slot_levels(old, root, v);
    lemma_path_slot_levels(old, root, a);
    if r is Ok {
        let s = walk_mut_spec(old, root, v, lvl)->Ok_0;
        assert(s == path_slot(old, root, v, lvl));
        assert(old.level(s.0) == lvl);
        assert(crate::paging::frame::keeps_but(old, new, s));
        if visits(old, root, a, s) {
            assert(reaches(old, root, a, lvl) && path_slot(old, root, a, lvl) == s);
            if lvl == 1 {
                assert(reaches(old, root, v, lvl));
                lemma_region(old, root, a, v, lvl);
                assert(false);
            } else {
                let c = old.child(old.ent(s.0, s.1));
                let i = pd_index(a);
                assert(path_slot(old, root, a, 1) == (c, i));
                assert(merge_bad(old, c, lvl, i));
                assert(false);
            }
        }
        lemma_frame(old, new, root, a, s);
    } else {
        assert(path_slot(new, root, a, 3) == path_slot(old, root, a, 3));
        assert(path_slot(new, root, a, 2) == path_slot(old, root, a, 2));
        assert(path_slot(new, root, a, 1) == path_slot(old, root, a, 1));
        assert(path_slot(new, root, a, 0) == path_slot(old, root, a, 0));
    }
}

}
