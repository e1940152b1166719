//! Mapping a range page by page: the pages mapped so far keep their
//! translations while the pages after them are mapped, split or given
//! tables.

use vstd::prelude::*;
use crate::paging::exco::{split_slot, updated_along};
use crate::paging::frame::{
    leaf_level, lemma_frame_walk, lemma_grow_frame, lemma_map_frame, lemma_offset_masks, lemma_path_slot_levels,
    lemma_region_translate, lemma_split_frame_leaf, lemma_split_no_pml4_huge, no_pml4_huge, region_base, region_size,
    same_region,
};
use crate::paging::entry::{is_huge_bits, is_present_bits};
use crate::paging::table::{is_root, path_slot, translate, walk_mut_spec, PtMem};
use crate::paging::walk::grows_along;

verus! {

/// Whether every address that `old` maps and whose page does not hold `v`
/// translates alike in `new`, by a page of the same level.
pub open spec fn kept_outside(old: &PtMem, new: &PtMem, root: int, v: u64) -> bool {
    forall|a: u64| translate(old, root, a) is Some && !same_region(a, v, leaf_level(old, root, a))
        ==> #[trigger] translate(new, root, a) == translate(old, root, a)
            && leaf_level(new, root, a) == leaf_level(old, root, a)
}

/// Two edits that each keep the pages apart from `v` keep them together.
pub proof fn lemma_kept_trans(m0: &PtMem, m1: &PtMem, m2: &PtMem, root: int, v: u64)
    requires
        kept_outside(m0, m1, root, v),
        kept_outside(m1, m2, root, v),
    ensures
        kept_outside(m0, m2, root, v),
{
    assert forall|a: u64| translate(m0, root, a) is Some && !same_region(a, v, leaf_level(m0, root, a))
        implies #[trigger] translate(m2, root, a) == translate(m0, root, a)
            && leaf_level(m2, root, a) == leaf_level(m0, root, a) by {
        assert(translate(m1, root, a) == translate(m0, root, a));
    }
}

/// New tables along one walk change no translation.
pub proof fn lemma_kept_grow(old: &PtMem, new: &PtMem, root: int, w: u64, lo: int, v: u64)
    requires
        old.wf(),
        is_root(old, root),
        grows_along(old, new, root, w, lo),
        no_pml4_huge(old, root),
    ensures
        kept_outside(old, new, root, v),
        no_pml4_huge(new, root),
{
    assert forall|a: u64| translate(old, root, a) is Some && !same_region(a, v, leaf_level(old, root, a))
        implies #[trigger] translate(new, root, a) == translate(old, root, a)
            && leaf_level(new, root, a) == leaf_level(old, root, a) by {
        lemma_grow_frame(old, new, root, w, lo, a);
    }
    crate::paging::frame::lemma_grow_no_pml4_huge(old, new, root, w, lo);
}

/// Writing the 4 KiB slot of `v` keeps every page that does not hold `v`.
pub proof fn lemma_kept_map4k(old: &PtMem, new: &PtMem, root: int, v: u64, e: u64)
    requires
        old.wf(),
        new.wf(),
        is_root(old, root),
        updated_along(old, new, root, v, 0, e),
    ensures
        kept_outside(old, new, root, v),
{
    assert forall|a: u64| translate(old, root, a) is Some && !same_region(a, v, leaf_level(old, root, a))
        implies #[trigger] translate(new, root, a) == translate(old, root, a)
            && leaf_level(new, root, a) == leaf_level(old, root, a) by {
        lemma_map_frame(old, new, root, v, 0, e, a);
    }
}

/// Splitting the huge page at level `lvl` that the walk for `w` reaches
/// keeps every page that does not hold `v`, where `w` and `v` lie in one
/// region of that level.
pub proof fn lemma_kept_split(old: &PtMem, new: &PtMem, root: int, w: u64, lvl: int, v: u64)
    requires
        old.wf(),
        is_root(old, root),
        1 <= lvl <= 2,
        walk_mut_spec(old, root, w, lvl) is Ok,
        ({
            let s = walk_mut_spec(old, root, w, lvl)->Ok_0;
            is_present_bits(old.ent(s.0, s.1)) && is_huge_bits(old.ent(s.0, s.1)) && split_slot(old, new, s, lvl)
        }),
        same_region(w, v, lvl),
        no_pml4_huge(old, root),
    ensures
        kept_outside(old, new, root, v),
        no_pml4_huge(new, root),
{
    assert forall|a: u64| translate(old, root, a) is Some && !same_region(a, v, leaf_level(old, root, a))
        implies #[trigger] translate(new, root, a) == translate(old, root, a)
            && leaf_level(new, root, a) == leaf_level(old, root, a) by {
        lemma_split_frame_leaf(old, new, root, w, lvl, a);
    }
    reveal_with_fuel(path_slot, 4);
    lemma_path_slot_levels(old, root, w);
    let s = walk_mut_spec(old, root, w, lvl)->Ok_0;
    assert(s == path_slot(old, root, w, lvl));
    lemma_split_no_pml4_huge(old, new, root, s, lvl);
}

/// The flags of a leaf at level `k` of a run whose 4 KiB leaves have the
/// flags `fl`: huge leaves have the huge-page bit besides.
pub open spec fn run_flags(fl: u64, k: int) -> u64 {
    if k == 0 { fl } else { fl | 0x80u64 }
}

/// Whether `a` is mapped to `paddr` plus its offset from `vaddr`, with the
/// flags [`run_flags`]`(fl, k)` for its leaf level `k`, by a page that lies
/// whole inside `[vaddr, cur)`.
pub open spec fn run_page(mem: &PtMem, root: int, vaddr: u64, paddr: int, fl: u64, cur: int, a: u64) -> bool {
    let k = leaf_level(mem, root, a);
    &&& translate(mem, root, a) is Some
    &&& translate(mem, root, a)->Some_0.0 == paddr + (a - vaddr)
    &&& translate(mem, root, a)->Some_0.1 == run_flags(fl, k)
    &&& vaddr <= region_base(a, k)
    &&& region_base(a, k) + region_size(k) <= cur
}

/// Whether `[vaddr, cur)` is mapped to `[paddr, paddr + (cur - vaddr))`
/// with the flags `fl`, page by page.
pub open spec fn maps_run(mem: &PtMem, root: int, vaddr: u64, paddr: int, fl: u64, cur: int) -> bool {
    forall|a: u64| vaddr <= a < cur ==> #[trigger] run_page(mem, root, vaddr, paddr, fl, cur, a)
}

/// An empty run.
pub proof fn lemma_run_empty(mem: &PtMem, root: int, vaddr: u64, paddr: int, fl: u64)
    ensures
        maps_run(mem, root, vaddr, paddr, fl, vaddr as int),
{
}

/// A page whose region lies below `b`, less than 2^48 bytes from `b`, does
/// not share its table indices with `b` down to its own level.
pub proof fn lemma_apart(a: u64, b: u64, k: int)
    requires
        0 <= k <= 2,
        region_base(a, k) + region_size(k) <= b,
        b - region_base(a, k) < 0x1_0000_0000_0000,
    ensures
        !same_region(a, b, k),
{
    lemma_offset_masks(a);
    assert({
        let x0 = a & !0xfffu64;
        let x1 = a & !0x1f_ffffu64;
        let x2 = a & !0x3fff_ffffu64;
        let same2 = (a >> 39u64) & 0x1ffu64 == (b >> 39u64) & 0x1ffu64 && (a >> 30u64) & 0x1ffu64 == (b >> 30u64) & 0x1ffu64;
        let same1 = same2 && (a >> 21u64) & 0x1ffu64 == (b >> 21u64) & 0x1ffu64;
        let same0 = same1 && (a >> 12u64) & 0x1ffu64 == (b >> 12u64) & 0x1ffu64;
        &&& (x0 < b && b - x0 >= 0x1000 && b - x0 < 0x1_0000_0000_0000u64 ==> !same0)
        &&& (x1 < b && b - x1 >= 0x20_0000 && b - x1 < 0x1_0000_0000_0000u64 ==> !same1)
        &&& (x2 < b && b - x2 >= 0x4000_0000 && b - x2 < 0x1_0000_0000_0000u64 ==> !same2)
    }) by (bit_vector);
}

/// The addresses of the aligned block of level `k` at `b` share its
/// indices down to level `k`, and lie at their offsets from `b`.
pub proof fn lemma_in_block(a: u64, b: u64, k: int)
    requires
        0 <= k <= 2,
        b as int % region_size(k) == 0,
        b <= a < b + region_size(k),
    ensures
        same_region(a, b, k),
        a as int % region_size(k) == a - b,
{
    lemma_offset_masks(a);
    lemma_offset_masks(b);
    assert({
        let same2 = (a >> 39u64) & 0x1ffu64 == (b >> 39u64) & 0x1ffu64 && (a >> 30u64) & 0x1ffu64 == (b >> 30u64) & 0x1ffu64;
        let same1 = same2 && (a >> 21u64) & 0x1ffu64 == (b >> 21u64) & 0x1ffu64;
        let same0 = same1 && (a >> 12u64) & 0x1ffu64 == (b >> 12u64) & 0x1ffu64;
        &&& (b & 0xfffu64 == 0 && b <= a && a - b < 0x1000 ==> same0 && a & 0xfffu64 == a - b)
        &&& (b & 0x1f_ffffu64 == 0 && b <= a && a - b < 0x20_0000 ==> same1 && a & 0x1f_ffffu64 == a - b)
        &&& (b & 0x3fff_ffffu64 == 0 && b <= a && a - b < 0x4000_0000 ==> same2 && a & 0x3fff_ffffu64 == a - b)
    }) by (bit_vector);
}

/// An edit that keeps the pages apart from `b`, at or past the end of the
/// run and less than 2^48 bytes from its start, keeps the run.
pub proof fn lemma_run_kept(old: &PtMem, new: &PtMem, root: int, vaddr: u64, paddr: int, fl: u64, cur: int, b: u64)
    requires
        maps_run(old, root, vaddr, paddr, fl, cur),
        kept_outside(old, new, root, b),
        cur <= b,
        b - vaddr < 0x1_0000_0000_0000,
    ensures
        maps_run(new, root, vaddr, paddr, fl, cur),
{
    assert forall|a: u64| vaddr <= a < cur implies #[trigger] run_page(new, root, vaddr, paddr, fl, cur, a) by {
        assert(run_page(old, root, vaddr, paddr, fl, cur, a));
        let k = leaf_level(old, root, a);
        lemma_apart(a, b, k);
        assert(translate(new, root, a) == translate(old, root, a));
    }
}

/// Writing the slot at level `lvl` for `b`, aligned to that level and
/// whose block ends at most 2^48 bytes past the start of the run, keeps the
/// run that ends at or before `b`.
pub proof fn lemma_run_after_map(old: &PtMem, new: &PtMem, root: int, vaddr: u64, paddr: int, fl: u64, cur: int, b: u64, lvl: int, e: u64)
    requires
        old.wf(),
        new.wf(),
        is_root(old, root),
        0 <= lvl <= 2,
        updated_along(old, new, root, b, lvl, e),
        maps_run(old, root, vaddr, paddr, fl, cur),
        cur <= b,
        b as int % region_size(lvl) == 0,
        b + region_size(lvl) - vaddr <= 0x1_0000_0000_0000,
    ensures
        maps_run(new, root, vaddr, paddr, fl, cur),
{
    assert forall|a: u64| vaddr <= a < cur implies #[trigger] run_page(new, root, vaddr, paddr, fl, cur, a) by {
        assert(run_page(old, root, vaddr, paddr, fl, cur, a));
        lemma_below_block(a, b, lvl);
        lemma_apart(a, b, lvl);
        lemma_map_frame(old, new, root, b, lvl, e, a);
    }
}

/// The region of level `k` that holds `a` ends at or before `b`, an
/// address aligned to that level above `a`.
pub proof fn lemma_below_block(a: u64, b: u64, k: int)
    requires
        0 <= k <= 2,
        b as int % region_size(k) == 0,
        a < b,
    ensures
        region_base(a, k) + region_size(k) <= b,
        region_base(a, k) > a - region_size(k),
{
    let s = region_size(k);
    vstd::arithmetic::div_mod::lemma_fundamental_div_mod(a as int, s);
    vstd::arithmetic::div_mod::lemma_fundamental_div_mod(b as int, s);
    let qa = a as int / s;
    let qb = b as int / s;
    let ra = a as int % s;
    assert(0 <= ra < s);
    assert(s * qa + s <= s * qb) by (nonlinear_arith)
        requires s * qa + ra == a, s * qb == b, a < b, 0 <= ra < s, s > 0;
}

/// A page of level `k` at `b`, mapped to `paddr` plus the offset of `b`
/// from `vaddr`, extends a run that ends at `b` by the page.
pub proof fn lemma_run_extend(mem: &PtMem, root: int, vaddr: u64, paddr: int, fl: u64, b: u64, k: int)
    requires
        maps_run(mem, root, vaddr, paddr, fl, b as int),
        vaddr <= b,
        0 <= k <= 2,
        b as int % region_size(k) == 0,
        b + region_size(k) <= u64::MAX,
        translate(mem, root, b) is Some,
        translate(mem, root, b)->Some_0.0 == paddr + (b - vaddr),
        translate(mem, root, b)->Some_0.1 == run_flags(fl, k),
        leaf_level(mem, root, b) == k,
    ensures
        maps_run(mem, root, vaddr, paddr, fl, b + region_size(k)),
{
    let end = b + region_size(k);
    lemma_in_block(b, b, k);
    lemma_region_translate(mem, root, b, b);
    assert forall|a: u64| vaddr <= a < end implies #[trigger] run_page(mem, root, vaddr, paddr, fl, end, a) by {
        if a < b {
            assert(run_page(mem, root, vaddr, paddr, fl, b as int, a));
        } else {
            lemma_in_block(a, b, k);
            lemma_region_translate(mem, root, b, a);
        }
    }
}

/// Clearing the offset bits of a 2 MiB or a 1 GiB page keeps the indices
/// above them.
pub proof fn lemma_base_same_region(v: u64)
    ensures
        same_region(v & !0x1f_ffffu64, v, 1),
        same_region(v & !0x3fff_ffffu64, v, 2),
{
    assert({
        let w1 = v & !0x1f_ffffu64;
        let w2 = v & !0x3fff_ffffu64;
        &&& (w1 >> 39u64) & 0x1ffu64 == (v >> 39u64) & 0x1ffu64
        &&& (w1 >> 30u64) & 0x1ffu64 == (v >> 30u64) & 0x1ffu64
        &&& (w1 >> 21u64) & 0x1ffu64 == (v >> 21u64) & 0x1ffu64
        &&& (w2 >> 39u64) & 0x1ffu64 == (v >> 39u64) & 0x1ffu64
        &&& (w2 >> 30u64) & 0x1ffu64 == (v >> 30u64) & 0x1ffu64
    }) by (bit_vector);
}

/// A 4 KiB page at `b`, the end of the run, mapped to `paddr` plus the
/// offset of `b` after an edit that keeps the pages apart from `b`,
/// extends the run by one page.
pub proof fn lemma_run_step_4k(old: &PtMem, new: &PtMem, root: int, vaddr: u64, paddr: int, fl: u64, b: u64, end: int)
    requires
        maps_run(old, root, vaddr, paddr, fl, b as int),
        kept_outside(old, new, root, b),
        vaddr <= b,
        b as int % 4096 == 0,
        b + 4096 <= end,
        end - vaddr <= 0x1_0000_0000_0000,
        end <= u64::MAX,
        translate(new, root, b) is Some,
        translate(new, root, b)->Some_0.0 == paddr + (b - vaddr),
        translate(new, root, b)->Some_0.1 == fl,
        leaf_level(new, root, b) == 0,
    ensures
        maps_run(new, root, vaddr, paddr, fl, b + 4096),
{
    lemma_run_kept(old, new, root, vaddr, paddr, fl, b as int, b);
    lemma_run_extend(new, root, vaddr, paddr, fl, b, 0);
}

/// A huge page of level `lvl` written at `b`, the end of the run, mapped to
/// `paddr` plus the offset of `b`, extends the run by the page.
pub proof fn lemma_run_step_huge(old: &PtMem, new: &PtMem, root: int, vaddr: u64, paddr: int, fl: u64, b: u64, lvl: int, e: u64, end: int)
    requires
        old.wf(),
        new.wf(),
        is_root(old, root),
        1 <= lvl <= 2,
        updated_along(old, new, root, b, lvl, e),
        maps_run(old, root, vaddr, paddr, fl, b as int),
        vaddr <= b,
        b as int % region_size(lvl) == 0,
        b + region_size(lvl) <= end,
        end - vaddr <= 0x1_0000_0000_0000,
        end <= u64::MAX,
        translate(new, root, b) is Some,
        translate(new, root, b)->Some_0.0 == paddr + (b - vaddr),
        translate(new, root, b)->Some_0.1 == fl | 0x80u64,
        leaf_level(new, root, b) == lvl,
    ensures
        maps_run(new, root, vaddr, paddr, fl, b + region_size(lvl)),
{
    lemma_run_after_map(old, new, root, vaddr, paddr, fl, b as int, b, lvl, e);
    lemma_run_extend(new, root, vaddr, paddr, fl, b, lvl);
}

} // verus!
