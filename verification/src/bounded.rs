//! Fixed-capacity vectors of the `heapless` crate, as the kernel keeps them.
//!
//! A `heapless::Vec` never allocates: it holds at most its capacity and a
//! push onto a full vector hands the item back. Verus sees such a vector
//! only through the names below, which say what it holds.

use vstd::prelude::*;

verus! {

#[verifier::external_type_specification]
#[verifier::external_body]
#[verifier::reject_recursive_types(T)]
pub struct ExHeaplessVec<T, const N: usize>(heapless::Vec<T, N>);

/// Capacity of the table of direct-mapped regions.
pub const REGION_TABLE_CAP: usize = 128;

/// Capacity of one per-CPU page cache list.
pub const PCP_CAP: usize = 32;

/// The regions held by a region table, in push order, as (base, length, kind number).
pub uninterp spec fn region_table_items(v: heapless::Vec<(usize, usize, u64), 128>) -> Seq<(usize, usize, u64)>;

/// The page frame numbers held by a per-CPU cache list, in push order.
pub uninterp spec fn pcp_items(v: heapless::Vec<usize, 32>) -> Seq<usize>;

/// `heapless::Vec::new`: an empty region table.
#[verifier::external_body]
pub(crate) fn region_table_new() -> (v: heapless::Vec<(usize, usize, u64), 128>)
    ensures
        region_table_items(v) == Seq::<(usize, usize, u64)>::empty(),
{
    heapless::Vec::new()
}

/// `heapless::Vec::push` on a region table: appends the item unless the
/// table already holds its capacity; says whether it was appended.
#[verifier::external_body]
pub(crate) fn region_table_push(v: &mut heapless::Vec<(usize, usize, u64), 128>, item: (usize, usize, u64)) -> (pushed: bool)
    ensures
        pushed == (region_table_items(*old(v)).len() < 128),
        pushed ==> region_table_items(*final(v)) == region_table_items(*old(v)).push(item),
        !pushed ==> region_table_items(*final(v)) == region_table_items(*old(v)),
{
    v.push(item).is_ok()
}

/// The length of a region table (through `heapless::Vec`'s slice view).
#[verifier::external_body]
pub(crate) fn region_table_len(v: &heapless::Vec<(usize, usize, u64), 128>) -> (n: usize)
    ensures
        n == region_table_items(*v).len(),
        n <= 128,
{
    v.len()
}

/// The item at index `i` of a region table (through `heapless::Vec`'s slice view).
#[verifier::external_body]
pub(crate) fn region_table_get(v: &heapless::Vec<(usize, usize, u64), 128>, i: usize) -> (item: (usize, usize, u64))
    requires
        i < region_table_items(*v).len(),
    ensures
        item == region_table_items(*v)[i as int],
{
    v[i]
}

/// `heapless::Vec::new`: an empty per-CPU cache list.
#[verifier::external_body]
pub(crate) fn pcp_new() -> (v: heapless::Vec<usize, 32>)
    ensures
        pcp_items(v) == Seq::<usize>::empty(),
{
    heapless::Vec::new()
}

/// `heapless::Vec::push` on a cache list: appends unless the list is full;
/// says whether it was appended.
#[verifier::external_body]
pub(crate) fn pcp_push(v: &mut heapless::Vec<usize, 32>, pfn: usize) -> (pushed: bool)
    ensures
        pushed == (pcp_items(*old(v)).len() < 32),
        pushed ==> pcp_items(*final(v)) == pcp_items(*old(v)).push(pfn),
        !pushed ==> pcp_items(*final(v)) == pcp_items(*old(v)),
{
    v.push(pfn).is_ok()
}

/// `heapless::Vec::pop` on a cache list: removes and returns the last item.
#[verifier::external_body]
pub(crate) fn pcp_pop(v: &mut heapless::Vec<usize, 32>) -> (r: Option<usize>)
    ensures
        pcp_items(*old(v)).len() == 0 ==> r is None && pcp_items(*final(v)) == pcp_items(*old(v)),
        pcp_items(*old(v)).len() > 0 ==> r == Some(pcp_items(*old(v)).last())
            && pcp_items(*final(v)) == pcp_items(*old(v)).drop_last(),
{
    v.pop()
}

/// `heapless::Vec::is_full` on a cache list.
#[verifier::external_body]
pub(crate) fn pcp_is_full(v: &heapless::Vec<usize, 32>) -> (b: bool)
    ensures
        b == (pcp_items(*v).len() >= 32),
{
    v.is_full()
}

/// The length of a cache list (through `heapless::Vec`'s slice view).
#[verifier::external_body]
pub(crate) fn pcp_len(v: &heapless::Vec<usize, 32>) -> (n: usize)
    ensures
        n == pcp_items(*v).len(),
        n <= 32,
{
    v.len()
}

/// `heapless::Vec::clear` on a cache list.
#[verifier::external_body]
pub(crate) fn pcp_clear(v: &mut heapless::Vec<usize, 32>)
    ensures
        pcp_items(*final(v)) == Seq::<usize>::empty(),
{
    v.clear()
}

/// The item at index `i` of a cache list (through `heapless::Vec`'s slice view).
#[verifier::external_body]
pub(crate) fn pcp_get(v: &heapless::Vec<usize, 32>, i: usize) -> (item: usize)
    requires
        i < pcp_items(*v).len(),
    ensures
        item == pcp_items(*v)[i as int],
{
    v[i]
}

} // verus!
