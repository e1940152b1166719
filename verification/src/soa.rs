//! The slab object allocator: small objects of nine size classes (8 to
//! 2048 bytes), carved out of pages. Each class keeps its slabs (pages)
//! with free objects on a partial list and its exhausted slabs on a full
//! list; a slab's free objects form a stack.

use vstd::prelude::*;
use crate::bsa::Bsa;
use crate::ema::{EarlyMemAlloc, align_up_4k};
use crate::pfm::Pfm;
use crate::upa::{Backend, Upa};

verus! {

/// Size of a slab.
pub const PAGE_SIZE: usize = 4096;

/// Offset of a slab's first object (after the slab header, 8-aligned).
pub const FIRST_OBJ_OFFSET: usize = 40;

/// Number of size classes.
pub const NUM_CLASSES: usize = 9;

/// The object size of class `i`: 8 << i.
pub open spec fn class_size(i: int) -> usize {
    if i == 0 { 8 } else if i == 1 { 16 } else if i == 2 { 32 } else if i == 3 { 64 } else if i == 4 { 128 }
    else if i == 5 { 256 } else if i == 6 { 512 } else if i == 7 { 1024 } else { 2048 }
}

/// The object size of class `i`.
pub fn class_size_of(i: usize) -> (s: usize)
    requires
        i < NUM_CLASSES,
    ensures
        s == class_size(i as int),
{
    if i == 0 { 8 } else if i == 1 { 16 } else if i == 2 { 32 } else if i == 3 { 64 } else if i == 4 { 128 }
    else if i == 5 { 256 } else if i == 6 { 512 } else if i == 7 { 1024 } else { 2048 }
}

/// A slab: the page at `base` and its free objects (the last one is the
/// next to be handed out).
pub struct Slab {
    /// The page's address.
    pub base: usize,
    /// The free objects.
    pub free: Vec<usize>,
}

impl View for Slab {
    type V = (usize, Seq<usize>);

    open spec fn view(&self) -> (usize, Seq<usize>) {
        (self.base, self.free@)
    }
}

/// The views of `v`.
pub open spec fn slabs_view(v: Seq<Slab>) -> Seq<(usize, Seq<usize>)> {
    v.map_values(|s: Slab| s@)
}

/// The address of object `k` of the slab at `base` in a class of `size`.
pub open spec fn obj_addr(base: usize, size: usize, k: int) -> int {
    base + FIRST_OBJ_OFFSET + k * size
}

/// The free list of a fresh slab at `base`: every object, in address order.
pub open spec fn fresh_free(base: usize, size: usize, n: int) -> Seq<usize> {
    Seq::new(n as nat, |k: int| obj_addr(base, size, k) as usize)
}

/// Whether `x` is the address of one of the `n` objects of `size` bytes of
/// the slab at `base`.
pub open spec fn is_obj(base: usize, size: usize, n: usize, x: int) -> bool {
    &&& base + FIRST_OBJ_OFFSET <= x < base + FIRST_OBJ_OFFSET + n * size
    &&& (x - (base + FIRST_OBJ_OFFSET)) % (size as int) == 0
}

/// Whether slab `s` of a class with `n` objects of `size` bytes is in
/// order: its page is aligned, and its free objects are objects of it,
/// none of them twice.
pub open spec fn slab_ok(s: Slab, size: usize, n: usize) -> bool {
    &&& s.base % PAGE_SIZE == 0
    &&& s.base + PAGE_SIZE <= usize::MAX
    &&& s.free@.no_duplicates()
    &&& forall|m: int| 0 <= m < s.free@.len() ==> is_obj(s.base, size, n, #[trigger] s.free@[m] as int)
}

/// Whether no two slabs of `v` share a page.
pub open spec fn bases_distinct(v: Seq<Slab>) -> bool {
    forall|i: int, j: int| 0 <= i < v.len() && 0 <= j < v.len() && i != j ==> (#[trigger] v[i]).base != (#[trigger] v[j]).base
}

/// Whether no slab of `v` shares a page with a slab of `w`.
pub open spec fn bases_apart(v: Seq<Slab>, w: Seq<Slab>) -> bool {
    forall|i: int, j: int| 0 <= i < v.len() && 0 <= j < w.len() ==> (#[trigger] v[i]).base != (#[trigger] w[j]).base
}

/// An object of a slab lies in the slab's page.
proof fn lemma_obj_in_page(base: usize, size: usize, n: usize, x: int)
    requires
        8 <= size <= 2048,
        n == (PAGE_SIZE - FIRST_OBJ_OFFSET) / size as int,
        is_obj(base, size, n, x),
    ensures
        base <= x < base + PAGE_SIZE,
{
    assert(n * size <= PAGE_SIZE - FIRST_OBJ_OFFSET) by (nonlinear_arith)
        requires n == (PAGE_SIZE - FIRST_OBJ_OFFSET) / size as int, 8 <= size <= 2048;
}

/// Two different aligned pages do not overlap.
proof fn lemma_pages_apart(b1: usize, b2: usize, x: int)
    requires
        b1 % PAGE_SIZE == 0,
        b2 % PAGE_SIZE == 0,
        b1 != b2,
        b1 <= x < b1 + PAGE_SIZE,
    ensures
        !(b2 <= x < b2 + PAGE_SIZE),
{
}

/// Object `k` of a slab is an object of it.
proof fn lemma_obj_addr_is_obj(base: usize, size: usize, n: usize, k: int)
    requires
        8 <= size <= 2048,
        0 <= k < n,
    ensures
        is_obj(base, size, n, obj_addr(base, size, k)),
{
    vstd::arithmetic::mul::lemma_mul_strict_inequality(k, n as int, size as int);
    vstd::arithmetic::div_mod::lemma_mod_multiples_basic(k, size as int);
    assert(obj_addr(base, size, k) - (base + FIRST_OBJ_OFFSET) == k * size);
    assert(0 <= k * size) by (nonlinear_arith) requires k >= 0, size >= 8;
}

/// A size class: its object size and slabs. The head of each list is its
/// last element.
pub struct SlabClass {
    /// Object size.
    pub size: usize,
    /// Objects per slab.
    pub obj_per_slab: usize,
    /// Offset of the first object in a slab.
    pub first_obj_offset: usize,
    /// Slabs with free objects.
    pub partial: Vec<Slab>,
    /// Slabs without free objects.
    pub full: Vec<Slab>,
}

impl SlabClass {
    /// The class's shape: partial slabs have free objects, full ones none;
    /// every slab is in order ([`slab_ok`]), and no two slabs share a page.
    pub open spec fn wf(&self) -> bool {
        &&& 8 <= self.size <= 2048
        &&& self.first_obj_offset == FIRST_OBJ_OFFSET
        &&& self.obj_per_slab == (PAGE_SIZE - FIRST_OBJ_OFFSET) / self.size as int
        &&& forall|i: int| 0 <= i < self.partial@.len() ==> (#[trigger] self.partial@[i]).free@.len() > 0
        &&& forall|i: int| 0 <= i < self.full@.len() ==> (#[trigger] self.full@[i]).free@.len() == 0
        &&& forall|i: int| 0 <= i < self.partial@.len() ==> slab_ok(#[trigger] self.partial@[i], self.size, self.obj_per_slab)
        &&& forall|i: int| 0 <= i < self.full@.len() ==> slab_ok(#[trigger] self.full@[i], self.size, self.obj_per_slab)
        &&& bases_distinct(self.partial@)
        &&& bases_distinct(self.full@)
        &&& bases_apart(self.partial@, self.full@)
    }

    /// Whether object `x` is free: on the free list of one of the slabs.
    pub open spec fn holds_free(&self, x: usize) -> bool {
        exists|i: int| 0 <= i < self.partial@.len() && (#[trigger] self.partial@[i]).free@.contains(x)
    }

    /// Whether the page at `page` is one of the class's slabs.
    pub open spec fn has_base(&self, page: usize) -> bool {
        ||| exists|i: int| 0 <= i < self.partial@.len() && (#[trigger] self.partial@[i]).base == page
        ||| exists|j: int| 0 <= j < self.full@.len() && (#[trigger] self.full@[j]).base == page
    }

    /// Whether `ptr` may be freed into this class: where its page is a slab
    /// of the class, it is one of the slab's objects and it is not free.
    pub open spec fn may_free(&self, ptr: usize) -> bool {
        let b = (ptr - ptr % PAGE_SIZE) as usize;
        &&& forall|i: int| 0 <= i < self.partial@.len() && (#[trigger] self.partial@[i]).base == b
            ==> is_obj(b, self.size, self.obj_per_slab, ptr as int) && !self.partial@[i].free@.contains(ptr)
        &&& forall|j: int| 0 <= j < self.full@.len() && (#[trigger] self.full@[j]).base == b
            ==> is_obj(b, self.size, self.obj_per_slab, ptr as int)
    }

    /// Whether the page at `page` is one of the class's slabs.
    pub fn is_slab(&self, page: usize) -> (b: bool)
        ensures
            b == self.has_base(page),
    {
        let r1 = find_slab(&self.partial, page);
        if r1.is_some() {
            return true;
        }
        let r2 = find_slab(&self.full, page);
        r2.is_some()
    }

    /// An empty class of objects of `size` bytes.
    pub fn new(size: usize) -> (c: SlabClass)
        requires
            8 <= size <= 2048,
        ensures
            c.wf(),
            c.size == size,
            c.partial@.len() == 0,
            c.full@.len() == 0,
    {
        let first_obj_offset = FIRST_OBJ_OFFSET;
        let obj_per_slab = (PAGE_SIZE - first_obj_offset) / size;
        SlabClass { size, obj_per_slab, first_obj_offset, partial: Vec::new(), full: Vec::new() }
    }

    /// Hands out the next free object of the slab at the head of the
    /// partial list; the slab moves to the full list when that was its
    /// last. `None` when no slab has a free object.
    pub fn allocate(&mut self) -> (r: Option<usize>)
        requires
            old(self).wf(),
        ensures
            final(self).wf(),
            final(self).size == old(self).size,
            old(self).partial@.len() == 0 ==> r is None && *final(self) == *old(self),
            old(self).partial@.len() > 0 ==> {
                let s = old(self).partial@.last();
                let rest = slabs_view(old(self).partial@.drop_last());
                &&& r == Some(s.free@.last())
                &&& old(self).holds_free(s.free@.last())
                &&& !final(self).holds_free(s.free@.last())
                &&& is_obj(s.base, old(self).size, old(self).obj_per_slab, s.free@.last() as int)
                &&& if s.free@.len() == 1 {
                    &&& slabs_view(final(self).partial@) == rest
                    &&& slabs_view(final(self).full@) == slabs_view(old(self).full@).push((s.base, Seq::empty()))
                } else {
                    &&& slabs_view(final(self).partial@) == rest.push((s.base, s.free@.drop_last()))
                    &&& slabs_view(final(self).full@) == slabs_view(old(self).full@)
                }
            },
    {
        let n = self.partial.len();
        if n == 0 {
            return None;
        }
        let ghost p0 = self.partial@;
        let ghost f0 = self.full@;
        let ghost size = self.size;
        let ghost per = self.obj_per_slab;
        let mut slab = self.partial.pop().unwrap();
        assert(slab == p0[n - 1]);
        let ghost s0 = slab;
        let obj = slab.free.pop().unwrap();
        proof {
            let k = s0.free@.len() - 1;
            assert(s0.free@[k] == obj);
            assert(slab_ok(p0[n - 1], size, per));
            assert(is_obj(s0.base, size, per, s0.free@[k] as int));
            assert(p0[n - 1].free@.contains(obj));
            assert(old(self).holds_free(obj));
            assert(slab.free@ =~= s0.free@.drop_last());
            assert(slab_ok(slab, size, per)) by {
                assert forall|a: int, b: int| 0 <= a < slab.free@.len() && 0 <= b < slab.free@.len() && a != b
                    implies slab.free@[a] != slab.free@[b] by {
                    assert(slab.free@[a] == s0.free@[a] && slab.free@[b] == s0.free@[b]);
                }
                assert forall|m: int| 0 <= m < slab.free@.len() implies is_obj(slab.base, size, per, #[trigger] slab.free@[m] as int) by {
                    assert(slab.free@[m] == s0.free@[m]);
                }
            }
            assert(!slab.free@.contains(obj)) by {
                if slab.free@.contains(obj) {
                    let m = choose|m: int| 0 <= m < slab.free@.len() && slab.free@[m] == obj;
                    assert(s0.free@[m] == s0.free@[k]);
                }
            }
            lemma_obj_in_page(s0.base, size, per, obj as int);
        }
        if slab.free.len() == 0 {
            assert(slab.free@ =~= Seq::<usize>::empty());
            self.full.push(slab);
            proof {
                assert(slabs_view(self.partial@) =~= slabs_view(p0.drop_last()));
                assert(slabs_view(self.full@) =~= slabs_view(f0).push((slab.base, Seq::empty())));
                assert(forall|i: int| 0 <= i < self.full@.len() ==> (#[trigger] self.full@[i]) == if i < f0.len() { f0[i] } else { slab });
                assert(forall|i: int| 0 <= i < self.partial@.len() ==> (#[trigger] self.partial@[i]) == p0[i]);
            }
        } else {
            self.partial.push(slab);
            proof {
                assert(slabs_view(self.partial@) =~= slabs_view(p0.drop_last()).push((slab.base, p0[n - 1].free@.drop_last())));
                assert(slabs_view(self.full@) =~= slabs_view(f0));
                assert(forall|i: int| 0 <= i < self.partial@.len() ==> (#[trigger] self.partial@[i]) == if i < n - 1 { p0[i] } else { slab });
            }
        }
        proof {
            assert forall|i: int| 0 <= i < self.partial@.len() implies !(#[trigger] self.partial@[i]).free@.contains(obj) by {
                if i < n - 1 {
                    let q = p0[i];
                    assert(q.base != s0.base);
                    assert(slab_ok(q, size, per));
                    if q.free@.contains(obj) {
                        let m = choose|m: int| 0 <= m < q.free@.len() && q.free@[m] == obj;
                        assert(is_obj(q.base, size, per, q.free@[m] as int));
                        lemma_obj_in_page(q.base, size, per, obj as int);
                        lemma_pages_apart(s0.base, q.base, obj as int);
                    }
                }
            }
        }
        Some(obj)
    }

    /// Makes the page at `page` a slab of this class (every object free,
    /// the one at the highest address to be handed out first), puts it at
    /// the head of the partial list and hands out its first object.
    pub fn grow(&mut self, page: usize) -> (r: usize)
        requires
            old(self).wf(),
            page + PAGE_SIZE <= usize::MAX,
            page % PAGE_SIZE == 0,
            !old(self).has_base(page),
        ensures
            final(self).wf(),
            final(self).size == old(self).size,
            final(self).has_base(page),
            is_obj(page, old(self).size, old(self).obj_per_slab, r as int),
            !final(self).holds_free(r),
            ({
                let n = old(self).obj_per_slab as int;
                let free = fresh_free(page, old(self).size, n);
                &&& r == obj_addr(page, old(self).size, n - 1)
                &&& if n == 1 {
                    &&& slabs_view(final(self).partial@) == slabs_view(old(self).partial@)
                    &&& slabs_view(final(self).full@) == slabs_view(old(self).full@).push((page, Seq::empty()))
                } else {
                    &&& slabs_view(final(self).partial@) == slabs_view(old(self).partial@).push((page, free.drop_last()))
                    &&& slabs_view(final(self).full@) == slabs_view(old(self).full@)
                }
            }),
    {
        let n = self.obj_per_slab;
        let size = self.size;
        proof {
            assert(n >= 1 && n * size <= PAGE_SIZE - FIRST_OBJ_OFFSET) by (nonlinear_arith)
                requires n == (PAGE_SIZE - FIRST_OBJ_OFFSET) / size as int, 8 <= size <= 2048;
        }
        let mut free: Vec<usize> = Vec::new();
        let mut k: usize = 0;
        while k < n
            invariant
                k <= n,
                n >= 1,
                n * size <= PAGE_SIZE - FIRST_OBJ_OFFSET,
                8 <= size <= 2048,
                page + PAGE_SIZE <= usize::MAX,
                free@ == fresh_free(page, size, k as int),
            decreases n - k,
        {
            proof {
                assert(k * size <= n * size) by (nonlinear_arith) requires k < n, size > 0;
                assert((k + 1) * size == k * size + size) by (nonlinear_arith);
            }
            let addr = page + FIRST_OBJ_OFFSET + k * size;
            free.push(addr);
            proof { assert(free@ =~= fresh_free(page, size, (k + 1) as int)); }
            k = k + 1;
        }
        let ghost p0 = self.partial@;
        let ghost f0 = self.full@;
        let ghost full_list = free@;
        let obj = free.pop().unwrap();
        assert(obj == full_list[n - 1]);
        assert((n - 1) * size <= n * size) by (nonlinear_arith) requires n >= 1, size > 0;
        assert(0 <= obj_addr(page, size, n - 1) <= usize::MAX);
        assert(obj_addr(page, size, n - 1) == obj);
        let slab = Slab { base: page, free };
        proof {
            assert(free@ =~= full_list.drop_last());
            assert forall|m: int| 0 <= m < full_list.len() implies is_obj(page, size, n, #[trigger] full_list[m] as int)
                && full_list[m] == obj_addr(page, size, m) by {
                lemma_obj_addr_is_obj(page, size, n, m);
            }
            assert forall|a: int, b: int| 0 <= a < full_list.len() && 0 <= b < full_list.len() && a != b
                implies full_list[a] != full_list[b] by {
                if a < b {
                    vstd::arithmetic::mul::lemma_mul_strict_inequality(a, b, size as int);
                } else {
                    vstd::arithmetic::mul::lemma_mul_strict_inequality(b, a, size as int);
                }
            }
            assert forall|m: int| 0 <= m < free@.len() implies is_obj(page, size, n, #[trigger] free@[m] as int) by {
                assert(free@[m] == full_list[m]);
            }
            assert forall|a: int, b: int| 0 <= a < free@.len() && 0 <= b < free@.len() && a != b
                implies free@[a] != free@[b] by {
                assert(free@[a] == full_list[a] && free@[b] == full_list[b]);
            }
            assert(slab_ok(slab, size, n));
            assert(!free@.contains(obj)) by {
                if free@.contains(obj) {
                    let m = choose|m: int| 0 <= m < free@.len() && free@[m] == obj;
                    assert(full_list[m] == full_list[n - 1]);
                }
            }
            lemma_obj_addr_is_obj(page, size, n, n - 1);
            lemma_obj_in_page(page, size, n, obj as int);
        }
        if n == 1 {
            assert(slab.free@ =~= Seq::<usize>::empty());
            self.full.push(slab);
            proof {
                assert(slabs_view(self.partial@) =~= slabs_view(p0));
                assert(slabs_view(self.full@) =~= slabs_view(f0).push((page, Seq::empty())));
                assert(forall|i: int| 0 <= i < self.full@.len() ==> (#[trigger] self.full@[i]) == if i < f0.len() { f0[i] } else { slab });
                assert(self.full@[f0.len() as int].base == page);
            }
        } else {
            self.partial.push(slab);
            proof {
                assert(slabs_view(self.partial@) =~= slabs_view(p0).push((page, full_list.drop_last())));
                assert(slabs_view(self.full@) =~= slabs_view(f0));
                assert(forall|i: int| 0 <= i < self.partial@.len() ==> (#[trigger] self.partial@[i]) == if i < p0.len() { p0[i] } else { slab });
                assert(self.partial@[p0.len() as int].base == page);
            }
        }
        proof {
            assert forall|i: int| 0 <= i < self.partial@.len() implies !(#[trigger] self.partial@[i]).free@.contains(obj) by {
                if i < p0.len() {
                    let q = p0[i];
                    assert(q.base != page);
                    assert(slab_ok(q, size, n));
                    if q.free@.contains(obj) {
                        let m = choose|m: int| 0 <= m < q.free@.len() && q.free@[m] == obj;
                        assert(is_obj(q.base, size, n, q.free@[m] as int));
                        lemma_obj_in_page(q.base, size, n, obj as int);
                        lemma_pages_apart(page, q.base, obj as int);
                    }
                }
            }
        }
        obj
    }
}


/// What freeing `ptr` into class `old` leaves: `new`, and `r`, the page
/// to release; see [`SlabClass::free`].
pub open spec fn freed(old: &SlabClass, new: &SlabClass, ptr: usize, r: Option<usize>) -> bool {
                let b = (ptr - ptr % PAGE_SIZE) as usize;
                let p = old.partial@;
                let f = old.full@;
                let n = old.obj_per_slab;
                if exists|i: int| first_at(p, b, i) {
                    let i = choose|i: int| first_at(p, b, i);
                    let nf = p[i].free@.push(ptr);
                    &&& slabs_view(new.full@) == slabs_view(f)
                    &&& if nf.len() == n {
                        &&& r == Some(b)
                        &&& slabs_view(new.partial@) == slabs_view(p).remove(i)
                    } else {
                        &&& r is None
                        &&& slabs_view(new.partial@) == slabs_view(p).update(i, (b, nf))
                    }
                } else if exists|j: int| first_at(f, b, j) {
                    let j = choose|j: int| first_at(f, b, j);
                    &&& slabs_view(new.full@) == slabs_view(f).remove(j)
                    &&& if n == 1 {
                        &&& r == Some(b)
                        &&& slabs_view(new.partial@) == slabs_view(p)
                    } else {
                        &&& r is None
                        &&& slabs_view(new.partial@) == slabs_view(p).push((b, seq![ptr]))
                    }
                } else {
                    r is None && *new == *old
                }
}

/// The first slab of `v` at `base`, if any.
pub open spec fn first_at(v: Seq<Slab>, base: usize, i: int) -> bool {
    &&& 0 <= i < v.len()
    &&& v[i].base == base
    &&& forall|j: int| 0 <= j < i ==> (#[trigger] v[j]).base != base
}

/// The index of the first slab of `v` at `base`.
fn find_slab(v: &Vec<Slab>, base: usize) -> (r: Option<usize>)
    ensures
        r matches Some(i) ==> first_at(v@, base, i as int),
        r is None ==> forall|j: int| 0 <= j < v@.len() ==> (#[trigger] v@[j]).base != base,
{
    let mut i: usize = 0;
    while i < v.len()
        invariant
            i <= v@.len(),
            forall|j: int| 0 <= j < i ==> (#[trigger] v@[j]).base != base,
        decreases v@.len() - i,
    {
        if v[i].base == base {
            return Some(i);
        }
        i = i + 1;
    }
    None
}

impl SlabClass {
    /// Returns object `ptr` to its slab (the page that holds it): the
    /// object goes on top of the slab's free objects. A slab whose objects
    /// are then all free leaves its list and its page is returned, to be
    /// released; a full slab with a free object again moves to the head of
    /// the partial list. An object of no slab of the class changes nothing.
    pub fn free(&mut self, ptr: usize) -> (r: Option<usize>)
        requires
            old(self).wf(),
            old(self).may_free(ptr),
        ensures
            final(self).wf(),
            final(self).size == old(self).size,
            freed(old(self), final(self), ptr, r),
    {
        let b = ptr - ptr % PAGE_SIZE;
        let ghost p0 = self.partial@;
        let ghost f0 = self.full@;
        let ghost size = self.size;
        let ghost per = self.obj_per_slab;
        match find_slab(&self.partial, b) {
            Some(i) => {
                let mut slab = self.partial.remove(i);
                let ghost s0 = slab;
                slab.free.push(ptr);
                proof {
                    assert(s0 == p0[i as int]);
                    assert(slab_ok(s0, size, per));
                    assert(is_obj(b, size, per, ptr as int) && !s0.free@.contains(ptr));
                    assert forall|m: int| 0 <= m < slab.free@.len() implies is_obj(slab.base, size, per, #[trigger] slab.free@[m] as int) by {
                        if m < s0.free@.len() { assert(slab.free@[m] == s0.free@[m]); }
                    }
                    assert forall|x: int, y: int| 0 <= x < slab.free@.len() && 0 <= y < slab.free@.len() && x != y
                        implies slab.free@[x] != slab.free@[y] by {
                        if x < s0.free@.len() && y < s0.free@.len() {
                            assert(slab.free@[x] == s0.free@[x] && slab.free@[y] == s0.free@[y]);
                        } else if x < s0.free@.len() {
                            assert(slab.free@[x] == s0.free@[x]);
                        } else if y < s0.free@.len() {
                            assert(slab.free@[y] == s0.free@[y]);
                        }
                    }
                    assert(slab_ok(slab, size, per));
                }
                if slab.free.len() == self.obj_per_slab {
                    proof {
                        assert(slabs_view(self.partial@) =~= slabs_view(p0).remove(i as int));
                        assert(forall|k: int| 0 <= k < self.partial@.len() ==> (#[trigger] self.partial@[k]) == p0[if k < i { k } else { k + 1 }]);
                    }
                    Some(b)
                } else {
                    let ghost nf = slab.free@;
                    self.partial.insert(i, slab);
                    proof {
                        assert(slabs_view(self.partial@) =~= slabs_view(p0).update(i as int, (b, nf)));
                        assert(forall|k: int| 0 <= k < self.partial@.len() ==> (#[trigger] self.partial@[k]) == if k == i { slab } else { p0[k] });
                    }
                    None
                }
            },
            None => match find_slab(&self.full, b) {
                Some(j) => {
                    let mut slab = self.full.remove(j);
                    let ghost s0 = slab;
                    slab.free.push(ptr);
                    proof {
                        assert(slabs_view(self.full@) =~= slabs_view(f0).remove(j as int));
                        assert(forall|k: int| 0 <= k < self.full@.len() ==> (#[trigger] self.full@[k]) == f0[if k < j { k } else { k + 1 }]);
                        assert(s0 == f0[j as int]);
                        assert(slab_ok(s0, size, per));
                        assert(slab.free@ =~= seq![ptr]);
                        assert(is_obj(b, size, per, ptr as int));
                        assert(slab_ok(slab, size, per));
                    }
                    if self.obj_per_slab == 1 {
                        Some(b)
                    } else {
                        self.partial.push(slab);
                        proof {
                            assert(slabs_view(self.partial@) =~= slabs_view(p0).push((b, seq![ptr])));
                            assert(forall|k: int| 0 <= k < self.partial@.len() ==> (#[trigger] self.partial@[k]) == if k < p0.len() { p0[k] } else { slab });
                        }
                        None
                    }
                },
                None => None,
            },
        }
    }
}

/// The page that `upa` hands out for one page on CPU `cpu` (0 for none).
pub open spec fn fresh_page(upa: &Upa, ema: &EarlyMemAlloc, bsa: &Bsa, pfm: &Pfm, cpu: int) -> int {
    match upa.backend {
        Backend::Early => if ema.top < ema.limit || ema.top - 4096 < ema.limit { 0 } else { ema.top - 4096 },
        Backend::Late => bsa.alloc_result(pfm, cpu, 0),
    }
}

/// The allocator: one class per size.
pub struct Soa {
    /// The classes, of 8 to 2048 bytes.
    pub classes: Vec<SlabClass>,
}

/// The class for an object of `size` bytes aligned to `align`: the
/// smallest that holds it (a size of 0 counts as 1), none above 2048 bytes
/// or an alignment above 8.
pub open spec fn class_for(size: usize, align: usize) -> Option<usize> {
    let s = if size == 0 { 1 } else { size };
    if align > 8 || s > 2048 {
        None
    } else if s <= 8 { Some(0) } else if s <= 16 { Some(1) } else if s <= 32 { Some(2) } else if s <= 64 { Some(3) }
    else if s <= 128 { Some(4) } else if s <= 256 { Some(5) } else if s <= 512 { Some(6) } else if s <= 1024 { Some(7) }
    else { Some(8) }
}

/// The class chosen for an object is the smallest that holds it: there is
/// one exactly when the alignment is at most 8 and the object (a size of 0
/// counting as 1) is at most 2048 bytes, its objects are at least as large
/// as the object, and those of the class below it are smaller. The classes
/// hold 8 bytes and then twice as much as the one below.
pub proof fn lemma_class_is_smallest(size: usize, align: usize)
    ensures
        class_size(0) == 8,
        forall|i: int| 0 <= i < NUM_CLASSES - 1 ==> #[trigger] class_size(i + 1) == 2 * class_size(i),
        ({
            let s: int = if size == 0 { 1 } else { size as int };
            &&& (class_for(size, align) is Some <==> align <= 8 && s <= 2048)
            &&& class_for(size, align) matches Some(c) ==> {
                &&& 0 <= c < NUM_CLASSES
                &&& class_size(c as int) >= s
                &&& c > 0 ==> class_size(c - 1) < s
            }
        }),
{
}

impl Soa {
    /// Whether each class `i` holds objects of [`class_size`]`(i)`.
    pub open spec fn wf(&self) -> bool {
        &&& self.classes@.len() == NUM_CLASSES
        &&& forall|i: int| 0 <= i < NUM_CLASSES ==> (#[trigger] self.classes@[i]).wf() && self.classes@[i].size == class_size(i)
    }

    /// For each class: its object size, its number of partial and of full
    /// slabs, and its objects per slab.
    pub fn stats(&self) -> (r: Vec<(usize, usize, usize, usize)>)
        ensures
            r@.len() == self.classes@.len(),
            forall|i: int| 0 <= i < r@.len() ==> #[trigger] r@[i] == (self.classes@[i].size, self.classes@[i].partial@.len() as usize,
                self.classes@[i].full@.len() as usize, self.classes@[i].obj_per_slab),
    {
        let mut r: Vec<(usize, usize, usize, usize)> = Vec::new();
        let mut i: usize = 0;
        while i < self.classes.len()
            invariant
                i <= self.classes@.len(),
                r@.len() == i,
                forall|k: int| 0 <= k < i ==> #[trigger] r@[k] == (self.classes@[k].size, self.classes@[k].partial@.len() as usize,
                    self.classes@[k].full@.len() as usize, self.classes@[k].obj_per_slab),
            decreases self.classes@.len() - i,
        {
            let c = &self.classes[i];
            r.push((c.size, c.partial.len(), c.full.len(), c.obj_per_slab));
            i = i + 1;
        }
        r
    }

    /// Nine empty classes.
    pub fn new() -> (s: Soa)
        ensures
            s.wf(),
            forall|i: int| 0 <= i < NUM_CLASSES ==> (#[trigger] s.classes@[i]).partial@.len() == 0 && s.classes@[i].full@.len() == 0,
    {
        let mut classes: Vec<SlabClass> = Vec::new();
        let mut i: usize = 0;
        while i < NUM_CLASSES
            invariant
                i <= NUM_CLASSES,
                classes@.len() == i,
                forall|k: int| 0 <= k < i ==> (#[trigger] classes@[k]).wf() && classes@[k].size == class_size(k)
                    && classes@[k].partial@.len() == 0 && classes@[k].full@.len() == 0,
            decreases NUM_CLASSES - i,
        {
            let c = SlabClass::new(class_size_of(i));
            classes.push(c);
            i = i + 1;
        }
        Soa { classes }
    }

    /// The class for an object of `size` bytes aligned to `align`; see
    /// [`class_for`].
    pub fn find_class(&self, size: usize, align: usize) -> (r: Option<usize>)
        ensures
            r == class_for(size, align),
    {
        if align > 8 {
            return None;
        }
        let s = if size == 0 { 1 } else { size };
        if s > 2048 {
            return None;
        }
        let mut i: usize = 0;
        while i < NUM_CLASSES
            invariant
                i <= NUM_CLASSES,
                1 <= s <= 2048,
                s == (if size == 0 { 1 } else { size }),
                align <= 8,
                forall|k: int| 0 <= k < i ==> class_size(k) < s,
                i > 0 ==> class_size(i - 1) < s,
            decreases NUM_CLASSES - i,
        {
            if class_size_of(i) >= s {
                return Some(i);
            }
            i = i + 1;
        }
        None
    }
}


impl Soa {
    /// Takes class `c` out (an empty class stands in its place).
    fn take_class(&mut self, c: usize) -> (cl: SlabClass)
        requires
            old(self).wf(),
            c < NUM_CLASSES,
        ensures
            cl == old(self).classes@[c as int],
            final(self).classes@ == old(self).classes@.update(c as int, final(self).classes@[c as int]),
    {
        let mut cl = SlabClass::new(8);
        std::mem::swap(&mut cl, &mut self.classes[c]);
        proof { assert(self.classes@ =~= old(self).classes@.update(c as int, self.classes@[c as int])); }
        cl
    }

    /// An object of class `c` from a slab that has one free (see
    /// [`SlabClass::allocate`]); `None` when the class has none.
    pub fn allocate_in(&mut self, c: usize) -> (r: Option<usize>)
        requires
            old(self).wf(),
            c < NUM_CLASSES,
        ensures
            final(self).wf(),
            forall|i: int| 0 <= i < NUM_CLASSES && i != c ==> #[trigger] final(self).classes@[i] == old(self).classes@[i],
            old(self).classes@[c as int].partial@.len() == 0 ==> r is None && final(self).classes@ == old(self).classes@,
            old(self).classes@[c as int].partial@.len() > 0 ==> r == Some(old(self).classes@[c as int].partial@.last().free@.last())
                && old(self).classes@[c as int].holds_free(old(self).classes@[c as int].partial@.last().free@.last())
                && !final(self).classes@[c as int].holds_free(old(self).classes@[c as int].partial@.last().free@.last()),
    {
        let mut cl = self.take_class(c);
        let r = cl.allocate();
        self.classes.set(c, cl);
        proof {
            if old(self).classes@[c as int].partial@.len() == 0 {
                assert(self.classes@ =~= old(self).classes@);
            }
        }
        r
    }

    /// Makes the page at `page` a slab of class `c` and hands out its first
    /// object (see [`SlabClass::grow`]).
    pub fn grow(&mut self, c: usize, page: usize) -> (r: usize)
        requires
            old(self).wf(),
            c < NUM_CLASSES,
            page + PAGE_SIZE <= usize::MAX,
            page % PAGE_SIZE == 0,
            !old(self).classes@[c as int].has_base(page),
        ensures
            final(self).wf(),
            forall|i: int| 0 <= i < NUM_CLASSES && i != c ==> #[trigger] final(self).classes@[i] == old(self).classes@[i],
            r == obj_addr(page, class_size(c as int), old(self).classes@[c as int].obj_per_slab - 1),
            final(self).classes@[c as int].has_base(page),
            !final(self).classes@[c as int].holds_free(r),
    {
        let mut cl = self.take_class(c);
        let r = cl.grow(page);
        self.classes.set(c, cl);
        r
    }

    /// Whether the page at `page` is a slab of class `c`.
    pub fn is_slab(&self, c: usize, page: usize) -> (b: bool)
        requires
            self.wf(),
            c < NUM_CLASSES,
        ensures
            b == self.classes@[c as int].has_base(page),
    {
        self.classes[c].is_slab(page)
    }

    /// An object of class `c`: the next free one of a slab (see
    /// [`SlabClass::allocate`]), else the first of a new slab made of a
    /// page that `upa` hands out for CPU `cpu`, seen at `page + hhdm` (see
    /// [`SlabClass::grow`]). `None` when the page allocator has no page, or
    /// its page is not a fresh aligned page of the address space.
    pub fn allocate_or_grow(&mut self, c: usize, upa: &Upa, ema: &mut EarlyMemAlloc, bsa: &mut Bsa, pfm: &mut Pfm, cpu: usize, hhdm: usize) -> (r: Option<usize>)
        requires
            old(self).wf(),
            c < NUM_CLASSES,
            old(bsa).wf(),
            old(pfm).wf(),
            cpu < old(bsa).ncpus,
            upa.backend == Backend::Early ==> align_up_4k(4096) <= old(ema).top,
        ensures
            final(self).wf(),
            final(bsa).wf(),
            final(pfm).wf(),
            forall|i: int| 0 <= i < NUM_CLASSES && i != c ==> #[trigger] final(self).classes@[i] == old(self).classes@[i],
            old(self).classes@[c as int].partial@.len() > 0 ==> {
                let x = old(self).classes@[c as int].partial@.last().free@.last();
                &&& r == Some(x)
                &&& old(self).classes@[c as int].holds_free(x)
                &&& !final(self).classes@[c as int].holds_free(x)
                &&& *final(ema) == *old(ema) && *final(bsa) == *old(bsa) && *final(pfm) == *old(pfm)
            },
            old(self).classes@[c as int].partial@.len() == 0 ==> {
                let p = fresh_page(upa, old(ema), old(bsa), old(pfm), cpu as int);
                let page = p + hhdm;
                let cl = old(self).classes@[c as int];
                &&& p == 0 ==> r is None
                &&& r is None ==> final(self).classes@ == old(self).classes@
                &&& (p != 0 && page + PAGE_SIZE <= usize::MAX && page % (PAGE_SIZE as int) == 0 && !cl.has_base(page as usize))
                    ==> r == Some(obj_addr(page as usize, cl.size, cl.obj_per_slab - 1) as usize)
                &&& r matches Some(x) ==> {
                    &&& page + PAGE_SIZE <= usize::MAX
                    &&& page % (PAGE_SIZE as int) == 0
                    &&& !cl.has_base(page as usize)
                    &&& final(self).classes@[c as int].has_base(page as usize)
                    &&& x == obj_addr(page as usize, cl.size, cl.obj_per_slab - 1)
                    &&& !final(self).classes@[c as int].holds_free(x)
                }
            },
    {
        let o = self.allocate_in(c);
        if o.is_some() {
            return o;
        }
        let ghost s0 = *self;
        let p = upa.allocate(ema, bsa, pfm, cpu, 1);
        proof {
            assert(align_up_4k(4096int) == 4096);
            if upa.backend == Backend::Late {
                assert(crate::bsa::is_ceil_order(1, 0));
            }
        }
        if p.0 == 0 {
            return None;
        }
        let page = match p.0.checked_add(hhdm) {
            Some(v) => v,
            None => return None,
        };
        if page > usize::MAX - PAGE_SIZE || page % PAGE_SIZE != 0 || self.is_slab(c, page) {
            return None;
        }
        let r = self.grow(c, page);
        Some(r)
    }

    /// Frees the object at `ptr` of `size` bytes aligned to `align`; returns
    /// the address of the memory to give back to the page allocator, if any:
    /// the object itself when no class holds it, else the slab's page when
    /// all its objects are free (see [`SlabClass::free`]). A null pointer
    /// frees nothing.
    pub fn free(&mut self, ptr: usize, size: usize, align: usize) -> (r: Option<usize>)
        requires
            old(self).wf(),
            ptr != 0 ==> (class_for(size, align) matches Some(c) ==> old(self).classes@[c as int].may_free(ptr)),
        ensures
            final(self).wf(),
            ptr == 0 ==> r is None && *final(self) == *old(self),
            ptr != 0 && class_for(size, align) is None ==> r == Some(ptr) && *final(self) == *old(self),
            ptr != 0 ==> (class_for(size, align) matches Some(c) ==> {
                &&& freed(&old(self).classes@[c as int], &final(self).classes@[c as int], ptr, r)
                &&& forall|i: int| 0 <= i < NUM_CLASSES && i != c ==> #[trigger] final(self).classes@[i] == old(self).classes@[i]
            }),
    {
        if ptr == 0 {
            return None;
        }
        match self.find_class(size, align) {
            Some(c) => {
                let mut cl = self.take_class(c);
                let r = cl.free(ptr);
                self.classes.set(c, cl);
                r
            },
            None => Some(ptr),
        }
    }
}

} // verus!
