//! Virtual memory areas: the ranges of a user address space that are in
//! use, kept in order of their start, and the search for a free range.

use vstd::prelude::*;

verus! {

/// The highest canonical user address.
pub const MAX_CANONICAL_ADDR: u64 = 0x0000_7FFF_FFFF_FFFF;

/// Access and placement flags of an area.
#[derive(Clone, Copy, Debug, PartialEq, Eq, Structural)]
pub struct VmaFlags(pub u64);

impl VmaFlags {
    /// Readable.
    pub const READ: u64 = 1;
    /// Writable.
    pub const WRITE: u64 = 2;
    /// Executable.
    pub const EXEC: u64 = 4;
    /// Anonymous memory.
    pub const ANON: u64 = 8;
    /// Placed at the address asked for.
    pub const FIXED: u64 = 16;
    /// Grows up.
    pub const GROWSUP: u64 = 32;
    /// Grows down.
    pub const GROWSDN: u64 = 64;

    /// Whether every flag of `other` is set.
    pub fn contains(self, other: u64) -> (b: bool)
        ensures
            b == (self.0 & other == other),
    {
        self.0 & other == other
    }
}

/// An area `[start, end)` with its flags.
#[derive(Clone, Copy, Debug, PartialEq, Eq, Structural)]
pub struct VmaNode {
    /// First address.
    pub start: u64,
    /// One past the last address.
    pub end: u64,
    /// Its flags.
    pub flags: VmaFlags,
}

impl VmaNode {
    /// The area `[start, end)` with `flags`.
    pub fn new(start: u64, end: u64, flags: VmaFlags) -> (n: VmaNode)
        ensures
            n == (VmaNode { start, end, flags }),
    {
        VmaNode { start, end, flags }
    }
}

/// `x` rounded up to a multiple of `align` (a power of two), wrapping
/// around at the top of `u64`.
pub open spec fn align_up(x: u64, align: u64) -> u64 {
    (((x as int + align - 1) % 0x1_0000_0000_0000_0000) as u64) & !((align - 1) as u64)
}

/// Where an area of `size` bytes goes in the gap `[lo, hi)`, if it fits
/// there: at `hint` rounded up to `align` when the hint lies in the gap
/// (below `hi` too when `hint_below_hi`) and the area fits there, else at
/// `lo` rounded up.
pub open spec fn fit(lo: u64, hi: u64, size: u64, align: u64, hint: u64, hint_below_hi: bool) -> Option<u64> {
    let a = align_up(lo, align);
    let h = align_up(hint, align);
    if hi > lo && hi - lo >= size && a >= lo && a <= hi && hi - a >= size {
        if hint >= lo && (hint < hi || !hint_below_hi) && h >= lo && h <= hi && hi - h >= size {
            Some(h)
        } else {
            Some(a)
        }
    } else {
        None
    }
}

/// The end of the area before area `i` (0 before the first).
pub open spec fn prev_end(s: Seq<VmaNode>, i: int) -> u64 {
    if i <= 0 { 0 } else { s[i - 1].end }
}

/// The first place, from gap `i` on, where an area fits: the gaps before
/// each area in order, then (when there is an area) the gap after the last
/// one up to [`MAX_CANONICAL_ADDR`].
pub open spec fn first_fit(s: Seq<VmaNode>, i: nat, size: u64, align: u64, hint: u64) -> Option<u64>
    decreases s.len() - i,
{
    if i >= s.len() {
        if s.len() == 0 {
            None
        } else {
            fit(s.last().end, MAX_CANONICAL_ADDR, size, align, hint, false)
        }
    } else {
        match fit(prev_end(s, i as int), s[i as int].start, size, align, hint, true) {
            Some(c) => Some(c),
            None => first_fit(s, i + 1, size, align, hint),
        }
    }
}

/// The place that [`VmaTree::get_unmapped_area`] finds for `size` bytes.
pub open spec fn unmapped_area(s: Seq<VmaNode>, size: u64, align: u64, hint: u64) -> Option<u64> {
    if size == 0 || size > MAX_CANONICAL_ADDR {
        None
    } else {
        first_fit(s, 0, size, align, hint)
    }
}

/// The areas, in order of their start, with the address to search from.
pub struct VmaTree {
    /// The areas.
    pub nodes: Vec<VmaNode>,
    /// Where the last area found ends.
    pub cached_hint: u64,
}

impl VmaTree {
    /// Areas are non-empty, end at the canonical limit and follow one
    /// another without overlap.
    pub open spec fn wf(&self) -> bool {
        &&& forall|i: int| 0 <= i < self.nodes@.len() ==> (#[trigger] self.nodes@[i]).start < self.nodes@[i].end
            && self.nodes@[i].end <= MAX_CANONICAL_ADDR
        &&& forall|i: int, j: int| 0 <= i < j < self.nodes@.len() ==> self.nodes@[i].end <= self.nodes@[j].start
    }

    /// No area, searching from 16 TiB.
    pub fn new() -> (t: VmaTree)
        ensures
            t.wf(),
            t.nodes@.len() == 0,
            t.cached_hint == 0x1000_0000_0000,
    {
        VmaTree { nodes: Vec::new(), cached_hint: 0x1000_0000_0000 }
    }

    /// The area that holds `addr`, if any.
    pub fn find_overlap(&self, addr: u64) -> (r: Option<usize>)
        requires
            self.wf(),
        ensures
            r matches Some(i) ==> i < self.nodes@.len() && self.nodes@[i as int].start <= addr < self.nodes@[i as int].end,
            r is None ==> forall|i: int| 0 <= i < self.nodes@.len() ==> !(self.nodes@[i].start <= addr < #[trigger] self.nodes@[i].end),
    {
        let mut i: usize = 0;
        while i < self.nodes.len()
            invariant
                i <= self.nodes@.len(),
                forall|k: int| 0 <= k < i ==> !(self.nodes@[k].start <= addr < #[trigger] self.nodes@[k].end),
            decreases self.nodes@.len() - i,
        {
            if self.nodes[i].start <= addr && addr < self.nodes[i].end {
                return Some(i);
            }
            i = i + 1;
        }
        None
    }

    /// Finds a free range of `size` bytes aligned to `align` (a power of
    /// two), near `hint`; see [`unmapped_area`]. The search then starts
    /// after the range found.
    pub fn get_unmapped_area(&mut self, size: u64, align: u64, hint: u64) -> (r: Option<u64>)
        requires
            old(self).wf(),
            align >= 1,
        ensures
            final(self).wf(),
            final(self).nodes == old(self).nodes,
            r == unmapped_area(old(self).nodes@, size, align, hint),
            r matches Some(a) ==> final(self).cached_hint == a + size,
            r is None ==> final(self).cached_hint == old(self).cached_hint,
    {
        if size == 0 || size > MAX_CANONICAL_ADDR {
            return None;
        }
        let n: usize = self.nodes.len();
        let ghost s = self.nodes@;
        let mut best: Option<u64> = None;
        let mut i: usize = 0;
        let mut last_end: u64 = 0;
        while i < n
            invariant
                n == s.len(),
                s == self.nodes@,
                *self == *old(self),
                self.wf(),
                i <= n,
                align >= 1,
                0 < size <= MAX_CANONICAL_ADDR,
                last_end == prev_end(s, i as int),
                best is None ==> first_fit(s, 0, size, align, hint) == first_fit(s, i as nat, size, align, hint),
                best is Some ==> best == first_fit(s, 0, size, align, hint),
            decreases n - i,
        {
            let start = self.nodes[i].start;
            if best.is_none() {
                let c = gap_fit(last_end, start, size, align, hint, true);
                if c.is_some() {
                    best = c;
                }
            }
            last_end = self.nodes[i].end;
            i = i + 1;
        }
        if best.is_none() && n > 0 {
            best = gap_fit(last_end, MAX_CANONICAL_ADDR, size, align, hint, false);
        }
        match best {
            Some(a) => {
                proof { lemma_fit_bounds(s, 0, size, align, hint); }
                self.cached_hint = a + size;
                Some(a)
            },
            None => None,
        }
    }

    /// Puts `node` among the areas, after those that start no later.
    pub fn insert(&mut self, node: VmaNode)
        requires
            old(self).wf(),
            node.start < node.end <= MAX_CANONICAL_ADDR,
            forall|i: int| 0 <= i < old(self).nodes@.len() ==>
                (#[trigger] old(self).nodes@[i]).end <= node.start || node.end <= old(self).nodes@[i].start,
        ensures
            final(self).wf(),
            final(self).cached_hint == old(self).cached_hint,
            exists|k: int| 0 <= k <= old(self).nodes@.len() && final(self).nodes@ == old(self).nodes@.insert(k, node),
    {
        let mut k: usize = 0;
        while k < self.nodes.len() && self.nodes[k].start <= node.start
            invariant
                self.wf(),
                *self == *old(self),
                node.start < node.end <= MAX_CANONICAL_ADDR,
                forall|i: int| 0 <= i < self.nodes@.len() ==>
                    (#[trigger] self.nodes@[i]).end <= node.start || node.end <= self.nodes@[i].start,
                k <= self.nodes@.len(),
                forall|j: int| 0 <= j < k ==> (#[trigger] self.nodes@[j]).start <= node.start,
            decreases self.nodes@.len() - k,
        {
            k = k + 1;
        }
        let ghost old_nodes = self.nodes@;
        proof {
            assert forall|j: int| 0 <= j < k implies (#[trigger] old_nodes[j]).end <= node.start by {
                assert(old_nodes[j].start <= node.start);
                assert(old_nodes[j].start < old_nodes[j].end);
            }
            assert forall|j: int| k <= j < old_nodes.len() implies node.end <= (#[trigger] old_nodes[j]).start by {
                if j > k {
                    assert(old_nodes[k as int].end <= old_nodes[j].start);
                }
                assert(node.start < old_nodes[k as int].start);
            }
        }
        self.nodes.insert(k, node);
        proof {
            let s = self.nodes@;
            assert(s == old_nodes.insert(k as int, node));
            assert forall|i: int, j: int| 0 <= i < j < s.len() implies s[i].end <= s[j].start by {
                if i < k && j < k {
                    assert(s[i] == old_nodes[i] && s[j] == old_nodes[j]);
                } else if i < k && j == k {
                } else if i < k {
                    assert(s[j] == old_nodes[j - 1]);
                    assert(old_nodes[i].end <= old_nodes[j - 1].start);
                } else if i == k {
                    assert(s[j] == old_nodes[j - 1]);
                } else {
                    assert(s[i] == old_nodes[i - 1] && s[j] == old_nodes[j - 1]);
                }
            }
        }
    }

    /// Takes out the area that starts at `start`, if there is one.
    pub fn remove_at(&mut self, start: u64) -> (r: Option<VmaNode>)
        requires
            old(self).wf(),
        ensures
            final(self).wf(),
            final(self).cached_hint == old(self).cached_hint,
            r is None ==> final(self).nodes@ == old(self).nodes@
                && forall|i: int| 0 <= i < old(self).nodes@.len() ==> (#[trigger] old(self).nodes@[i]).start != start,
            r matches Some(n) ==> n.start == start && exists|k: int| 0 <= k < old(self).nodes@.len()
                && old(self).nodes@[k] == n && final(self).nodes@ == old(self).nodes@.remove(k),
    {
        let mut k: usize = 0;
        while k < self.nodes.len()
            invariant
                self.wf(),
                *self == *old(self),
                k <= self.nodes@.len(),
                forall|j: int| 0 <= j < k ==> (#[trigger] self.nodes@[j]).start != start,
            decreases self.nodes@.len() - k,
        {
            if self.nodes[k].start == start {
                let ghost old_nodes = self.nodes@;
                let n = self.nodes.remove(k);
                proof {
                    let s = self.nodes@;
                    assert(s == old_nodes.remove(k as int));
                    assert forall|i: int, j: int| 0 <= i < j < s.len() implies s[i].end <= s[j].start by {
                        let i2 = if i < k { i } else { i + 1 };
                        let j2 = if j < k { j } else { j + 1 };
                        assert(s[i] == old_nodes[i2] && s[j] == old_nodes[j2]);
                    }
                    assert forall|i: int| 0 <= i < s.len() implies (#[trigger] s[i]).start < s[i].end && s[i].end <= MAX_CANONICAL_ADDR by {
                        let i2 = if i < k { i } else { i + 1 };
                        assert(s[i] == old_nodes[i2]);
                    }
                }
                return Some(n);
            }
            k = k + 1;
        }
        None
    }
}

/// [`fit`], computed.
fn gap_fit(lo: u64, hi: u64, size: u64, align: u64, hint: u64, hint_below_hi: bool) -> (r: Option<u64>)
    requires
        align >= 1,
    ensures
        r == fit(lo, hi, size, align, hint, hint_below_hi),
{
    let mask = !(align - 1);
    let a = lo.wrapping_add(align - 1) & mask;
    let h = hint.wrapping_add(align - 1) & mask;
    proof {
        assert(lo.wrapping_add((align - 1) as u64) == ((lo as int + align - 1) % 0x1_0000_0000_0000_0000) as u64);
        assert(hint.wrapping_add((align - 1) as u64) == ((hint as int + align - 1) % 0x1_0000_0000_0000_0000) as u64);
    }
    if hi > lo && hi - lo >= size && a >= lo && a <= hi && hi - a >= size {
        if hint >= lo && (hint < hi || !hint_below_hi) && h >= lo && h <= hi && hi - h >= size {
            Some(h)
        } else {
            Some(a)
        }
    } else {
        None
    }
}

/// Whether `x` is a power of two.
pub open spec fn is_pow2(x: u64) -> bool {
    exists|n: nat| n < 64 && x == vstd::arithmetic::power2::pow2(n)
}

/// Rounding up to a power of two gives a multiple of it.
proof fn lemma_align_up_aligned(x: u64, align: u64)
    requires
        is_pow2(align),
    ensures
        align_up(x, align) % align == 0,
{
    let n = choose|n: nat| n < 64 && align == vstd::arithmetic::power2::pow2(n);
    vstd::bits::lemma_u64_pow2_no_overflow(n);
    let y = ((x as int + align - 1) % 0x1_0000_0000_0000_0000) as u64;
    let m = (align - 1) as u64;
    let z = align_up(x, align);
    assert(z == y & !m);
    assert(z & m == 0) by (bit_vector)
        requires z == y & !m;
    vstd::bits::lemma_u64_low_bits_mask_is_mod(z, n);
    assert(vstd::bits::low_bits_mask(n) as u64 == m);
}

/// A place found in the gaps from `i` on is aligned as asked.
proof fn lemma_first_fit_aligned(s: Seq<VmaNode>, i: nat, size: u64, align: u64, hint: u64)
    requires
        is_pow2(align),
    ensures
        first_fit(s, i, size, align, hint) matches Some(a) ==> a % align == 0,
    decreases s.len() - i,
{
    if i >= s.len() {
        if s.len() > 0 {
            lemma_align_up_aligned(s.last().end, align);
            lemma_align_up_aligned(hint, align);
        }
    } else {
        lemma_align_up_aligned(prev_end(s, i as int), align);
        lemma_align_up_aligned(hint, align);
        lemma_first_fit_aligned(s, i + 1, size, align, hint);
    }
}

/// An unmapped area is aligned as asked: whenever `align` is a power of
/// two, the place found for an area is a multiple of it.
pub proof fn lemma_unmapped_area_aligned(s: Seq<VmaNode>, size: u64, align: u64, hint: u64)
    requires
        is_pow2(align),
    ensures
        unmapped_area(s, size, align, hint) matches Some(a) ==> a % align == 0,
{
    lemma_first_fit_aligned(s, 0, size, align, hint);
}

/// A place found in the gaps from `i` on overlaps no area: it lies in a
/// gap between areas (or after the last one) that holds it whole.
proof fn lemma_first_fit_free(s: Seq<VmaNode>, i: nat, size: u64, align: u64, hint: u64)
    requires
        forall|k: int| 0 <= k < s.len() ==> (#[trigger] s[k]).start < s[k].end,
        forall|k: int, l: int| 0 <= k < l < s.len() ==> s[k].end <= s[l].start,
    ensures
        first_fit(s, i, size, align, hint) matches Some(a) ==> forall|j: int| 0 <= j < s.len()
            ==> a + size <= #[trigger] s[j].start || s[j].end <= a,
    decreases s.len() - i,
{
    if i < s.len() {
        lemma_first_fit_free(s, i + 1, size, align, hint);
        match fit(prev_end(s, i as int), s[i as int].start, size, align, hint, true) {
            Some(a) => {
                assert forall|j: int| 0 <= j < s.len() implies a + size <= #[trigger] s[j].start || s[j].end <= a by {
                    if j < i {
                        assert(s[j].end <= s[i - 1].end) by {
                            if j < i - 1 {
                                assert(s[j].end <= s[i - 1].start);
                            }
                        }
                    } else if j > i {
                        assert(s[i as int].end <= s[j].start);
                    }
                }
            },
            None => {},
        }
    } else if s.len() > 0 {
        assert forall|j: int| 0 <= j < s.len() implies s[j].end <= s.last().end by {
            if j < s.len() - 1 {
                assert(s[j].end <= s[s.len() - 1].start);
            }
        }
    }
}

/// A place found for an area is free: the area it gives, of `size` bytes
/// (not zero), ends within the canonical limit and overlaps none of the
/// areas `s` (non-empty, in order, apart, below the limit).
pub proof fn lemma_unmapped_area_free(s: Seq<VmaNode>, size: u64, align: u64, hint: u64)
    requires
        forall|k: int| 0 <= k < s.len() ==> (#[trigger] s[k]).start < s[k].end && s[k].end <= MAX_CANONICAL_ADDR,
        forall|k: int, l: int| 0 <= k < l < s.len() ==> s[k].end <= s[l].start,
    ensures
        unmapped_area(s, size, align, hint) matches Some(a) ==> {
            &&& size > 0
            &&& a + size <= MAX_CANONICAL_ADDR
            &&& forall|j: int| 0 <= j < s.len() ==> a + size <= #[trigger] s[j].start || s[j].end <= a
        },
{
    lemma_first_fit_free(s, 0, size, align, hint);
    lemma_fit_bounds(s, 0, size, align, hint);
}

/// A place found lies below the canonical limit together with its area.
proof fn lemma_fit_bounds(s: Seq<VmaNode>, i: nat, size: u64, align: u64, hint: u64)
    requires
        forall|k: int| 0 <= k < s.len() ==> (#[trigger] s[k]).end <= MAX_CANONICAL_ADDR && s[k].start < s[k].end,
    ensures
        first_fit(s, i, size, align, hint) matches Some(a) ==> a + size <= MAX_CANONICAL_ADDR,
    decreases s.len() - i,
{
    if i < s.len() {
        lemma_fit_bounds(s, i + 1, size, align, hint);
    }
}

/// The areas of an address space.
pub struct Vmm {
    /// The areas.
    pub tree: VmaTree,
}

/// The hint that [`Vmm::allocate`] searches from.
pub open spec fn target_hint(t: &VmaTree, flags: VmaFlags, hint: u64) -> u64 {
    if flags.0 & VmaFlags::FIXED == VmaFlags::FIXED || hint != 0 { hint } else { t.cached_hint }
}

impl Vmm {
    /// No area.
    pub fn new() -> (v: Vmm)
        ensures
            v.tree.wf(),
            v.tree.nodes@.len() == 0,
            v.tree.cached_hint == 0x1000_0000_0000,
    {
        Vmm { tree: VmaTree::new() }
    }

    /// Reserves `size` bytes aligned to `align` (a power of two) with
    /// `flags`: at `hint` when it is given (or the area is fixed), else
    /// after the last area found; see [`unmapped_area`]. `None` when no
    /// place is found, or the place found overlaps an area at either end.
    pub fn allocate(&mut self, size: u64, align: u64, flags: VmaFlags, hint: u64) -> (r: Option<u64>)
        requires
            old(self).tree.wf(),
            align >= 1,
        ensures
            final(self).tree.wf(),
            ({
                let s = old(self).tree.nodes@;
                let found = unmapped_area(s, size, align, target_hint(&old(self).tree, flags, hint));
                match found {
                    None => r is None && final(self).tree == old(self).tree,
                    Some(a) => {
                        &&& final(self).tree.cached_hint == a + size
                        &&& r == Some(a)
                        &&& exists|k: int| 0 <= k <= s.len() && final(self).tree.nodes@ == #[trigger] s.insert(k, VmaNode { start: a, end: (a + size) as u64, flags })
                    },
                }
            }),
    {
        let target = if flags.contains(VmaFlags::FIXED) {
            hint
        } else if hint != 0 {
            hint
        } else {
            self.tree.cached_hint
        };
        let start = match self.tree.get_unmapped_area(size, align, target) {
            Some(a) => a,
            None => return None,
        };
        let end = start + size;
        let ghost s = self.tree.nodes@;
        proof { lemma_fit_place(s, 0, size, align, target); }
        if self.tree.find_overlap(start).is_some() || self.tree.find_overlap(end - 1).is_some() {
            proof {
                assert(false);
            }
            return None;
        }
        self.tree.insert(VmaNode::new(start, end, flags));
        Some(start)
    }

    /// Releases the area that starts at `start`, if there is one.
    pub fn free(&mut self, start: u64)
        requires
            old(self).tree.wf(),
        ensures
            final(self).tree.wf(),
            final(self).tree.cached_hint == old(self).tree.cached_hint,
            (forall|i: int| 0 <= i < old(self).tree.nodes@.len() ==> (#[trigger] old(self).tree.nodes@[i]).start != start)
                ==> final(self).tree.nodes@ == old(self).tree.nodes@,
            (exists|i: int| 0 <= i < old(self).tree.nodes@.len() && (#[trigger] old(self).tree.nodes@[i]).start == start)
                ==> exists|k: int| 0 <= k < old(self).tree.nodes@.len() && old(self).tree.nodes@[k].start == start
                    && final(self).tree.nodes@ == old(self).tree.nodes@.remove(k),
    {
        let _ = self.tree.remove_at(start);
    }

    /// The area that holds `addr`, if any.
    pub fn find_overlap(&self, addr: u64) -> (r: Option<VmaNode>)
        requires
            self.tree.wf(),
        ensures
            r matches Some(n) ==> exists|i: int| 0 <= i < self.tree.nodes@.len() && self.tree.nodes@[i] == n && n.start <= addr < n.end,
            r is None ==> forall|i: int| 0 <= i < self.tree.nodes@.len() ==> !(self.tree.nodes@[i].start <= addr < #[trigger] self.tree.nodes@[i].end),
    {
        match self.tree.find_overlap(addr) {
            Some(i) => Some(self.tree.nodes[i]),
            None => None,
        }
    }
}

/// A place found lies in a gap: the area there overlaps no other.
proof fn lemma_fit_place(s: Seq<VmaNode>, i: nat, size: u64, align: u64, hint: u64)
    requires
        forall|k: int| 0 <= k < s.len() ==> (#[trigger] s[k]).end <= MAX_CANONICAL_ADDR && s[k].start < s[k].end,
        forall|a: int, b: int| 0 <= a < b < s.len() ==> s[a].end <= s[b].start,
        i <= s.len(),
        size > 0,
    ensures
        first_fit(s, i, size, align, hint) matches Some(a) ==> {
            &&& a + size <= MAX_CANONICAL_ADDR
            &&& a >= prev_end(s, i as int)
            &&& forall|k: int| 0 <= k < s.len() ==> (#[trigger] s[k]).end <= a || a + size <= s[k].start
        },
    decreases s.len() - i,
{
    if i < s.len() {
        lemma_fit_place(s, i + 1, size, align, hint);
        match fit(prev_end(s, i as int), s[i as int].start, size, align, hint, true) {
            Some(c) => {
                assert forall|k: int| 0 <= k < s.len() implies (#[trigger] s[k]).end <= c || c + size <= s[k].start by {
                    if k < i {
                        if i > 0 && k < i - 1 {
                            assert(s[k].end <= s[i - 1].start);
                        }
                    } else if k > i {
                        assert(s[i as int].end <= s[k].start);
                    }
                }
            },
            None => {},
        }
    }
}

/// Whether area `n` holds `addr`.
pub open spec fn holds(n: VmaNode, addr: u64) -> bool {
    n.start <= addr < n.end
}

/// An area placed among the areas (as [`Vmm::allocate`] places it) is the
/// one area that holds each of its addresses, so [`Vmm::find_overlap`]
/// finds it there.
pub proof fn lemma_placed_area_found(t: &VmaTree, s: Seq<VmaNode>, k: int, n: VmaNode, addr: u64)
    requires
        t.wf(),
        0 <= k <= s.len(),
        t.nodes@ == s.insert(k, n),
        holds(n, addr),
    ensures
        t.nodes@[k] == n,
        forall|i: int| 0 <= i < t.nodes@.len() && #[trigger] holds(t.nodes@[i], addr) ==> t.nodes@[i] == n,
{
    assert(t.nodes@[k] == n);
    assert forall|i: int| 0 <= i < t.nodes@.len() && #[trigger] holds(t.nodes@[i], addr) implies t.nodes@[i] == n by {
        if i < k {
            assert(t.nodes@[i].end <= t.nodes@[k].start);
        } else if i > k {
            assert(t.nodes@[k].end <= t.nodes@[i].start);
        }
    }
}

/// Once an area is taken out (as [`Vmm::free`] takes it out), no area holds
/// any of its addresses, so [`Vmm::find_overlap`] finds nothing there.
pub proof fn lemma_removed_area_gone(old: &VmaTree, new: &VmaTree, k: int, addr: u64)
    requires
        old.wf(),
        0 <= k < old.nodes@.len(),
        new.nodes@ == old.nodes@.remove(k),
        holds(old.nodes@[k], addr),
    ensures
        forall|i: int| 0 <= i < new.nodes@.len() ==> !#[trigger] holds(new.nodes@[i], addr),
{
    assert forall|i: int| 0 <= i < new.nodes@.len() implies !#[trigger] holds(new.nodes@[i], addr) by {
        if i < k {
            assert(new.nodes@[i] == old.nodes@[i]);
            assert(old.nodes@[i].end <= old.nodes@[k].start);
        } else {
            assert(new.nodes@[i] == old.nodes@[i + 1]);
            assert(old.nodes@[k].end <= old.nodes@[i + 1].start);
        }
    }
}

} // verus!

