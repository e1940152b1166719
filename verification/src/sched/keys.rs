//! Scheduling keys and sets of them, kept in vectors without repeats and
//! ordered lexicographically, as `(deadline, vruntime, id)` and
//! `(deadline, id)` tuples.

use vstd::prelude::*;

verus! {

/// Lexicographic order of `(deadline, vruntime, id)` keys.
pub open spec fn lt3(a: (u64, u64, u64), b: (u64, u64, u64)) -> bool {
    a.0 < b.0 || (a.0 == b.0 && (a.1 < b.1 || (a.1 == b.1 && a.2 < b.2)))
}

/// Lexicographic order of `(deadline, id)` keys.
pub open spec fn lt2(a: (u64, u64), b: (u64, u64)) -> bool {
    a.0 < b.0 || (a.0 == b.0 && a.1 < b.1)
}

/// Whether `a` comes before `b`.
pub fn key3_lt(a: (u64, u64, u64), b: (u64, u64, u64)) -> (r: bool)
    ensures
        r == lt3(a, b),
{
    a.0 < b.0 || (a.0 == b.0 && (a.1 < b.1 || (a.1 == b.1 && a.2 < b.2)))
}

/// Whether `a` comes before `b`.
pub fn key2_lt(a: (u64, u64), b: (u64, u64)) -> (r: bool)
    ensures
        r == lt2(a, b),
{
    a.0 < b.0 || (a.0 == b.0 && a.1 < b.1)
}

/// Pushing `k` adds it to the set of the sequence, and keeps a sequence
/// without repeats so when `k` is new.
pub proof fn lemma_push_set<T>(s: Seq<T>, k: T)
    ensures
        s.push(k).to_set() == s.to_set().insert(k),
        s.no_duplicates() && !s.contains(k) ==> s.push(k).no_duplicates(),
{
    let t = s.push(k);
    assert forall|x: T| #[trigger] t.to_set().contains(x) == s.to_set().insert(k).contains(x) by {
        if t.contains(x) {
            let j = choose|j: int| 0 <= j < t.len() && t[j] == x;
            if j < s.len() { assert(s[j] == x); }
        }
        if s.contains(x) {
            let j = choose|j: int| 0 <= j < s.len() && s[j] == x;
            assert(t[j] == x);
        }
        if x == k { assert(t[s.len() as int] == x); }
    }
    assert(t.to_set() =~= s.to_set().insert(k));
    if s.no_duplicates() && !s.contains(k) {
        assert forall|a: int, b: int| 0 <= a < t.len() && 0 <= b < t.len() && a != b implies t[a] != t[b] by {
            if a < s.len() && b < s.len() {
            } else if a < s.len() {
                assert(s.contains(s[a]));
            } else if b < s.len() {
                assert(s.contains(s[b]));
            }
        }
    }
}

/// Removing the item at `i` of a sequence without repeats takes it out
/// of the set and keeps the sequence without repeats.
pub proof fn lemma_remove_set<T>(s: Seq<T>, i: int)
    requires
        0 <= i < s.len(),
        s.no_duplicates(),
    ensures
        s.remove(i).to_set() == s.to_set().remove(s[i]),
        s.remove(i).no_duplicates(),
{
    let t = s.remove(i);
    assert forall|x: T| #[trigger] t.to_set().contains(x) == s.to_set().remove(s[i]).contains(x) by {
        if t.contains(x) {
            let j = choose|j: int| 0 <= j < t.len() && t[j] == x;
            if j < i { assert(s[j] == x); } else { assert(s[j + 1] == x); }
        }
        if s.contains(x) && x != s[i] {
            let j = choose|j: int| 0 <= j < s.len() && s[j] == x;
            if j < i { assert(t[j] == x); } else { assert(j != i); assert(t[j - 1] == x); }
        }
    }
    assert(t.to_set() =~= s.to_set().remove(s[i]));
    assert forall|a: int, b: int| 0 <= a < t.len() && 0 <= b < t.len() && a != b implies t[a] != t[b] by {
        let a2 = if a < i { a } else { a + 1 };
        let b2 = if b < i { b } else { b + 1 };
        assert(t[a] == s[a2]);
        assert(t[b] == s[b2]);
    }
}

/// Adds `k` to the set `v` (no change if it is there).
pub fn set3_insert(v: &mut Vec<(u64, u64, u64)>, k: (u64, u64, u64))
    requires
        old(v)@.no_duplicates(),
    ensures
        final(v)@.no_duplicates(),
        final(v)@.to_set() == old(v)@.to_set().insert(k),
{
    let mut i: usize = 0;
    while i < v.len()
        invariant
            i <= v@.len(),
            v@ == old(v)@,
            v@.no_duplicates(),
            forall|j: int| 0 <= j < i ==> v@[j] != k,
        decreases v@.len() - i,
    {
        let x = v[i];
        if x.0 == k.0 && x.1 == k.1 && x.2 == k.2 {
            proof {
                assert(v@[i as int] == k);
                assert(v@.to_set().contains(k));
                assert(v@.to_set().insert(k) =~= v@.to_set());
            }
            return;
        }
        i = i + 1;
    }
    let ghost before = v@;
    v.push(k);
    proof {
        lemma_push_set(before, k);
    }
}

/// Takes `k` out of the set `v`.
pub fn set3_remove(v: &mut Vec<(u64, u64, u64)>, k: (u64, u64, u64))
    requires
        old(v)@.no_duplicates(),
    ensures
        final(v)@.no_duplicates(),
        final(v)@.to_set() == old(v)@.to_set().remove(k),
{
    let mut i: usize = 0;
    while i < v.len()
        invariant
            i <= v@.len(),
            v@ == old(v)@,
            v@.no_duplicates(),
            forall|j: int| 0 <= j < i ==> v@[j] != k,
        decreases v@.len() - i,
    {
        let x = v[i];
        if x.0 == k.0 && x.1 == k.1 && x.2 == k.2 {
            let ghost before = v@;
            v.remove(i);
            proof {
                lemma_remove_set(before, i as int);
                assert(before[i as int] == k);
            }
            return;
        }
        i = i + 1;
    }
    proof {
        assert(!v@.contains(k));
        assert(v@.to_set().remove(k) =~= v@.to_set());
    }
}

/// Adds `k` to the set `v` (no change if it is there).
pub fn set2_insert(v: &mut Vec<(u64, u64)>, k: (u64, u64))
    requires
        old(v)@.no_duplicates(),
    ensures
        final(v)@.no_duplicates(),
        final(v)@.to_set() == old(v)@.to_set().insert(k),
{
    let mut i: usize = 0;
    while i < v.len()
        invariant
            i <= v@.len(),
            v@ == old(v)@,
            v@.no_duplicates(),
            forall|j: int| 0 <= j < i ==> v@[j] != k,
        decreases v@.len() - i,
    {
        let x = v[i];
        if x.0 == k.0 && x.1 == k.1 {
            proof {
                assert(v@[i as int] == k);
                assert(v@.to_set().contains(k));
                assert(v@.to_set().insert(k) =~= v@.to_set());
            }
            return;
        }
        i = i + 1;
    }
    let ghost before = v@;
    v.push(k);
    proof {
        lemma_push_set(before, k);
    }
}

/// Takes `k` out of the set `v`.
pub fn set2_remove(v: &mut Vec<(u64, u64)>, k: (u64, u64))
    requires
        old(v)@.no_duplicates(),
    ensures
        final(v)@.no_duplicates(),
        final(v)@.to_set() == old(v)@.to_set().remove(k),
{
    let mut i: usize = 0;
    while i < v.len()
        invariant
            i <= v@.len(),
            v@ == old(v)@,
            v@.no_duplicates(),
            forall|j: int| 0 <= j < i ==> v@[j] != k,
        decreases v@.len() - i,
    {
        let x = v[i];
        if x.0 == k.0 && x.1 == k.1 {
            let ghost before = v@;
            v.remove(i);
            proof {
                lemma_remove_set(before, i as int);
                assert(before[i as int] == k);
            }
            return;
        }
        i = i + 1;
    }
    proof {
        assert(!v@.contains(k));
        assert(v@.to_set().remove(k) =~= v@.to_set());
    }
}

} // verus!
