//! Sorted node lists: the representation of node sets and neighbor lists.
use vstd::prelude::*;

verus! {

/// `s` is strictly increasing (hence sorted and free of duplicates).
pub open spec fn strictly_sorted(s: Seq<usize>) -> bool {
    forall|i: int, j: int| 0 <= i < j < s.len() ==> s[i] < s[j]
}

/// Every element of `s` is a node below `n`.
pub open spec fn all_below(s: Seq<usize>, n: nat) -> bool {
    forall|i: int| 0 <= i < s.len() ==> s[i] < n
}

/// Inserts `x` into a strictly sorted list, keeping it strictly sorted.
pub fn insert_sorted_unique(v: &mut Vec<usize>, x: usize)
    requires
        strictly_sorted(old(v)@),
    ensures
        strictly_sorted(final(v)@),
        forall|y: usize| final(v)@.contains(y) <==> (old(v)@.contains(y) || y == x),
{
    let mut i: usize = 0;
    while i < v.len() && v[i] < x
        invariant
            v@ == old(v)@,
            strictly_sorted(v@),
            i <= v.len(),
            forall|k: int| 0 <= k < i ==> v@[k] < x,
        decreases v.len() - i,
    {
        i = i + 1;
    }
    if i < v.len() && v[i] == x {
        assert(v@[i as int] == x);
        assert(v@.contains(x));
        return;
    }
    let ghost before = v@;
    assert(before == old(v)@);
    v.insert(i, x);
    proof {
        assert forall|y: usize| v@.contains(y) <==> (before.contains(y) || y == x) by {
            if v@.contains(y) {
                let k = choose|k: int| 0 <= k < v@.len() && v@[k] == y;
                if k < i {
                    assert(before[k] == y);
                } else if k > i {
                    assert(before[k - 1] == y);
                }
            }
            if before.contains(y) {
                let k = choose|k: int| 0 <= k < before.len() && before[k] == y;
                if k < i {
                    assert(v@[k] == y);
                } else {
                    assert(v@[k + 1] == y);
                }
            }
            if y == x {
                assert(v@[i as int] == x);
            }
        }
        assert(forall|y: usize| v@.contains(y) <==> (old(v)@.contains(y) || y == x));
    }
}

/// `x` occurs in the list.
pub fn list_contains(v: &[usize], x: usize) -> (r: bool)
    ensures
        r == v@.contains(x),
{
    let mut i: usize = 0;
    while i < v.len()
        invariant
            i <= v.len(),
            forall|k: int| 0 <= k < i ==> v@[k] != x,
        decreases v.len() - i,
    {
        if v[i] == x {
            return true;
        }
        i = i + 1;
    }
    false
}

/// `n` empty lists.
pub fn empty_lists(n: usize) -> (r: Vec<Vec<usize>>)
    ensures
        r@.len() == n,
        forall|i: int| 0 <= i < n ==> (#[trigger] r@[i])@.len() == 0,
{
    let mut r: Vec<Vec<usize>> = Vec::new();
    let mut i: usize = 0;
    while i < n
        invariant
            i <= n,
            r@.len() == i,
            forall|k: int| 0 <= k < i ==> (#[trigger] r@[k])@.len() == 0,
        decreases n - i,
    {
        r.push(Vec::new());
        i = i + 1;
    }
    r
}

/// A copy of a node list.
pub fn copy_list(v: &[usize]) -> (r: Vec<usize>)
    ensures
        r@ == v@,
{
    let mut r: Vec<usize> = Vec::new();
    let mut i: usize = 0;
    while i < v.len()
        invariant
            i <= v.len(),
            r@ == v@.subrange(0, i as int),
        decreases v.len() - i,
    {
        r.push(v[i]);
        i = i + 1;
    }
    r
}

} // verus!
