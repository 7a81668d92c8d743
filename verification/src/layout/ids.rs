//! Node ids and their indices: the sorted, duplicate-free list of ids of a graph.
//!
//! Index order is id order, so the layout stages work on indices `0..n` and still break
//! ties by id.
use vstd::prelude::*;

use crate::text::{chars_eq, chars_lt, chars_of, seq_lt, lemma_seq_lt_asymmetric, lemma_seq_lt_irreflexive,
    lemma_seq_lt_total, lemma_seq_lt_transitive};

verus! {

/// The character sequences of a list of strings.
pub open spec fn id_views(v: Seq<String>) -> Seq<Seq<char>> {
    v.map_values(|s: String| s@)
}

/// Strictly increasing in string order.
pub open spec fn ids_sorted(s: Seq<Seq<char>>) -> bool {
    forall|i: int, j: int| 0 <= i < j < s.len() ==> seq_lt(#[trigger] s[i], #[trigger] s[j])
}

/// `a < b` in string order.
pub fn str_lt(a: &str, b: &str) -> (r: bool)
    ensures
        r == seq_lt(a@, b@),
{
    let ca = chars_of(a);
    let cb = chars_of(b);
    chars_lt(ca.as_slice(), cb.as_slice())
}

/// `a` and `b` hold the same characters.
pub fn str_eq(a: &str, b: &str) -> (r: bool)
    ensures
        r == (a@ == b@),
{
    let ca = chars_of(a);
    let cb = chars_of(b);
    chars_eq(ca.as_slice(), cb.as_slice())
}

/// The ids of a graph, sorted and without duplicates; a node is an index into `ids`.
pub struct IdTable {
    pub ids: Vec<String>,
}

impl IdTable {
    /// The ids are strictly increasing.
    pub open spec fn wf(&self) -> bool {
        ids_sorted(id_views(self.ids@))
    }

    /// The ids as character sequences.
    pub open spec fn views(&self) -> Seq<Seq<char>> {
        id_views(self.ids@)
    }

    /// The table of the given ids: each once, in increasing order.
    pub fn new(ids: &Vec<String>) -> (t: IdTable)
        ensures
            t.wf(),
            forall|s: Seq<char>| t.views().contains(s) <==> id_views(ids@).contains(s),
    {
        let mut out: Vec<String> = Vec::new();
        let mut k: usize = 0;
        while k < ids.len()
            invariant
                k <= ids@.len(),
                ids_sorted(id_views(out@)),
                forall|s: Seq<char>| id_views(out@).contains(s) <==> id_views(ids@.take(k as int)).contains(s),
            decreases ids@.len() - k,
        {
            let x = &ids[k];
            let mut i: usize = 0;
            while i < out.len() && str_lt(out[i].as_str(), x.as_str())
                invariant
                    i <= out@.len(),
                    forall|m: int| 0 <= m < i ==> seq_lt(#[trigger] id_views(out@)[m], x@),
                decreases out@.len() - i,
            {
                i = i + 1;
            }
            let ghost before = id_views(out@);
            let ghost pre = id_views(ids@.take(k as int));
            let ghost post = id_views(ids@.take(k + 1));
            proof {
                assert(post =~= pre.push(x@));
            }
            if i < out.len() && out[i] == *x {
                proof {
                    assert(before[i as int] == x@);
                    assert forall|s: Seq<char>| before.contains(s) <==> post.contains(s) by {
                        if post.contains(s) {
                            let t = choose|t: int| 0 <= t < post.len() && post[t] == s;
                            if t < pre.len() {
                                assert(pre[t] == s);
                            }
                        }
                        if pre.contains(s) {
                            let t = choose|t: int| 0 <= t < pre.len() && pre[t] == s;
                            assert(post[t] == s);
                        }
                    }
                }
            } else {
                proof {
                    if i < out@.len() {
                        lemma_seq_lt_total(before[i as int], x@);
                    }
                    assert forall|m: int| i <= m < before.len() implies seq_lt(x@, before[m]) by {
                        lemma_seq_lt_total(before[i as int], x@);
                        if m > i {
                            lemma_seq_lt_transitive(x@, before[i as int], before[m]);
                        }
                    }
                }
                out.insert(i, x.clone());
                proof {
                    let after = id_views(out@);
                    assert(after =~= before.insert(i as int, x@));
                    assert forall|a: int, b: int| 0 <= a < b < after.len() implies seq_lt(#[trigger] after[a], #[trigger] after[b]) by {
                        if b < i {
                            assert(seq_lt(before[a], before[b]));
                        } else if a > i {
                            assert(seq_lt(before[a - 1], before[b - 1]));
                        } else if a == i {
                            assert(seq_lt(x@, before[b - 1]));
                        } else if b == i {
                            assert(seq_lt(before[a], x@));
                        } else {
                            assert(seq_lt(before[a], before[b - 1]));
                        }
                    }
                    assert forall|s: Seq<char>| after.contains(s) <==> post.contains(s) by {
                        if after.contains(s) {
                            let m = choose|m: int| 0 <= m < after.len() && after[m] == s;
                            if m < i {
                                assert(before[m] == s);
                            } else if m > i {
                                assert(before[m - 1] == s);
                            }
                            if s != x@ {
                                assert(before.contains(s));
                                let t = choose|t: int| 0 <= t < pre.len() && pre[t] == s;
                                assert(post[t] == s);
                            } else {
                                assert(post[k as int] == x@);
                            }
                        }
                        if post.contains(s) {
                            let t = choose|t: int| 0 <= t < post.len() && post[t] == s;
                            if t < pre.len() {
                                assert(pre[t] == s);
                                assert(before.contains(s));
                                let m = choose|m: int| 0 <= m < before.len() && before[m] == s;
                                if m < i {
                                    assert(after[m] == s);
                                } else {
                                    assert(after[m + 1] == s);
                                }
                            } else {
                                assert(after[i as int] == s);
                            }
                        }
                    }
                }
            }
            k = k + 1;
        }
        proof {
            assert(ids@.take(ids@.len() as int) =~= ids@);
        }
        IdTable { ids: out }
    }

    /// The number of ids.
    pub fn len(&self) -> (n: usize)
        ensures
            n == self.ids@.len(),
    {
        self.ids.len()
    }

    /// The index of `id`, if the table holds it.
    pub fn index_of(&self, id: &str) -> (r: Option<usize>)
        requires
            self.wf(),
        ensures
            match r {
                Some(i) => i < self.ids@.len() && self.views()[i as int] == id@,
                None => !self.views().contains(id@),
            },
    {
        let mut i: usize = 0;
        while i < self.ids.len()
            invariant
                i <= self.ids@.len(),
                forall|m: int| 0 <= m < i ==> #[trigger] self.views()[m] != id@,
            decreases self.ids@.len() - i,
        {
            if str_eq(self.ids[i].as_str(), id) {
                return Some(i);
            }
            i = i + 1;
        }
        None
    }
}

/// Inserts `x` into a strictly increasing list of strings, keeping it so (an ordered set).
pub fn string_set_insert(v: &mut Vec<String>, x: String)
    requires
        ids_sorted(id_views(old(v)@)),
    ensures
        ids_sorted(id_views(final(v)@)),
        forall|s: Seq<char>| id_views(final(v)@).contains(s) <==> (id_views(old(v)@).contains(s) || s == x@),
{
    let mut i: usize = 0;
    while i < v.len() && str_lt(v[i].as_str(), x.as_str())
        invariant
            i <= v@.len(),
            forall|m: int| 0 <= m < i ==> seq_lt(#[trigger] id_views(v@)[m], x@),
        decreases v@.len() - i,
    {
        i = i + 1;
    }
    let ghost before = id_views(v@);
    if i < v.len() && v[i] == x {
        proof {
            assert(before[i as int] == x@);
        }
        return;
    }
    proof {
        if i < v@.len() {
            lemma_seq_lt_total(before[i as int], x@);
        }
        assert forall|m: int| i <= m < before.len() implies seq_lt(x@, before[m]) by {
            lemma_seq_lt_total(before[i as int], x@);
            if m > i {
                lemma_seq_lt_transitive(x@, before[i as int], before[m]);
            }
        }
    }
    let ghost xv = x@;
    v.insert(i, x);
    proof {
        let after = id_views(v@);
        assert(after =~= before.insert(i as int, xv));
        assert forall|a: int, b: int| 0 <= a < b < after.len() implies seq_lt(#[trigger] after[a], #[trigger] after[b]) by {
            if b < i {
                assert(seq_lt(before[a], before[b]));
            } else if a > i {
                assert(seq_lt(before[a - 1], before[b - 1]));
            } else if a == i {
                assert(seq_lt(xv, before[b - 1]));
            } else if b == i {
                assert(seq_lt(before[a], xv));
            } else {
                assert(seq_lt(before[a], before[b - 1]));
            }
        }
        assert forall|s: Seq<char>| after.contains(s) <==> (before.contains(s) || s == xv) by {
            if after.contains(s) {
                let m = choose|m: int| 0 <= m < after.len() && after[m] == s;
                if m < i {
                    assert(before[m] == s);
                } else if m > i {
                    assert(before[m - 1] == s);
                }
            }
            if before.contains(s) {
                let m = choose|m: int| 0 <= m < before.len() && before[m] == s;
                if m < i {
                    assert(after[m] == s);
                } else {
                    assert(after[m + 1] == s);
                }
            }
            if s == xv {
                assert(after[i as int] == s);
            }
        }
    }
}

} // verus!
