//! Deduplication of CSS style blocks by meaning: two blocks are the same when their rules
//! normalise to the same text, whatever the order of their declarations or selectors.
//!
//! The normaliser is conservative: it reads `selector { prop: value; }` rules; text that does not
//! read as rules is compared with its whitespace collapsed. The text is read byte by byte, each
//! byte taken as the character of the same number.
use vstd::prelude::*;

use crate::layout::ids::ids_sorted;
use crate::prep::cards::is_ascii_ws;
use crate::text::{
    ascii_lower, ascii_lower_chars, chars_eq, chars_lt, copy_chars, find_char, index_of_char, lemma_seq_lt_asymmetric,
    lemma_seq_lt_irreflexive, lemma_seq_lt_total, lemma_seq_lt_transitive, seq_lt, sub_chars, trim, trim_chars,
};

verus! {

/// The bytes of `s`'s UTF-8 encoding, each read as the character of the same number.
pub open spec fn byte_chars(s: Seq<char>) -> Seq<char> {
    vstd::utf8::encode_utf8(s).map_values(|b: u8| b as char)
}

fn byte_chars_of(s: &str) -> (r: Vec<char>)
    ensures
        r@ == byte_chars(s@),
{
    let bytes = s.as_bytes();
    let mut out: Vec<char> = Vec::new();
    let mut i: usize = 0;
    while i < bytes.len()
        invariant
            i <= bytes@.len(),
            bytes@ == vstd::utf8::encode_utf8(s@),
            out@ == bytes@.take(i as int).map_values(|b: u8| b as char),
        decreases bytes@.len() - i,
    {
        let c = bytes[i] as char;
        out.push(c);
        assert(bytes@.take(i + 1).map_values(|b: u8| b as char) =~= bytes@.take(i as int).map_values(|b: u8| b as char).push(
            c,
        ));
        i = i + 1;
    }
    assert(bytes@.take(bytes@.len() as int) =~= bytes@);
    out
}

/// Where a comment opened before `k` ends: at the first `*/` at or after `k`, else at the last
/// character (which is kept).
pub open spec fn comment_scan(s: Seq<char>, k: int) -> int
    decreases s.len() - k,
{
    if k >= 0 && k + 1 < s.len() && !(s[k] == '*' && s[k + 1] == '/') {
        comment_scan(s, k + 1)
    } else {
        k
    }
}

pub proof fn lemma_comment_scan(s: Seq<char>, k: int)
    requires
        k >= 0,
    ensures
        comment_scan(s, k) >= k,
        k + 1 < s.len() ==> comment_scan(s, k) + 1 < s.len() || comment_scan(s, k) == s.len() - 1,
    decreases s.len() - k,
{
    if k + 1 < s.len() && !(s[k] == '*' && s[k + 1] == '/') {
        lemma_comment_scan(s, k + 1);
    }
}

/// The index after a comment whose body starts at `k`.
pub open spec fn comment_next(s: Seq<char>, k: int) -> int {
    let j = comment_scan(s, k);
    if j + 1 < s.len() { j + 2 } else { j }
}

/// `s` from `i` on without its `/* ... */` comments.
pub open spec fn strip_comments_from(s: Seq<char>, i: int) -> Seq<char>
    decreases s.len() - i,
{
    if i < 0 || i >= s.len() {
        Seq::empty()
    } else if i + 1 < s.len() && s[i] == '/' && s[i + 1] == '*' {
        proof {
            lemma_comment_scan(s, i + 2);
        }
        strip_comments_from(s, comment_next(s, i + 2))
    } else {
        seq![s[i]] + strip_comments_from(s, i + 1)
    }
}

fn strip_css_comments(s: &[char]) -> (r: Vec<char>)
    ensures
        r@ == strip_comments_from(s@, 0),
{
    let mut out: Vec<char> = Vec::new();
    let mut i: usize = 0;
    while i < s.len()
        invariant
            i <= s.len(),
            strip_comments_from(s@, 0) == out@ + strip_comments_from(s@, i as int),
        decreases s.len() - i,
    {
        if i + 1 < s.len() && s[i] == '/' && s[i + 1] == '*' {
            let ghost start = i + 2;
            i = i + 2;
            proof {
                lemma_comment_scan(s@, start as int);
            }
            while i < s.len() && i + 1 < s.len() && !(s[i] == '*' && s[i + 1] == '/')
                invariant
                    start <= i <= s.len(),
                    comment_scan(s@, start as int) == comment_scan(s@, i as int),
                decreases s.len() - i,
            {
                i = i + 1;
            }
            if i < s.len() && i + 1 < s.len() {
                i = i + 2;
            }
        } else {
            let ghost before = out@;
            out.push(s[i]);
            assert(before + strip_comments_from(s@, i as int) =~= out@ + strip_comments_from(s@, i + 1));
            i = i + 1;
        }
    }
    assert(out@ + Seq::<char>::empty() =~= out@);
    out
}

/// ASCII whitespace runs of `s` collapsed: the text so far, and whether it ends in a collapsed run.
pub open spec fn collapse_state(s: Seq<char>) -> (Seq<char>, bool)
    decreases s.len(),
{
    if s.len() == 0 {
        (Seq::empty(), false)
    } else {
        let (o, p) = collapse_state(s.drop_last());
        if is_ascii_ws(s.last()) {
            if p { (o, true) } else { (o.push(' '), true) }
        } else {
            (o.push(s.last()), false)
        }
    }
}

/// `s` with each run of ASCII whitespace replaced by one space.
pub open spec fn collapse_ws(s: Seq<char>) -> Seq<char> {
    collapse_state(s).0
}

fn is_ascii_ws_char(c: char) -> (r: bool)
    ensures
        r == is_ascii_ws(c),
{
    c == ' ' || c == '\t' || c == '\n' || c == '\r' || c == '\x0C'
}

fn collapse_whitespace(s: &[char]) -> (r: Vec<char>)
    ensures
        r@ == collapse_ws(s@),
{
    let mut out: Vec<char> = Vec::new();
    let mut prev = false;
    let mut i: usize = 0;
    assert(s@.take(0) =~= Seq::<char>::empty());
    while i < s.len()
        invariant
            i <= s.len(),
            (out@, prev) == collapse_state(s@.take(i as int)),
        decreases s.len() - i,
    {
        assert(s@.take(i + 1).drop_last() =~= s@.take(i as int));
        if is_ascii_ws_char(s[i]) {
            if !prev {
                out.push(' ');
                prev = true;
            }
        } else {
            prev = false;
            out.push(s[i]);
        }
        i = i + 1;
    }
    assert(s@.take(s.len() as int) =~= s@);
    out
}

/// The pieces of `s` between occurrences of `c`: the finished pieces and the open one.
pub open spec fn split_state(s: Seq<char>, c: char) -> (Seq<Seq<char>>, Seq<char>)
    decreases s.len(),
{
    if s.len() == 0 {
        (Seq::empty(), Seq::empty())
    } else {
        let (done, cur) = split_state(s.drop_last(), c);
        if s.last() == c {
            (done.push(cur), Seq::empty())
        } else {
            (done, cur.push(s.last()))
        }
    }
}

/// `str::split(c)`: the pieces of `s` between occurrences of `c`.
pub open spec fn split_pieces(s: Seq<char>, c: char) -> Seq<Seq<char>> {
    split_state(s, c).0.push(split_state(s, c).1)
}

/// The character views of a vector of character vectors.
pub open spec fn vviews(v: Seq<Vec<char>>) -> Seq<Seq<char>> {
    v.map_values(|x: Vec<char>| x@)
}

pub fn split_on(s: &[char], c: char) -> (r: Vec<Vec<char>>)
    ensures
        vviews(r@) == split_pieces(s@, c),
{
    let mut done: Vec<Vec<char>> = Vec::new();
    let mut cur: Vec<char> = Vec::new();
    let mut i: usize = 0;
    assert(s@.take(0) =~= Seq::<char>::empty());
    assert(vviews(done@) =~= Seq::<Seq<char>>::empty());
    while i < s.len()
        invariant
            i <= s.len(),
            (vviews(done@), cur@) == split_state(s@.take(i as int), c),
        decreases s.len() - i,
    {
        assert(s@.take(i + 1).drop_last() =~= s@.take(i as int));
        if s[i] == c {
            let ghost before = vviews(done@);
            let finished = cur;
            done.push(finished);
            assert(vviews(done@) =~= before.push(finished@));
            cur = Vec::new();
            assert(cur@ =~= Seq::<char>::empty());
        } else {
            cur.push(s[i]);
        }
        i = i + 1;
    }
    assert(s@.take(s.len() as int) =~= s@);
    let ghost before = vviews(done@);
    done.push(cur);
    assert(vviews(done@) =~= split_pieces(s@, c));
    done
}

/// `r` lists, in increasing order and once each, exactly the texts that `xs` holds.
pub open spec fn lists_set_of(r: Seq<Seq<char>>, xs: Seq<Seq<char>>) -> bool {
    ids_sorted(r) && forall|s: Seq<char>| r.contains(s) <==> xs.contains(s)
}

/// The distinct texts of `xs` in increasing order (`sort` then `dedup`).
pub open spec fn sorted_distinct(xs: Seq<Seq<char>>) -> Seq<Seq<char>> {
    choose|r: Seq<Seq<char>>| lists_set_of(r, xs)
}

proof fn lemma_sorted_min(a: Seq<Seq<char>>, j: int)
    requires
        ids_sorted(a),
        0 < j < a.len(),
    ensures
        seq_lt(a[0], a[j]),
{
}

/// Two increasing lists with the same elements are equal.
pub proof fn lemma_sorted_lists_unique(a: Seq<Seq<char>>, b: Seq<Seq<char>>)
    requires
        ids_sorted(a),
        ids_sorted(b),
        forall|s: Seq<char>| a.contains(s) <==> b.contains(s),
    ensures
        a == b,
    decreases a.len(),
{
    if a.len() == 0 {
        if b.len() > 0 {
            assert(b.contains(b[0]));
        }
        assert(a =~= b);
    } else {
        assert(a.contains(a[0]));
        assert(b.contains(a[0]));
        assert(b.len() > 0);
        assert(b.contains(b[0]));
        assert(a.contains(b[0]));
        let i = choose|i: int| 0 <= i < a.len() && a[i] == b[0];
        let j = choose|j: int| 0 <= j < b.len() && b[j] == a[0];
        if i > 0 && j > 0 {
            lemma_sorted_min(a, i);
            lemma_sorted_min(b, j);
            lemma_seq_lt_asymmetric(a[0], b[0]);
        } else if i > 0 {
            lemma_sorted_min(a, i);
            lemma_seq_lt_irreflexive(a[0]);
        } else if j > 0 {
            lemma_sorted_min(b, j);
            lemma_seq_lt_irreflexive(b[0]);
        }
        assert(i == 0 || j == 0);
        assert(a[0] == b[0]);
        let ra = a.drop_first();
        let rb = b.drop_first();
        assert forall|s: Seq<char>| ra.contains(s) <==> rb.contains(s) by {
            if ra.contains(s) {
                let k = choose|k: int| 0 <= k < ra.len() && ra[k] == s;
                lemma_sorted_min(a, k + 1);
                assert(a.contains(s));
                assert(b.contains(s));
                let m = choose|m: int| 0 <= m < b.len() && b[m] == s;
                if m == 0 {
                    lemma_seq_lt_irreflexive(s);
                }
                assert(rb[m - 1] == s);
            }
            if rb.contains(s) {
                let k = choose|k: int| 0 <= k < rb.len() && rb[k] == s;
                lemma_sorted_min(b, k + 1);
                assert(b.contains(s));
                assert(a.contains(s));
                let m = choose|m: int| 0 <= m < a.len() && a[m] == s;
                if m == 0 {
                    lemma_seq_lt_irreflexive(s);
                }
                assert(ra[m - 1] == s);
            }
        }
        lemma_sorted_lists_unique(ra, rb);
        assert(a =~= seq![a[0]] + ra);
        assert(b =~= seq![b[0]] + rb);
    }
}

/// An increasing list with the elements of `xs` is their sorted distinct list.
pub proof fn lemma_sorted_distinct_is(r: Seq<Seq<char>>, xs: Seq<Seq<char>>)
    requires
        lists_set_of(r, xs),
    ensures
        sorted_distinct(xs) == r,
{
    let c = sorted_distinct(xs);
    assert(lists_set_of(c, xs));
    lemma_sorted_lists_unique(c, r);
}

/// Inserts `x` into an increasing list of distinct texts, keeping it so; tells where `x` stands
/// and whether it was new.
fn set_insert(v: &mut Vec<Vec<char>>, x: Vec<char>) -> (r: (usize, bool))
    requires
        ids_sorted(vviews(old(v)@)),
    ensures
        ids_sorted(vviews(final(v)@)),
        forall|s: Seq<char>| vviews(final(v)@).contains(s) <==> (vviews(old(v)@).contains(s) || s == x@),
        r.0 < final(v)@.len(),
        final(v)@[r.0 as int]@ == x@,
        r.1 ==> r.0 <= old(v)@.len() && vviews(final(v)@) == vviews(old(v)@).insert(r.0 as int, x@) && !vviews(
            old(v)@,
        ).contains(x@),
        !r.1 ==> vviews(final(v)@) == vviews(old(v)@),
{
    let ghost before = vviews(v@);
    let mut i: usize = 0;
    while i < v.len() && chars_lt(v[i].as_slice(), x.as_slice())
        invariant
            i <= v@.len(),
            before == vviews(v@),
            forall|m: int| 0 <= m < i ==> seq_lt(#[trigger] before[m], x@),
        decreases v@.len() - i,
    {
        i = i + 1;
    }
    if i < v.len() && chars_eq(v[i].as_slice(), x.as_slice()) {
        assert(before[i as int] == x@);
        assert(before.contains(x@));
        return (i, false);
    }
    proof {
        if i < v@.len() {
            lemma_seq_lt_total(before[i as int], x@);
        }
        assert forall|m: int| i <= m < before.len() implies seq_lt(x@, before[m]) by {
            lemma_seq_lt_total(before[i as int], x@);
            if m > i {
                lemma_seq_lt_transitive(x@, before[i as int], before[m]);
            }
        }
        assert forall|m: int| 0 <= m < before.len() implies before[m] != x@ by {
            if m < i {
                lemma_seq_lt_irreflexive(x@);
            } else {
                lemma_seq_lt_irreflexive(x@);
            }
        }
    }
    let ghost xv = x@;
    v.insert(i, x);
    proof {
        let after = vviews(v@);
        assert(after =~= before.insert(i as int, xv));
        assert forall|a: int, b: int| 0 <= a < b < after.len() implies seq_lt(#[trigger] after[a], #[trigger] after[b]) by {
            if b < i {
                assert(seq_lt(before[a], before[b]));
            } else if a > i {
                assert(seq_lt(before[a - 1], before[b - 1]));
            } else if a == i {
                assert(seq_lt(xv, before[b - 1]));
            } else if b == i {
                assert(seq_lt(before[a], xv));
            } else {
                assert(seq_lt(before[a], before[b - 1]));
            }
        }
        assert forall|s: Seq<char>| after.contains(s) <==> (before.contains(s) || s == xv) by {
            if after.contains(s) {
                let m = choose|m: int| 0 <= m < after.len() && after[m] == s;
                if m < i {
                    assert(before[m] == s);
                } else if m > i {
                    assert(before[m - 1] == s);
                }
            }
            if before.contains(s) {
                let m = choose|m: int| 0 <= m < before.len() && before[m] == s;
                if m < i {
                    assert(after[m] == s);
                } else {
                    assert(after[m + 1] == s);
                }
            }
            if s == xv {
                assert(after[i as int] == s);
            }
        }
        if before.contains(xv) {
            let m = choose|m: int| 0 <= m < before.len() && before[m] == xv;
            assert(before[m] != xv);
        }
    }
    (i, true)
}

/// The non-empty selectors of a comma-separated list, whitespace collapsed and trimmed.
pub open spec fn selector_parts(pieces: Seq<Seq<char>>) -> Seq<Seq<char>>
    decreases pieces.len(),
{
    if pieces.len() == 0 {
        Seq::empty()
    } else {
        let p = trim(collapse_ws(pieces.last()));
        selector_parts(pieces.drop_last()) + (if p.len() > 0 { seq![p] } else { Seq::empty() })
    }
}

/// The selectors of a rule: distinct, in increasing order.
pub open spec fn selectors_of(sel: Seq<char>) -> Seq<Seq<char>> {
    sorted_distinct(selector_parts(split_pieces(sel, ',')))
}

fn normalize_selectors(sel: &[char]) -> (r: Vec<Vec<char>>)
    ensures
        vviews(r@) == selectors_of(sel@),
{
    let pieces = split_on(sel, ',');
    let ghost pv = vviews(pieces@);
    let mut out: Vec<Vec<char>> = Vec::new();
    let ghost mut parts: Seq<Seq<char>> = Seq::empty();
    let mut i: usize = 0;
    assert(pv.take(0) =~= Seq::<Seq<char>>::empty());
    while i < pieces.len()
        invariant
            i <= pieces.len(),
            pv == vviews(pieces@),
            parts == selector_parts(pv.take(i as int)),
            lists_set_of(vviews(out@), parts),
        decreases pieces.len() - i,
    {
        assert(pv.take(i + 1).drop_last() =~= pv.take(i as int));
        let collapsed = collapse_whitespace(pieces[i].as_slice());
        let p = trim_chars(collapsed.as_slice());
        if p.len() > 0 {
            let ghost pview = p@;
            let ghost old_out = vviews(out@);
            set_insert(&mut out, p);
            proof {
                let np = parts.push(pview);
                assert forall|s: Seq<char>| np.contains(s) <==> (parts.contains(s) || s == pview) by {
                    if np.contains(s) {
                        let m = choose|m: int| 0 <= m < np.len() && np[m] == s;
                        if m < parts.len() {
                            assert(parts[m] == s);
                        }
                    }
                    if parts.contains(s) {
                        let m = choose|m: int| 0 <= m < parts.len() && parts[m] == s;
                        assert(np[m] == s);
                    }
                    if s == pview {
                        assert(np[parts.len() as int] == s);
                    }
                }
                assert(selector_parts(pv.take(i + 1)) =~= np);
                parts = np;
            }
        } else {
            assert(selector_parts(pv.take(i + 1)) =~= parts);
        }
        i = i + 1;
    }
    assert(pv.take(pieces.len() as int) =~= pv);
    proof {
        lemma_sorted_distinct_is(vviews(out@), parts);
    }
    out
}

/// A declaration `prop: value` read from a piece of a rule body: the property trimmed and
/// lower-cased, the value with whitespace collapsed and trimmed; none when either is empty.
pub open spec fn decl_of(raw: Seq<char>) -> Option<(Seq<char>, Seq<char>)> {
    let d = trim(raw);
    match index_of_char(d, ':') {
        None => None,
        Some(i) => {
            let p = ascii_lower(trim(d.take(i)));
            let v = trim(collapse_ws(d.skip(i + 1)));
            if p.len() == 0 || v.len() == 0 {
                None
            } else {
                Some((p, v))
            }
        },
    }
}

/// The declarations of the pieces of a rule body, in order.
pub open spec fn decl_list(pieces: Seq<Seq<char>>) -> Seq<(Seq<char>, Seq<char>)>
    decreases pieces.len(),
{
    if pieces.len() == 0 {
        Seq::empty()
    } else {
        decl_list(pieces.drop_last()) + match decl_of(pieces.last()) {
            Some(d) => seq![d],
            None => Seq::empty(),
        }
    }
}

/// The properties of the declarations.
pub open spec fn props_of(pairs: Seq<(Seq<char>, Seq<char>)>) -> Seq<Seq<char>> {
    pairs.map_values(|x: (Seq<char>, Seq<char>)| x.0)
}

/// The values given to property `k`, in order.
pub open spec fn values_for(pairs: Seq<(Seq<char>, Seq<char>)>, k: Seq<char>) -> Seq<Seq<char>>
    decreases pairs.len(),
{
    if pairs.len() == 0 {
        Seq::empty()
    } else {
        values_for(pairs.drop_last(), k) + (if pairs.last().0 == k { seq![pairs.last().1] } else { Seq::empty() })
    }
}

/// The declarations grouped by property: properties in increasing order, each with its distinct
/// values in increasing order.
pub open spec fn decl_groups(pairs: Seq<(Seq<char>, Seq<char>)>) -> Seq<(Seq<char>, Seq<Seq<char>>)> {
    let keys = sorted_distinct(props_of(pairs));
    Seq::new(keys.len(), |t: int| (keys[t], sorted_distinct(values_for(pairs, keys[t]))))
}

/// The declarations of a rule body; see [`decl_groups`].
pub open spec fn decls_of(body: Seq<char>) -> Seq<(Seq<char>, Seq<Seq<char>>)> {
    decl_groups(decl_list(split_pieces(body, ';')))
}

/// The views of grouped declarations.
pub open spec fn group_views(g: Seq<(Vec<char>, Vec<Vec<char>>)>) -> Seq<(Seq<char>, Seq<Seq<char>>)> {
    g.map_values(|e: (Vec<char>, Vec<Vec<char>>)| (e.0@, vviews(e.1@)))
}

fn read_decl(raw: &[char]) -> (r: Option<(Vec<char>, Vec<char>)>)
    ensures
        match decl_of(raw@) {
            Some(d) => r matches Some(x) && x.0@ == d.0 && x.1@ == d.1,
            None => r is None,
        },
{
    let d = trim_chars(raw);
    match find_char(d.as_slice(), ':') {
        None => None,
        Some(i) => {
            let head = sub_chars(d.as_slice(), 0, i);
            assert(head@ =~= d@.take(i as int));
            let tail = sub_chars(d.as_slice(), i + 1, d.len());
            assert(tail@ =~= d@.skip(i + 1));
            let trimmed = trim_chars(head.as_slice());
            let p = ascii_lower_chars(trimmed.as_slice());
            let collapsed = collapse_whitespace(tail.as_slice());
            let v = trim_chars(collapsed.as_slice());
            if p.len() == 0 || v.len() == 0 {
                None
            } else {
                Some((p, v))
            }
        },
    }
}

proof fn lemma_values_for_props(pairs: Seq<(Seq<char>, Seq<char>)>, k: Seq<char>)
    requires
        values_for(pairs, k).len() > 0,
    ensures
        props_of(pairs).contains(k),
    decreases pairs.len(),
{
    if pairs.len() > 0 {
        if pairs.last().0 == k {
            assert(props_of(pairs)[pairs.len() - 1] == k);
        } else {
            lemma_values_for_props(pairs.drop_last(), k);
            let m = choose|m: int| 0 <= m < props_of(pairs.drop_last()).len() && props_of(pairs.drop_last())[m] == k;
            assert(props_of(pairs)[m] == k);
        }
    }
}

proof fn lemma_push_contains(xs: Seq<Seq<char>>, x: Seq<char>)
    ensures
        forall|s: Seq<char>| xs.push(x).contains(s) <==> (xs.contains(s) || s == x),
{
    assert forall|s: Seq<char>| xs.push(x).contains(s) <==> (xs.contains(s) || s == x) by {
        if xs.push(x).contains(s) {
            let m = choose|m: int| 0 <= m < xs.push(x).len() && xs.push(x)[m] == s;
            if m < xs.len() {
                assert(xs[m] == s);
            }
        }
        if xs.contains(s) {
            let m = choose|m: int| 0 <= m < xs.len() && xs[m] == s;
            assert(xs.push(x)[m] == s);
        }
        if s == x {
            assert(xs.push(x)[xs.len() as int] == s);
        }
    }
}

fn normalize_declarations(body: &[char]) -> (r: Vec<(Vec<char>, Vec<Vec<char>>)>)
    ensures
        group_views(r@) == decls_of(body@),
{
    let pieces = split_on(body, ';');
    let ghost pv = vviews(pieces@);
    let mut keys: Vec<Vec<char>> = Vec::new();
    let mut vals: Vec<Vec<Vec<char>>> = Vec::new();
    let ghost mut pairs: Seq<(Seq<char>, Seq<char>)> = Seq::empty();
    let mut i: usize = 0;
    assert(pv.take(0) =~= Seq::<Seq<char>>::empty());
    while i < pieces.len()
        invariant
            i <= pieces.len(),
            pv == vviews(pieces@),
            pairs == decl_list(pv.take(i as int)),
            lists_set_of(vviews(keys@), props_of(pairs)),
            vals.len() == keys.len(),
            forall|t: int| 0 <= t < vals.len() ==> lists_set_of(vviews(#[trigger] vals@[t]@), values_for(pairs, keys@[t]@)),
        decreases pieces.len() - i,
    {
        assert(pv.take(i + 1).drop_last() =~= pv.take(i as int));
        match read_decl(pieces[i].as_slice()) {
            None => {
                assert(decl_list(pv.take(i + 1)) =~= pairs);
            },
            Some((p, v)) => {
                let ghost pview = p@;
                let ghost vview = v@;
                let ghost np = pairs.push((pview, vview));
                assert(decl_list(pv.take(i + 1)) =~= np);
                assert(props_of(np) =~= props_of(pairs).push(pview));
                proof {
                    lemma_push_contains(props_of(pairs), pview);
                }
                let ghost old_keys = vviews(keys@);
                let ghost old_vals = vals@;
                let res = set_insert(&mut keys, p);
                let pos = res.0;
                let inserted = res.1;
                assert(keys@[pos as int]@ == pview);
                assert forall|k: Seq<char>| #[trigger] values_for(np, k) == values_for(pairs, k) + (if k == pview {
                    seq![vview]
                } else {
                    Seq::empty()
                }) by {
                    assert(np.drop_last() =~= pairs);
                }
                if inserted {
                    let mut fresh: Vec<Vec<char>> = Vec::new();
                    fresh.push(v);
                    vals.insert(pos, fresh);
                    proof {
                        assert forall|t: int| 0 <= t < vals.len() implies lists_set_of(
                            vviews(#[trigger] vals@[t]@),
                            values_for(np, keys@[t]@),
                        ) by {
                            if t == pos {
                                if values_for(pairs, pview).len() > 0 {
                                    lemma_values_for_props(pairs, pview);
                                }
                                assert(values_for(pairs, pview) =~= Seq::<Seq<char>>::empty());
                                assert(vviews(vals@[t]@) =~= seq![vview]);
                                assert(values_for(np, pview) =~= seq![vview]);
                                lemma_push_contains(Seq::<Seq<char>>::empty(), vview);
                                assert(Seq::<Seq<char>>::empty().push(vview) =~= seq![vview]);
                            } else if t < pos {
                                assert(vals@[t] == old_vals[t]);
                                assert(vviews(keys@)[t] == old_keys.insert(pos as int, pview)[t]);
                                assert(keys@[t]@ == old_keys[t]);
                                assert(keys@[t]@ != pview);
                                assert(values_for(np, keys@[t]@) =~= values_for(pairs, keys@[t]@));
                            } else {
                                assert(vals@[t] == old_vals[t - 1]);
                                assert(vviews(keys@)[t] == old_keys.insert(pos as int, pview)[t]);
                                assert(keys@[t]@ == old_keys[t - 1]);
                                assert(keys@[t]@ != pview);
                                assert(values_for(np, keys@[t]@) =~= values_for(pairs, keys@[t]@));
                            }
                        }
                    }
                } else {
                    assert(vviews(keys@) == old_keys);
                    assert(old_keys[pos as int] == keys@[pos as int]@);
                    assert(lists_set_of(vviews(old_vals[pos as int]@), values_for(pairs, old_keys[pos as int])));
                    assert(keys@[pos as int]@ == pview);
                    let mut inner: Vec<Vec<char>> = Vec::new();
                    std::mem::swap(&mut inner, &mut vals[pos]);
                    assert(inner@ == old_vals[pos as int]@);
                    let ghost old_inner = vviews(inner@);
                    set_insert(&mut inner, v);
                    vals.set(pos, inner);
                    proof {
                        assert forall|t: int| 0 <= t < vals.len() implies lists_set_of(
                            vviews(#[trigger] vals@[t]@),
                            values_for(np, keys@[t]@),
                        ) by {
                            if t == pos {
                                assert(keys@[t]@ == pview);
                                lemma_push_contains(values_for(pairs, pview), vview);
                                assert(values_for(np, pview) == values_for(pairs, pview).push(vview));
                                assert(vviews(vals@[t]@) == vviews(inner@));
                            } else {
                                assert(vals@[t] == old_vals[t]);
                                assert(keys@[t]@ == old_keys[t]);
                                assert(keys@[t]@ != pview) by {
                                    if keys@[t]@ == pview {
                                        assert(ids_sorted(old_keys));
                                        if t < pos {
                                            assert(seq_lt(old_keys[t], old_keys[pos as int]));
                                        } else {
                                            assert(seq_lt(old_keys[pos as int], old_keys[t]));
                                        }
                                        lemma_seq_lt_irreflexive(pview);
                                    }
                                }
                                assert(values_for(np, keys@[t]@) =~= values_for(pairs, keys@[t]@));
                            }
                        }
                    }
                }
                proof {
                    pairs = np;
                }
            },
        }
        i = i + 1;
    }
    assert(pv.take(pieces.len() as int) =~= pv);
    let mut out: Vec<(Vec<char>, Vec<Vec<char>>)> = Vec::new();
    let mut t: usize = 0;
    proof {
        lemma_sorted_distinct_is(vviews(keys@), props_of(pairs));
    }
    let ghost ks = vviews(keys@);
    let ghost groups = decl_groups(pairs);
    while t < keys.len()
        invariant
            t <= keys.len(),
            vals.len() == keys.len(),
            ks == vviews(keys@),
            groups == decl_groups(pairs),
            sorted_distinct(props_of(pairs)) == ks,
            forall|u: int| 0 <= u < vals.len() ==> lists_set_of(vviews(#[trigger] vals@[u]@), values_for(pairs, keys@[u]@)),
            group_views(out@) == groups.take(t as int),
        decreases keys.len() - t,
    {
        let k = copy_chars(keys[t].as_slice());
        let mut vs: Vec<Vec<char>> = Vec::new();
        let mut m: usize = 0;
        while m < vals[t].len()
            invariant
                t < vals.len(),
                m <= vals@[t as int]@.len(),
                vviews(vs@) == vviews(vals@[t as int]@).take(m as int),
            decreases vals@[t as int]@.len() - m,
        {
            let w = copy_chars(vals[t][m].as_slice());
            assert(w@ == vviews(vals@[t as int]@)[m as int]);
            let ghost before = vviews(vs@);
            vs.push(w);
            assert(vviews(vs@) =~= before.push(w@));
            assert(vviews(vals@[t as int]@).take(m + 1) =~= vviews(vals@[t as int]@).take(m as int).push(
                vviews(vals@[t as int]@)[m as int],
            ));
            m = m + 1;
        }
        assert(vviews(vals@[t as int]@).take(m as int) =~= vviews(vals@[t as int]@));
        proof {
            lemma_sorted_distinct_is(vviews(vals@[t as int]@), values_for(pairs, keys@[t as int]@));
        }
        let ghost before = group_views(out@);
        assert(groups[t as int] == (ks[t as int], sorted_distinct(values_for(pairs, ks[t as int]))));
        assert(k@ == ks[t as int]);
        assert(vviews(vs@) == sorted_distinct(values_for(pairs, ks[t as int])));
        let ghost entry = (k@, vviews(vs@));
        out.push((k, vs));
        assert(group_views(out@) =~= before.push(entry));
        assert(groups.take(t + 1) =~= groups.take(t as int).push(groups[t as int]));
        t = t + 1;
    }
    assert(groups.take(keys.len() as int) =~= groups);
    out
}

/// A rule: its selectors, and its declarations grouped by property.
pub struct CssRule {
    pub selectors: Vec<Vec<char>>,
    pub decls: Vec<(Vec<char>, Vec<Vec<char>>)>,
}

/// The view of a rule.
pub open spec fn rule_view(r: CssRule) -> (Seq<Seq<char>>, Seq<(Seq<char>, Seq<Seq<char>>)>) {
    (vviews(r.selectors@), group_views(r.decls@))
}

/// The views of a list of rules.
pub open spec fn rule_views(v: Seq<CssRule>) -> Seq<(Seq<Seq<char>>, Seq<(Seq<char>, Seq<Seq<char>>)>)> {
    v.map_values(|r: CssRule| rule_view(r))
}

/// The index of the `}` that closes a block whose body starts at `i`, `depth` blocks being open.
pub open spec fn close_brace(css: Seq<char>, i: int, depth: nat) -> Option<int>
    decreases css.len() - i,
{
    if i < 0 || i >= css.len() {
        None
    } else if css[i] == '{' {
        close_brace(css, i + 1, depth + 1)
    } else if css[i] == '}' {
        if depth <= 1 {
            Some(i)
        } else {
            close_brace(css, i + 1, (depth - 1) as nat)
        }
    } else {
        close_brace(css, i + 1, depth)
    }
}

pub proof fn lemma_close_brace(css: Seq<char>, i: int, depth: nat)
    ensures
        close_brace(css, i, depth) matches Some(c) ==> i <= c < css.len(),
    decreases css.len() - i,
{
    if 0 <= i < css.len() {
        lemma_close_brace(css, i + 1, depth + 1);
        if depth > 1 {
            lemma_close_brace(css, i + 1, (depth - 1) as nat);
        }
        lemma_close_brace(css, i + 1, depth);
    }
}

/// The rules of `css` from `cursor` on: each a selector text up to the next `{`, and a body up to
/// its matching `}`; rules with an empty selector are dropped. None when some `{` or its `}` is
/// missing (trailing text after the last rule counts as a rule without `{`).
pub open spec fn rules_from(css: Seq<char>, cursor: int) -> Option<Seq<(Seq<Seq<char>>, Seq<(Seq<char>, Seq<Seq<char>>)>)>>
    decreases css.len() - cursor,
{
    if cursor < 0 || cursor >= css.len() {
        Some(Seq::empty())
    } else {
        match index_of_char(css.skip(cursor), '{') {
            None => None,
            Some(o) => {
                let open = cursor + o;
                match close_brace(css, open + 1, 1) {
                    None => None,
                    Some(close) => {
                        proof {
                            lemma_close_brace(css, open + 1, 1);
                        }
                        if close <= cursor || open < cursor {
                            None
                        } else {
                            let sel = trim(css.subrange(cursor, open));
                            match rules_from(css, close + 1) {
                                None => None,
                                Some(r) => Some(
                                    if sel.len() == 0 {
                                        r
                                    } else {
                                        seq![(selectors_of(sel), decls_of(css.subrange(open + 1, close)))] + r
                                    },
                                ),
                            }
                        }
                    },
                }
            },
        }
    }
}

/// `acc` followed by the rules in `o`, if any.
pub open spec fn after_rules(
    acc: Seq<(Seq<Seq<char>>, Seq<(Seq<char>, Seq<Seq<char>>)>)>,
    o: Option<Seq<(Seq<Seq<char>>, Seq<(Seq<char>, Seq<Seq<char>>)>)>>,
) -> Option<Seq<(Seq<Seq<char>>, Seq<(Seq<char>, Seq<Seq<char>>)>)>> {
    match o {
        None => None,
        Some(r) => Some(acc + r),
    }
}

fn find_close_brace(css: &[char], start: usize) -> (r: Option<usize>)
    requires
        start >= 1,
    ensures
        match close_brace(css@, start as int, 1) {
            Some(c) => r == Some(c as usize),
            None => r is None,
        },
{
    let mut depth: usize = 1;
    let mut i: usize = start;
    proof {
        lemma_close_brace(css@, start as int, 1);
    }
    while i < css.len()
        invariant
            1 <= start <= i,
            1 <= depth <= i - start + 1,
            close_brace(css@, start as int, 1) == close_brace(css@, i as int, depth as nat),
        decreases css.len() - i,
    {
        proof {
            lemma_close_brace(css@, i as int, depth as nat);
        }
        if css[i] == '{' {
            depth = depth + 1;
        } else if css[i] == '}' {
            if depth <= 1 {
                return Some(i);
            }
            depth = depth - 1;
        }
        i = i + 1;
    }
    None
}

fn parse_rules(css: &[char]) -> (r: Option<Vec<CssRule>>)
    ensures
        match rules_from(css@, 0) {
            Some(rs) => r matches Some(v) && rule_views(v@) == rs,
            None => r is None,
        },
{
    let mut rules: Vec<CssRule> = Vec::new();
    let mut cursor: usize = 0;
    assert(after_rules(Seq::empty(), rules_from(css@, 0)) =~= rules_from(css@, 0)) by {
        match rules_from(css@, 0) {
            Some(r) => {
                assert(Seq::<(Seq<Seq<char>>, Seq<(Seq<char>, Seq<Seq<char>>)>)>::empty() + r =~= r);
            },
            None => {},
        }
    }
    assert(rule_views(rules@) =~= Seq::<(Seq<Seq<char>>, Seq<(Seq<char>, Seq<Seq<char>>)>)>::empty());
    while cursor < css.len()
        invariant
            cursor <= css.len(),
            rules_from(css@, 0) == after_rules(rule_views(rules@), rules_from(css@, cursor as int)),
        decreases css.len() - cursor,
    {
        let rest = sub_chars(css, cursor, css.len());
        assert(rest@ =~= css@.skip(cursor as int));
        let o = match find_char(rest.as_slice(), '{') {
            Some(o) => o,
            None => {
                return None;
            },
        };
        let open = cursor + o;
        let close = match find_close_brace(css, open + 1) {
            Some(c) => c,
            None => {
                return None;
            },
        };
        proof {
            lemma_close_brace(css@, open + 1, 1);
        }
        let sel_text = sub_chars(css, cursor, open);
        let sel = trim_chars(sel_text.as_slice());
        let ghost before = rule_views(rules@);
        if sel.len() > 0 {
            let selectors = normalize_selectors(sel.as_slice());
            let body = sub_chars(css, open + 1, close);
            let decls = normalize_declarations(body.as_slice());
            let rule = CssRule { selectors, decls };
            let ghost rv = rule_view(rule);
            rules.push(rule);
            assert(rule_views(rules@) =~= before.push(rv));
            proof {
                match rules_from(css@, close + 1) {
                    Some(r) => {
                        assert(before + (seq![rv] + r) =~= before.push(rv) + r);
                    },
                    None => {},
                }
            }
        }
        cursor = close + 1;
    }
    proof {
        assert(rules_from(css@, cursor as int) == Some(Seq::<(Seq<Seq<char>>, Seq<(Seq<char>, Seq<Seq<char>>)>)>::empty()));
        assert(rule_views(rules@) + Seq::<(Seq<Seq<char>>, Seq<(Seq<char>, Seq<Seq<char>>)>)>::empty() =~= rule_views(rules@));
    }
    Some(rules)
}

/// Lexicographic order of lists of texts (the order of `Vec<String>`).
pub open spec fn texts_lt(a: Seq<Seq<char>>, b: Seq<Seq<char>>) -> bool
    decreases a.len(),
{
    if a.len() == 0 {
        b.len() > 0
    } else if b.len() == 0 {
        false
    } else if a[0] != b[0] {
        seq_lt(a[0], b[0])
    } else {
        texts_lt(a.drop_first(), b.drop_first())
    }
}

/// Order of property groups: by property, then by values.
pub open spec fn group_lt(x: (Seq<char>, Seq<Seq<char>>), y: (Seq<char>, Seq<Seq<char>>)) -> bool {
    seq_lt(x.0, y.0) || (x.0 == y.0 && texts_lt(x.1, y.1))
}

/// Lexicographic order of grouped declarations (the order of the property map).
pub open spec fn groups_lt(a: Seq<(Seq<char>, Seq<Seq<char>>)>, b: Seq<(Seq<char>, Seq<Seq<char>>)>) -> bool
    decreases a.len(),
{
    if a.len() == 0 {
        b.len() > 0
    } else if b.len() == 0 {
        false
    } else if a[0] != b[0] {
        group_lt(a[0], b[0])
    } else {
        groups_lt(a.drop_first(), b.drop_first())
    }
}

/// Order of rules: by selectors, then by declarations.
pub open spec fn rule_lt(
    x: (Seq<Seq<char>>, Seq<(Seq<char>, Seq<Seq<char>>)>),
    y: (Seq<Seq<char>>, Seq<(Seq<char>, Seq<Seq<char>>)>),
) -> bool {
    texts_lt(x.0, y.0) || (x.0 == y.0 && groups_lt(x.1, y.1))
}

fn texts_eq(a: &Vec<Vec<char>>, b: &Vec<Vec<char>>) -> (r: bool)
    ensures
        r == (vviews(a@) == vviews(b@)),
{
    if a.len() != b.len() {
        assert(vviews(a@).len() != vviews(b@).len());
        return false;
    }
    let mut i: usize = 0;
    while i < a.len()
        invariant
            a.len() == b.len(),
            i <= a.len(),
            forall|k: int| 0 <= k < i ==> vviews(a@)[k] == vviews(b@)[k],
        decreases a.len() - i,
    {
        if !chars_eq(a[i].as_slice(), b[i].as_slice()) {
            assert(vviews(a@)[i as int] != vviews(b@)[i as int]);
            return false;
        }
        i = i + 1;
    }
    assert(vviews(a@) =~= vviews(b@));
    true
}

fn texts_less(a: &Vec<Vec<char>>, b: &Vec<Vec<char>>) -> (r: bool)
    ensures
        r == texts_lt(vviews(a@), vviews(b@)),
{
    let ghost av = vviews(a@);
    let ghost bv = vviews(b@);
    let mut i: usize = 0;
    assert(av.skip(0) =~= av);
    assert(bv.skip(0) =~= bv);
    loop
        invariant
            i <= a.len(),
            i <= b.len(),
            av == vviews(a@),
            bv == vviews(b@),
            texts_lt(av, bv) == texts_lt(av.skip(i as int), bv.skip(i as int)),
        decreases a.len() - i,
    {
        if i == a.len() {
            return i < b.len();
        }
        if i == b.len() {
            return false;
        }
        assert(av.skip(i as int)[0] == av[i as int]);
        assert(bv.skip(i as int)[0] == bv[i as int]);
        if !chars_eq(a[i].as_slice(), b[i].as_slice()) {
            return chars_lt(a[i].as_slice(), b[i].as_slice());
        }
        assert(av.skip(i as int).drop_first() =~= av.skip(i + 1));
        assert(bv.skip(i as int).drop_first() =~= bv.skip(i + 1));
        i = i + 1;
    }
}

fn group_eq(x: &(Vec<char>, Vec<Vec<char>>), y: &(Vec<char>, Vec<Vec<char>>)) -> (r: bool)
    ensures
        r == ((x.0@, vviews(x.1@)) == (y.0@, vviews(y.1@))),
{
    chars_eq(x.0.as_slice(), y.0.as_slice()) && texts_eq(&x.1, &y.1)
}

fn group_less(x: &(Vec<char>, Vec<Vec<char>>), y: &(Vec<char>, Vec<Vec<char>>)) -> (r: bool)
    ensures
        r == group_lt((x.0@, vviews(x.1@)), (y.0@, vviews(y.1@))),
{
    chars_lt(x.0.as_slice(), y.0.as_slice()) || (chars_eq(x.0.as_slice(), y.0.as_slice()) && texts_less(&x.1, &y.1))
}

fn groups_less(a: &Vec<(Vec<char>, Vec<Vec<char>>)>, b: &Vec<(Vec<char>, Vec<Vec<char>>)>) -> (r: bool)
    ensures
        r == groups_lt(group_views(a@), group_views(b@)),
{
    let ghost av = group_views(a@);
    let ghost bv = group_views(b@);
    let mut i: usize = 0;
    assert(av.skip(0) =~= av);
    assert(bv.skip(0) =~= bv);
    loop
        invariant
            i <= a.len(),
            i <= b.len(),
            av == group_views(a@),
            bv == group_views(b@),
            groups_lt(av, bv) == groups_lt(av.skip(i as int), bv.skip(i as int)),
        decreases a.len() - i,
    {
        if i == a.len() {
            return i < b.len();
        }
        if i == b.len() {
            return false;
        }
        assert(av.skip(i as int)[0] == av[i as int]);
        assert(bv.skip(i as int)[0] == bv[i as int]);
        if !group_eq(&a[i], &b[i]) {
            return group_less(&a[i], &b[i]);
        }
        assert(av.skip(i as int).drop_first() =~= av.skip(i + 1));
        assert(bv.skip(i as int).drop_first() =~= bv.skip(i + 1));
        i = i + 1;
    }
}

fn rule_less(x: &CssRule, y: &CssRule) -> (r: bool)
    ensures
        r == rule_lt(rule_view(*x), rule_view(*y)),
{
    texts_less(&x.selectors, &y.selectors) || (texts_eq(&x.selectors, &y.selectors) && groups_less(&x.decls, &y.decls))
}

/// Where a stable insertion puts `x` into `s`: before the first element greater than `x`.
pub open spec fn insert_at(
    s: Seq<(Seq<Seq<char>>, Seq<(Seq<char>, Seq<Seq<char>>)>)>,
    x: (Seq<Seq<char>>, Seq<(Seq<char>, Seq<Seq<char>>)>),
    t: int,
) -> int
    decreases s.len() - t,
{
    if t < 0 || t >= s.len() || rule_lt(x, s[t]) {
        t
    } else {
        insert_at(s, x, t + 1)
    }
}

/// The rules sorted by [`rule_lt`], keeping the order of equal rules (a stable sort).
pub open spec fn sort_rules(rs: Seq<(Seq<Seq<char>>, Seq<(Seq<char>, Seq<Seq<char>>)>)>) -> Seq<
    (Seq<Seq<char>>, Seq<(Seq<char>, Seq<Seq<char>>)>),
>
    decreases rs.len(),
{
    if rs.len() == 0 {
        Seq::empty()
    } else {
        let s = sort_rules(rs.drop_last());
        s.insert(insert_at(s, rs.last(), 0), rs.last())
    }
}

proof fn lemma_insert_at(
    s: Seq<(Seq<Seq<char>>, Seq<(Seq<char>, Seq<Seq<char>>)>)>,
    x: (Seq<Seq<char>>, Seq<(Seq<char>, Seq<Seq<char>>)>),
    t: int,
)
    requires
        0 <= t <= s.len(),
    ensures
        t <= insert_at(s, x, t) <= s.len(),
    decreases s.len() - t,
{
    if t < s.len() && !rule_lt(x, s[t]) {
        lemma_insert_at(s, x, t + 1);
    }
}

fn sort_css_rules(rules: Vec<CssRule>) -> (r: Vec<CssRule>)
    ensures
        rule_views(r@) == sort_rules(rule_views(rules@)),
{
    let ghost rv = rule_views(rules@);
    let mut sorted: Vec<CssRule> = Vec::new();
    let n = rules.len();
    let mut rest = rules;
    assert(rule_views(rest@) =~= rv.skip(0));
    assert(rv.take(0) =~= Seq::<(Seq<Seq<char>>, Seq<(Seq<char>, Seq<Seq<char>>)>)>::empty());
    assert(rule_views(sorted@) =~= sort_rules(rv.take(0)));
    let mut k: usize = 0;
    while rest.len() > 0
        invariant
            k + rest.len() == rv.len(),
            n == rv.len(),
            rule_views(rest@) == rv.skip(k as int),
            rule_views(sorted@) == sort_rules(rv.take(k as int)),
        decreases rest.len(),
    {
        let ghost old_rest = rest@;
        let x = rest.remove(0);
        let ghost xv = rule_view(x);
        assert(rule_views(old_rest)[0] == xv);
        assert(rv.skip(k as int)[0] == rv[k as int]);
        assert(xv == rv[k as int]);
        assert(rest@ =~= old_rest.subrange(1, old_rest.len() as int));
        assert forall|j: int| 0 <= j < rest@.len() implies #[trigger] rule_views(rest@)[j] == rv.skip(k + 1)[j] by {
            assert(rule_views(rest@)[j] == rule_view(rest@[j]));
            assert(rest@[j] == old_rest[j + 1]);
            assert(rule_views(old_rest)[j + 1] == rule_view(old_rest[j + 1]));
            assert(rv.skip(k as int)[j + 1] == rv[k + 1 + j]);
        }
        assert(rule_views(rest@) =~= rv.skip(k + 1));
        let ghost sv = rule_views(sorted@);
        let mut t: usize = 0;
        proof {
            lemma_insert_at(sv, xv, 0);
        }
        while t < sorted.len() && !rule_less(&x, &sorted[t])
            invariant
                t <= sorted.len(),
                sv == rule_views(sorted@),
                xv == rule_view(x),
                insert_at(sv, xv, 0) == insert_at(sv, xv, t as int),
            decreases sorted.len() - t,
        {
            t = t + 1;
        }
        sorted.insert(t, x);
        assert(rule_views(sorted@) =~= sv.insert(t as int, xv));
        assert(rv.take(k + 1).drop_last() =~= rv.take(k as int));
        assert(rv.take(k + 1).last() == xv);
        k = k + 1;
    }
    assert(rv.take(k as int) =~= rv);
    sorted
}

/// `parts` joined with commas.
pub open spec fn join_commas(parts: Seq<Seq<char>>) -> Seq<char>
    decreases parts.len(),
{
    if parts.len() == 0 {
        Seq::empty()
    } else if parts.len() == 1 {
        parts[0]
    } else {
        join_commas(parts.drop_last()) + seq![','] + parts.last()
    }
}

/// `prop:value;` for each value of a property.
pub open spec fn group_text(prop: Seq<char>, values: Seq<Seq<char>>) -> Seq<char>
    decreases values.len(),
{
    if values.len() == 0 {
        Seq::empty()
    } else {
        group_text(prop, values.drop_last()) + prop + seq![':'] + values.last() + seq![';']
    }
}

/// The declarations of a rule as text.
pub open spec fn groups_text(groups: Seq<(Seq<char>, Seq<Seq<char>>)>) -> Seq<char>
    decreases groups.len(),
{
    if groups.len() == 0 {
        Seq::empty()
    } else {
        groups_text(groups.drop_last()) + group_text(groups.last().0, groups.last().1)
    }
}

/// A rule as text: `selectors{declarations}`.
pub open spec fn rule_text(r: (Seq<Seq<char>>, Seq<(Seq<char>, Seq<Seq<char>>)>)) -> Seq<char> {
    join_commas(r.0) + seq!['{'] + groups_text(r.1) + seq!['}']
}

/// Rules as text, one after the other.
pub open spec fn rules_text(rs: Seq<(Seq<Seq<char>>, Seq<(Seq<char>, Seq<Seq<char>>)>)>) -> Seq<char>
    decreases rs.len(),
{
    if rs.len() == 0 {
        Seq::empty()
    } else {
        rules_text(rs.drop_last()) + rule_text(rs.last())
    }
}

fn push_rule_text(out: &mut Vec<char>, rule: &CssRule)
    ensures
        final(out)@ == old(out)@ + rule_text(rule_view(*rule)),
{
    let ghost start = out@;
    let ghost sel = vviews(rule.selectors@);
    let mut i: usize = 0;
    assert(sel.take(0) =~= Seq::<Seq<char>>::empty());
    while i < rule.selectors.len()
        invariant
            i <= rule.selectors.len(),
            sel == vviews(rule.selectors@),
            out@ == start + join_commas(sel.take(i as int)),
        decreases rule.selectors.len() - i,
    {
        assert(sel.take(i + 1).drop_last() =~= sel.take(i as int));
        if i > 0 {
            out.push(',');
        }
        crate::text::push_chars(out, rule.selectors[i].as_slice());
        assert(out@ =~= start + join_commas(sel.take(i + 1)));
        i = i + 1;
    }
    assert(sel.take(rule.selectors.len() as int) =~= sel);
    out.push('{');
    let ghost mid = out@;
    let ghost gv = group_views(rule.decls@);
    let mut g: usize = 0;
    assert(gv.take(0) =~= Seq::<(Seq<char>, Seq<Seq<char>>)>::empty());
    while g < rule.decls.len()
        invariant
            g <= rule.decls.len(),
            gv == group_views(rule.decls@),
            out@ == mid + groups_text(gv.take(g as int)),
        decreases rule.decls.len() - g,
    {
        assert(gv.take(g + 1).drop_last() =~= gv.take(g as int));
        let ghost before = out@;
        let ghost vals = vviews(rule.decls@[g as int].1@);
        let mut v: usize = 0;
        assert(vals.take(0) =~= Seq::<Seq<char>>::empty());
        while v < rule.decls[g].1.len()
            invariant
                g < rule.decls.len(),
                v <= rule.decls@[g as int].1.len(),
                vals == vviews(rule.decls@[g as int].1@),
                out@ == before + group_text(rule.decls@[g as int].0@, vals.take(v as int)),
            decreases rule.decls@[g as int].1.len() - v,
        {
            assert(vals.take(v + 1).drop_last() =~= vals.take(v as int));
            crate::text::push_chars(out, rule.decls[g].0.as_slice());
            out.push(':');
            crate::text::push_chars(out, rule.decls[g].1[v].as_slice());
            out.push(';');
            assert(out@ =~= before + group_text(rule.decls@[g as int].0@, vals.take(v + 1)));
            v = v + 1;
        }
        assert(vals.take(v as int) =~= vals);
        assert(gv[g as int] == (rule.decls@[g as int].0@, vals));
        assert(out@ =~= mid + groups_text(gv.take(g + 1)));
        g = g + 1;
    }
    assert(gv.take(rule.decls.len() as int) =~= gv);
    out.push('}');
    assert(out@ =~= start + rule_text(rule_view(*rule)));
}

#[verifier::opaque]
/// The text by which style blocks are compared: the sorted rules as text when the block reads as
/// one or more rules, else the block with whitespace collapsed (comments removed either way).
pub open spec fn canonical_css(style: Seq<char>) -> Seq<char> {
    let stripped = strip_comments_from(byte_chars(style), 0);
    match rules_from(stripped, 0) {
        Some(rules) => if rules.len() > 0 {
            rules_text(sort_rules(rules))
        } else {
            collapse_ws(stripped)
        },
        None => collapse_ws(stripped),
    }
}

fn canonicalize_css(style: &str) -> (r: Vec<char>)
    ensures
        r@ == canonical_css(style@),
{
    reveal(canonical_css);
    let bytes = byte_chars_of(style);
    let stripped = strip_css_comments(bytes.as_slice());
    match parse_rules(stripped.as_slice()) {
        Some(rules) if rules.len() > 0 => {
            let sorted = sort_css_rules(rules);
            let ghost sv = rule_views(sorted@);
            let mut out: Vec<char> = Vec::new();
            let mut i: usize = 0;
            assert(sv.take(0) =~= Seq::<(Seq<Seq<char>>, Seq<(Seq<char>, Seq<Seq<char>>)>)>::empty());
            while i < sorted.len()
                invariant
                    i <= sorted.len(),
                    sv == rule_views(sorted@),
                    out@ == rules_text(sv.take(i as int)),
                decreases sorted.len() - i,
            {
                assert(sv.take(i + 1).drop_last() =~= sv.take(i as int));
                push_rule_text(&mut out, &sorted[i]);
                i = i + 1;
            }
            assert(sv.take(sorted.len() as int) =~= sv);
            out
        },
        _ => collapse_whitespace(stripped.as_slice()),
    }
}

/// The style blocks kept: each whose canonical text differs from that of every block before it.
pub open spec fn dedup_styles(styles: Seq<Seq<char>>) -> Seq<Seq<char>>
    decreases styles.len(),
{
    if styles.len() == 0 {
        Seq::empty()
    } else {
        let prev = styles.drop_last();
        dedup_styles(prev) + (if exists|j: int| 0 <= j < prev.len() && canonical_css(#[trigger] prev[j]) == canonical_css(
            styles.last(),
        ) {
            Seq::empty()
        } else {
            seq![styles.last()]
        })
    }
}

/// Removes style blocks that mean the same as an earlier one; see [`dedup_styles`].
pub fn dedup_style_texts_semantic(style_texts: Vec<String>) -> (r: Vec<String>)
    ensures
        r@.map_values(|s: String| s@) == dedup_styles(style_texts@.map_values(|s: String| s@)),
{
    let ghost sv = style_texts@.map_values(|s: String| s@);
    let mut seen: Vec<Vec<char>> = Vec::new();
    let mut out: Vec<String> = Vec::new();
    let mut i: usize = 0;
    assert(sv.take(0) =~= Seq::<Seq<char>>::empty());
    assert(out@.map_values(|s: String| s@) =~= dedup_styles(sv.take(0)));
    while i < style_texts.len()
        invariant
            i <= style_texts.len(),
            sv == style_texts@.map_values(|s: String| s@),
            seen.len() == i,
            forall|j: int| 0 <= j < i ==> (#[trigger] seen@[j])@ == canonical_css(sv[j]),
            out@.map_values(|s: String| s@) == dedup_styles(sv.take(i as int)),
        decreases style_texts.len() - i,
    {
        let key = canonicalize_css(style_texts[i].as_str());
        let mut found = false;
        let mut j: usize = 0;
        while j < seen.len()
            invariant
                j <= seen.len(),
                seen.len() == i,
                found == exists|m: int| 0 <= m < j && (#[trigger] seen@[m])@ == key@,
            decreases seen.len() - j,
        {
            if chars_eq(seen[j].as_slice(), key.as_slice()) {
                found = true;
            }
            j = j + 1;
        }
        let ghost prev = sv.take(i as int);
        assert(sv.take(i + 1).drop_last() =~= prev);
        assert(sv.take(i + 1).last() == sv[i as int]);
        assert(found == exists|m: int| 0 <= m < prev.len() && canonical_css(#[trigger] prev[m]) == canonical_css(sv[i as int])) by {
            if found {
                let m = choose|m: int| 0 <= m < i && (#[trigger] seen@[m])@ == key@;
                assert(prev[m] == sv[m]);
            }
            if exists|m: int| 0 <= m < prev.len() && canonical_css(#[trigger] prev[m]) == canonical_css(sv[i as int]) {
                let m = choose|m: int| 0 <= m < prev.len() && canonical_css(#[trigger] prev[m]) == canonical_css(sv[i as int]);
                assert(prev[m] == sv[m]);
                assert(seen@[m]@ == key@);
            }
        }
        let ghost before = out@.map_values(|s: String| s@);
        if !found {
            let text = style_texts[i].clone();
            out.push(text);
            assert(out@.map_values(|s: String| s@) =~= before.push(sv[i as int]));
        } else {
            assert(before + Seq::<Seq<char>>::empty() =~= before);
        }
        seen.push(key);
        i = i + 1;
    }
    assert(sv.take(style_texts.len() as int) =~= sv);
    out
}


/// A block that no earlier block matches in meaning.
pub open spec fn first_of_meaning(styles: Seq<Seq<char>>) -> bool {
    !exists|j: int| 0 <= j < styles.len() - 1 && canonical_css(#[trigger] styles[j]) == canonical_css(styles.last())
}

proof fn lemma_dedup_step(styles: Seq<Seq<char>>)
    requires
        styles.len() > 0,
    ensures
        dedup_styles(styles) == if first_of_meaning(styles) {
            dedup_styles(styles.drop_last()).push(styles.last())
        } else {
            dedup_styles(styles.drop_last())
        },
{
    let prev = styles.drop_last();
    assert forall|j: int| 0 <= j < prev.len() implies #[trigger] prev[j] == styles[j] by {}
    if first_of_meaning(styles) {
        assert(!exists|j: int| 0 <= j < prev.len() && canonical_css(#[trigger] prev[j]) == canonical_css(styles.last()));
        assert(dedup_styles(styles) =~= dedup_styles(prev).push(styles.last()));
    } else {
        let j = choose|j: int| 0 <= j < styles.len() - 1 && canonical_css(#[trigger] styles[j]) == canonical_css(styles.last());
        assert(prev[j] == styles[j]);
        assert(dedup_styles(styles) =~= dedup_styles(prev));
    }
}

proof fn lemma_dedup_from_input(styles: Seq<Seq<char>>)
    ensures
        forall|a: int|
            0 <= a < dedup_styles(styles).len() ==> exists|j: int| 0 <= j < styles.len() && styles[j] == #[trigger] dedup_styles(styles)[a],
    decreases styles.len(),
{
    if styles.len() > 0 {
        let prev = styles.drop_last();
        lemma_dedup_from_input(prev);
        lemma_dedup_step(styles);
        let before = dedup_styles(prev);
        let out = dedup_styles(styles);
        assert forall|a: int| 0 <= a < out.len() implies exists|j: int| 0 <= j < styles.len() && styles[j] == #[trigger] out[a] by {
            if a < before.len() {
                assert(out[a] == before[a]);
                let j = choose|j: int| 0 <= j < prev.len() && prev[j] == #[trigger] before[a];
                assert(styles[j] == prev[j]);
            } else {
                assert(styles[styles.len() - 1] == out[a]);
            }
        }
    }
}

proof fn lemma_dedup_distinct(styles: Seq<Seq<char>>)
    ensures
        forall|a: int, b: int|
            0 <= a < b < dedup_styles(styles).len() ==> canonical_css(#[trigger] dedup_styles(styles)[a]) != canonical_css(
                #[trigger] dedup_styles(styles)[b],
            ),
    decreases styles.len(),
{
    if styles.len() > 0 {
        let prev = styles.drop_last();
        lemma_dedup_distinct(prev);
        lemma_dedup_from_input(prev);
        lemma_dedup_step(styles);
        let before = dedup_styles(prev);
        let out = dedup_styles(styles);
        assert forall|a: int, b: int| 0 <= a < b < out.len() implies canonical_css(#[trigger] out[a]) != canonical_css(
            #[trigger] out[b],
        ) by {
            assert(out[a] == before[a]);
            if b < before.len() {
                assert(out[b] == before[b]);
            } else {
                let j = choose|j: int| 0 <= j < prev.len() && prev[j] == #[trigger] before[a];
                assert(prev[j] == styles[j]);
                assert(out[b] == styles.last());
            }
        }
    }
}

proof fn lemma_dedup_covers(styles: Seq<Seq<char>>)
    ensures
        forall|i: int|
            0 <= i < styles.len() ==> exists|a: int|
                0 <= a < dedup_styles(styles).len() && canonical_css(#[trigger] dedup_styles(styles)[a]) == canonical_css(
                    #[trigger] styles[i],
                ),
    decreases styles.len(),
{
    if styles.len() > 0 {
        let prev = styles.drop_last();
        lemma_dedup_covers(prev);
        lemma_dedup_step(styles);
        let before = dedup_styles(prev);
        let out = dedup_styles(styles);
        assert forall|i: int| 0 <= i < styles.len() implies exists|a: int|
            0 <= a < out.len() && canonical_css(#[trigger] out[a]) == canonical_css(#[trigger] styles[i]) by {
            if i < prev.len() {
                assert(styles[i] == prev[i]);
                let a = choose|a: int| 0 <= a < before.len() && canonical_css(#[trigger] before[a]) == canonical_css(#[trigger] prev[i]);
                assert(out[a] == before[a]);
            } else if first_of_meaning(styles) {
                assert(out[before.len() as int] == styles[i]);
            } else {
                let j = choose|j: int| 0 <= j < styles.len() - 1 && canonical_css(#[trigger] styles[j]) == canonical_css(styles.last());
                assert(styles[j] == prev[j]);
                let a = choose|a: int| 0 <= a < before.len() && canonical_css(#[trigger] before[a]) == canonical_css(#[trigger] prev[j]);
                assert(out[a] == before[a]);
            }
        }
    }
}

/// Deduplication keeps one block of each meaning: the kept blocks come from the input, no two of
/// them have the same canonical text, and every input block has a kept block of its canonical text.
pub proof fn lemma_dedup_styles(styles: Seq<Seq<char>>)
    ensures
        forall|a: int|
            0 <= a < dedup_styles(styles).len() ==> exists|j: int| 0 <= j < styles.len() && styles[j] == #[trigger] dedup_styles(styles)[a],
        forall|a: int, b: int|
            0 <= a < b < dedup_styles(styles).len() ==> canonical_css(#[trigger] dedup_styles(styles)[a]) != canonical_css(
                #[trigger] dedup_styles(styles)[b],
            ),
        forall|i: int|
            0 <= i < styles.len() ==> exists|a: int|
                0 <= a < dedup_styles(styles).len() && canonical_css(#[trigger] dedup_styles(styles)[a]) == canonical_css(
                    #[trigger] styles[i],
                ),
{
    lemma_dedup_from_input(styles);
    lemma_dedup_distinct(styles);
    lemma_dedup_covers(styles);
}

} // verus!
