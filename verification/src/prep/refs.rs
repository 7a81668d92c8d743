//! Id references inside SVG attribute values: `url(#id)` and `href="#id"`, and the local names
//! of qualified XML names.
use vstd::prelude::*;

use crate::layout::plain::{char_views, join_space, join_words};
use crate::text::{
    split_words, words, ascii_lower, chars_of, eq_ignore_ascii_case, find_char, find_from, find_from_exec, index_of_char, lemma_find_from_found,
    push_chars, push_str, rfind, rfind_exec, string_from_chars, sub_chars,
};

verus! {

/// A character that may appear in an SVG id reference.
pub open spec fn is_id_char(c: char) -> bool {
    ('a' <= c <= 'z') || ('A' <= c <= 'Z') || ('0' <= c <= '9') || c == '-' || c == '_' || c == ':' || c == '.'
}

/// Whether `ch` may appear in an SVG id reference.
pub fn is_svg_id_char(ch: char) -> (r: bool)
    ensures
        r == is_id_char(ch),
{
    ('a' <= ch && ch <= 'z') || ('A' <= ch && ch <= 'Z') || ('0' <= ch && ch <= '9') || ch == '-' || ch == '_' || ch
        == ':' || ch == '.'
}

/// The local part of an XML name: after `{namespace}`, else after the last `:`.
pub open spec fn local_part(name: Seq<char>) -> Seq<char> {
    let rest = name.skip(1);
    if name.len() > 0 && name[0] == '{' && index_of_char(rest, '}') is Some {
        rest.skip(index_of_char(rest, '}')->0 + 1)
    } else {
        match rfind(name, seq![':']) {
            Some(i) => name.skip(i + 1),
            None => name,
        }
    }
}

/// The local part of an XML name; see [`local_part`].
pub fn local_name(name: &str) -> (r: String)
    ensures
        r@ == local_part(name@),
{
    let cs = chars_of(name);
    if cs.len() > 0 && cs[0] == '{' {
        let rest = sub_chars(cs.as_slice(), 1, cs.len());
        assert(rest@ =~= name@.skip(1));
        if let Some(e) = find_char(rest.as_slice(), '}') {
            let tail = sub_chars(rest.as_slice(), e + 1, rest.len());
            assert(tail@ =~= rest@.skip(e + 1));
            return string_from_chars(tail.as_slice());
        }
    }
    let colon: Vec<char> = vec![':'];
    assert(colon@ =~= seq![':']);
    match rfind_exec(cs.as_slice(), colon.as_slice()) {
        Some(i) => {
            proof {
                crate::text::lemma_rfind_upto(cs@, seq![':'], cs@.len() - 1);
            }
            let tail = sub_chars(cs.as_slice(), i + 1, cs.len());
            assert(tail@ =~= name@.skip(i + 1));
            string_from_chars(tail.as_slice())
        },
        None => string_from_chars(cs.as_slice()),
    }
}

/// The opening of a `url(#id)` reference.
pub open spec fn url_open() -> Seq<char> {
    seq!['u', 'r', 'l', '(', '#']
}

/// The end of the run of id characters that starts at `i`.
pub open spec fn id_run_end(s: Seq<char>, i: int) -> int
    decreases s.len() - i,
{
    if i < 0 || i >= s.len() || !is_id_char(s[i]) {
        i
    } else {
        id_run_end(s, i + 1)
    }
}

proof fn lemma_id_run_end(s: Seq<char>, i: int)
    requires
        0 <= i <= s.len(),
    ensures
        i <= id_run_end(s, i) <= s.len(),
    decreases s.len() - i,
{
    if i < s.len() && is_id_char(s[i]) {
        lemma_id_run_end(s, i + 1);
    }
}

/// The ids named by `url(#...)` references at or after `c`, in order.
pub open spec fn url_ids_from(s: Seq<char>, c: int) -> Seq<Seq<char>>
    decreases s.len() - c,
{
    match find_from(s, url_open(), c) {
        None => Seq::empty(),
        Some(st) => {
            let a = st + 5;
            let e = id_run_end(s, a);
            if c < 0 || st < c || e > s.len() || e <= c {
                Seq::empty()
            } else {
                seq![s.subrange(a, e)] + url_ids_from(s, e)
            }
        },
    }
}

fn url_open_chars() -> (r: Vec<char>)
    ensures
        r@ == url_open(),
{
    let r: Vec<char> = vec!['u', 'r', 'l', '(', '#'];
    assert(r@ =~= url_open());
    r
}

fn run_end(s: &[char], i: usize) -> (e: usize)
    requires
        i <= s.len(),
    ensures
        e == id_run_end(s@, i as int),
        i <= e <= s.len(),
{
    let mut e = i;
    while e < s.len() && is_svg_id_char(s[e])
        invariant
            i <= e <= s.len(),
            id_run_end(s@, i as int) == id_run_end(s@, e as int),
        decreases s.len() - e,
    {
        e = e + 1;
    }
    e
}

/// The ids that `url(#id)` references in `value` name, in order.
pub fn extract_url_ids(value: &str) -> (r: Vec<String>)
    ensures
        r@.map_values(|x: String| x@) == url_ids_from(value@, 0),
{
    let s = chars_of(value);
    let pat = url_open_chars();
    let mut ids: Vec<String> = Vec::new();
    let mut cursor: usize = 0;
    while cursor <= s.len()
        invariant
            cursor <= s.len() + 1,
            s@ == value@,
            pat@ == url_open(),
            cursor <= s.len() ==> url_ids_from(s@, 0) == ids@.map_values(|x: String| x@) + url_ids_from(s@, cursor as int),
            cursor > s.len() ==> url_ids_from(s@, 0) == ids@.map_values(|x: String| x@),
        decreases s.len() + 1 - cursor,
    {
        match find_from_exec(s.as_slice(), pat.as_slice(), cursor) {
            None => {
                assert(url_ids_from(s@, cursor as int) =~= Seq::<Seq<char>>::empty());
                assert(ids@.map_values(|x: String| x@) + Seq::<Seq<char>>::empty() =~= ids@.map_values(|x: String| x@));
                return ids;
            },
            Some(st) => {
                proof {
                    lemma_find_from_found(s@, url_open(), cursor as int);
                }
                let a = st + 5;
                let e = run_end(s.as_slice(), a);
                let ghost before = ids@.map_values(|x: String| x@);
                let id = sub_chars(s.as_slice(), a, e);
                ids.push(string_from_chars(id.as_slice()));
                assert(ids@.map_values(|x: String| x@) =~= before.push(s@.subrange(a as int, e as int)));
                assert(url_ids_from(s@, cursor as int) == seq![s@.subrange(a as int, e as int)] + url_ids_from(s@, e as int));
                assert(before + url_ids_from(s@, cursor as int) =~= before.push(s@.subrange(a as int, e as int))
                    + url_ids_from(s@, e as int));
                cursor = e;
            },
        }
    }
    ids
}

/// The first value that `pairs` gives for `key`.
pub open spec fn lookup(pairs: Seq<(String, String)>, key: Seq<char>) -> Option<Seq<char>>
    decreases pairs.len(),
{
    if pairs.len() == 0 {
        None
    } else if pairs[0].0@ == key {
        Some(pairs[0].1@)
    } else {
        lookup(pairs.drop_first(), key)
    }
}

fn lookup_exec<'a>(pairs: &'a [(String, String)], key: &[char]) -> (r: Option<&'a String>)
    ensures
        match lookup(pairs@, key@) {
            Some(v) => r matches Some(x) && x@ == v,
            None => r is None,
        },
{
    let mut k: usize = 0;
    assert(pairs@.skip(0) =~= pairs@);
    while k < pairs.len()
        invariant
            k <= pairs.len(),
            lookup(pairs@, key@) == lookup(pairs@.skip(k as int), key@),
        decreases pairs.len() - k,
    {
        assert(pairs@.skip(k as int)[0] == pairs@[k as int]);
        assert(pairs@.skip(k as int).drop_first() =~= pairs@.skip(k + 1));
        let candidate = chars_of(pairs[k].0.as_str());
        if crate::text::chars_eq(candidate.as_slice(), key) {
            return Some(&pairs[k].1);
        }
        k = k + 1;
    }
    assert(pairs@.skip(pairs.len() as int) =~= Seq::<(String, String)>::empty());
    None
}

/// The id `id` renamed by `pairs`, or kept.
pub open spec fn renamed(pairs: Seq<(String, String)>, id: Seq<char>) -> Seq<char> {
    match lookup(pairs, id) {
        Some(v) => v,
        None => id,
    }
}

/// `s` from `c` on, with the id of every `url(#id)` reference renamed by `pairs`.
pub open spec fn rewrite_urls_from(s: Seq<char>, pairs: Seq<(String, String)>, c: int) -> Seq<char>
    decreases s.len() - c,
{
    match find_from(s, url_open(), c) {
        None => s.subrange(c, s.len() as int),
        Some(st) => {
            let a = st + 5;
            let e = id_run_end(s, a);
            if c < 0 || st < c || e > s.len() || e <= c {
                Seq::empty()
            } else {
                s.subrange(c, a) + renamed(pairs, s.subrange(a, e)) + rewrite_urls_from(s, pairs, e)
            }
        },
    }
}

/// `value` with the id of every `url(#id)` reference renamed by `id_map`.
pub fn rewrite_url_reference_ids(value: &str, id_map: &[(String, String)]) -> (r: String)
    ensures
        r@ == rewrite_urls_from(value@, id_map@, 0),
{
    let s = chars_of(value);
    let pat = url_open_chars();
    let mut out: Vec<char> = Vec::new();
    let mut cursor: usize = 0;
    while cursor <= s.len()
        invariant
            cursor <= s.len(),
            s@ == value@,
            pat@ == url_open(),
            rewrite_urls_from(s@, id_map@, 0) == out@ + rewrite_urls_from(s@, id_map@, cursor as int),
        decreases s.len() + 1 - cursor,
    {
        match find_from_exec(s.as_slice(), pat.as_slice(), cursor) {
            None => {
                let rest = sub_chars(s.as_slice(), cursor, s.len());
                push_chars(&mut out, rest.as_slice());
                return string_from_chars(out.as_slice());
            },
            Some(st) => {
                proof {
                    lemma_find_from_found(s@, url_open(), cursor as int);
                }
                let a = st + 5;
                let e = run_end(s.as_slice(), a);
                let ghost before = out@;
                let head = sub_chars(s.as_slice(), cursor, a);
                push_chars(&mut out, head.as_slice());
                let id = sub_chars(s.as_slice(), a, e);
                match lookup_exec(id_map, id.as_slice()) {
                    Some(prefixed) => push_str(&mut out, prefixed.as_str()),
                    None => push_chars(&mut out, id.as_slice()),
                }
                assert(out@ =~= before + s@.subrange(cursor as int, a as int) + renamed(id_map@, s@.subrange(a as int, e as int)));
                cursor = e;
            },
        }
    }
    string_from_chars(out.as_slice())
}

/// The value of an attribute with its id references renamed: every `url(#id)`, and a whole
/// `#id` value of an `href` attribute (of any namespace, in any letter case).
pub open spec fn rewritten_reference(attribute_name: Seq<char>, value: Seq<char>, pairs: Seq<(String, String)>) -> Seq<char> {
    let r = rewrite_urls_from(value, pairs, 0);
    let id = r.skip(1);
    if ascii_lower(local_part(attribute_name)) == ascii_lower(seq!['h', 'r', 'e', 'f']) && r.len() > 0 && r[0] == '#'
        && (forall|i: int| 0 <= i < id.len() ==> is_id_char(#[trigger] id[i])) && lookup(pairs, id) is Some {
        seq!['#'] + lookup(pairs, id)->0
    } else {
        r
    }
}

fn all_id_chars(s: &[char]) -> (r: bool)
    ensures
        r == forall|i: int| 0 <= i < s@.len() ==> is_id_char(#[trigger] s@[i]),
{
    let mut k: usize = 0;
    while k < s.len()
        invariant
            k <= s.len(),
            forall|i: int| 0 <= i < k ==> is_id_char(#[trigger] s@[i]),
        decreases s.len() - k,
    {
        if !is_svg_id_char(s[k]) {
            return false;
        }
        k = k + 1;
    }
    true
}

/// An attribute value with its id references renamed; see [`rewritten_reference`].
pub fn rewrite_reference_value(attribute_name: &str, value: &str, id_map: &[(String, String)]) -> (r: String)
    ensures
        r@ == rewritten_reference(attribute_name@, value@, id_map@),
{
    let rewritten = rewrite_url_reference_ids(value, id_map);
    let local = local_name(attribute_name);
    let local_chars = chars_of(local.as_str());
    let href: Vec<char> = vec!['h', 'r', 'e', 'f'];
    assert(href@ =~= seq!['h', 'r', 'e', 'f']);
    if eq_ignore_ascii_case(local_chars.as_slice(), href.as_slice()) {
        let rc = chars_of(rewritten.as_str());
        if rc.len() > 0 && rc[0] == '#' {
            let id = sub_chars(rc.as_slice(), 1, rc.len());
            assert(id@ =~= rc@.skip(1));
            if all_id_chars(id.as_slice()) {
                if let Some(prefixed) = lookup_exec(id_map, id.as_slice()) {
                    let mut out: Vec<char> = vec!['#'];
                    push_str(&mut out, prefixed.as_str());
                    assert(out@ =~= seq!['#'] + lookup(id_map@, id@)->0);
                    return string_from_chars(out.as_slice());
                }
            }
        }
    }
    rewritten
}

fn local_is(name: &str, tag: &str) -> (r: bool)
    ensures
        r == (ascii_lower(local_part(name@)) == ascii_lower(tag@)),
{
    let local = local_name(name);
    let lc = chars_of(local.as_str());
    let tc = chars_of(tag);
    eq_ignore_ascii_case(lc.as_slice(), tc.as_slice())
}

/// The element is a `defs` element (of any namespace, in any letter case).
pub fn is_defs_tag(name: &str) -> (r: bool)
    ensures
        r == (ascii_lower(local_part(name@)) == ascii_lower("defs"@)),
{
    local_is(name, "defs")
}

/// Elements whose content is not part of an icon: the document, definitions, metadata, title,
/// description and style elements.
pub open spec fn excluded_tag(name: Seq<char>) -> bool {
    let l = ascii_lower(local_part(name));
    l == ascii_lower("svg"@) || l == ascii_lower("defs"@) || l == ascii_lower("metadata"@) || l == ascii_lower("title"@)
        || l == ascii_lower("desc"@) || l == ascii_lower("style"@)
}

/// Whether an element of this name is left out of an icon; see [`excluded_tag`].
pub fn is_excluded_tag(name: &str) -> (r: bool)
    ensures
        r == excluded_tag(name@),
{
    local_is(name, "svg") || local_is(name, "defs") || local_is(name, "metadata") || local_is(name, "title")
        || local_is(name, "desc") || local_is(name, "style")
}

/// The class attribute with `class_name` among its classes: the existing classes, then
/// `class_name` if it is not one of them, separated by single spaces.
pub open spec fn class_list_with(existing: Seq<char>, class_name: Seq<char>) -> Seq<char> {
    let classes = words(existing);
    join_space(if classes.contains(class_name) { classes } else { classes.push(class_name) })
}

/// The class attribute with `class_name` added; see [`class_list_with`].
pub fn class_attribute_with(existing: &str, class_name: &str) -> (r: String)
    ensures
        r@ == class_list_with(existing@, class_name@),
{
    let chars = chars_of(existing);
    let mut classes = split_words(chars.as_slice());
    assert(char_views(classes@) =~= words(existing@));
    let name = chars_of(class_name);
    let mut present = false;
    let mut k: usize = 0;
    while k < classes.len()
        invariant
            k <= classes.len(),
            present == exists|m: int| 0 <= m < k && (#[trigger] classes@[m])@ == name@,
        decreases classes.len() - k,
    {
        if crate::text::chars_eq(classes[k].as_slice(), name.as_slice()) {
            present = true;
        }
        k = k + 1;
    }
    let ghost cv = char_views(classes@);
    assert(present == cv.contains(name@)) by {
        if present {
            let m = choose|m: int| 0 <= m < classes.len() && (#[trigger] classes@[m])@ == name@;
            assert(cv[m] == name@);
        }
        if cv.contains(name@) {
            let m = choose|m: int| 0 <= m < cv.len() && cv[m] == name@;
            assert(classes@[m]@ == name@);
        }
    }
    if !present {
        classes.push(name);
        assert(char_views(classes@) =~= cv.push(class_name@));
    }
    let joined = join_words(&classes);
    string_from_chars(joined.as_slice())
}

} // verus!
