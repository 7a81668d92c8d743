//! Scanning SVG text for ids, groups and attributes, and pruning the `<defs>` groups that
//! nothing references.
use vstd::prelude::*;

use crate::text::{
    chars_eq, chars_of, find_from, find_from_exec, lemma_find_from_found, push_chars, push_str,
    string_from_chars, sub_chars, trim_end, trim_end_index,
};

verus! {

/// The set of character sequences held by a list.
pub open spec fn id_set(list: Seq<Vec<char>>) -> Set<Seq<char>> {
    Set::new(|x: Seq<char>| exists|k: int| 0 <= k < list.len() && (#[trigger] list[k])@ == x)
}

/// `x` is one of the listed sequences.
pub fn list_has(list: &Vec<Vec<char>>, x: &[char]) -> (r: bool)
    ensures
        r == id_set(list@).contains(x@),
{
    let mut k: usize = 0;
    while k < list.len()
        invariant
            k <= list@.len(),
            forall|m: int| 0 <= m < k ==> (#[trigger] list@[m])@ != x@,
        decreases list@.len() - k,
    {
        if chars_eq(list[k].as_slice(), x) {
            return true;
        }
        k = k + 1;
    }
    false
}

/// A character allowed in an SVG id: ASCII letters and digits, `-`, `_`, `:` and `.`.
pub open spec fn is_id_char(c: char) -> bool {
    ('0' <= c && c <= '9') || ('a' <= c && c <= 'z') || ('A' <= c && c <= 'Z') || c == '-' || c == '_'
        || c == ':' || c == '.'
}

/// Whether `ch` may occur in an SVG id.
pub fn is_svg_id_char(ch: char) -> (r: bool)
    ensures
        r == is_id_char(ch),
{
    ('0' <= ch && ch <= '9') || ('a' <= ch && ch <= 'z') || ('A' <= ch && ch <= 'Z') || ch == '-' || ch
        == '_' || ch == ':' || ch == '.'
}

/// Length of the run of id characters other than `term` starting at `i`.
pub open spec fn id_run_len(s: Seq<char>, i: int, term: char) -> nat
    decreases s.len() - i,
{
    if i < 0 || i >= s.len() || s[i] == term || !is_id_char(s[i]) {
        0
    } else {
        1 + id_run_len(s, i + 1, term)
    }
}

/// The ids that follow each occurrence of `marker` at or after `cursor`: the run of id
/// characters right after the marker, when it is not empty.
pub open spec fn ids_after_marker(s: Seq<char>, marker: Seq<char>, term: char, cursor: int) -> Set<Seq<char>>
    decreases s.len() - cursor,
{
    if cursor < 0 || marker.len() == 0 {
        Set::empty()
    } else {
        match find_from(s, marker, cursor) {
            None => Set::empty(),
            Some(j) => if j >= cursor && j + marker.len() <= s.len() {
                let start = j + marker.len();
                let id = s.subrange(start, start + id_run_len(s, start, term));
                let rest = ids_after_marker(s, marker, term, start);
                if id.len() > 0 {
                    rest.insert(id)
                } else {
                    rest
                }
            } else {
                Set::empty()
            },
        }
    }
}

proof fn lemma_id_run_bound(s: Seq<char>, i: int, term: char)
    requires
        0 <= i <= s.len(),
    ensures
        i + id_run_len(s, i, term) <= s.len(),
    decreases s.len() - i,
{
    if i < s.len() && s[i] != term && is_id_char(s[i]) {
        lemma_id_run_bound(s, i + 1, term);
    }
}

/// Adds to `ids` every id that follows an occurrence of `marker` in `text`.
pub fn collect_ids_after_marker(text: &[char], marker: &str, terminator: char, ids: &mut Vec<Vec<char>>)
    requires
        marker@.len() > 0,
    ensures
        id_set(final(ids)@) == id_set(old(ids)@).union(ids_after_marker(text@, marker@, terminator, 0)),
{
    let m = chars_of(marker);
    let mut cursor: usize = 0;
    while cursor <= text.len()
        invariant
            m@ == marker@,
            m@.len() > 0,
            cursor <= text@.len() + 1,
            id_set(ids@).union(ids_after_marker(text@, m@, terminator, cursor as int)) == id_set(old(ids)@).union(
                ids_after_marker(text@, m@, terminator, 0),
            ),
        decreases text@.len() + 1 - cursor,
    {
        let j = match find_from_exec(text, m.as_slice(), cursor) {
            Some(j) => j,
            None => {
                return;
            },
        };
        proof {
            lemma_find_from_found(text@, m@, cursor as int);
        }
        let start = j + m.len();
        let mut id: Vec<char> = Vec::new();
        let mut k: usize = start;
        proof {
            lemma_id_run_bound(text@, start as int, terminator);
        }
        while k < text.len() && text[k] != terminator && is_svg_id_char(text[k])
            invariant
                start <= k <= text@.len(),
                id@ == text@.subrange(start as int, k as int),
                id_run_len(text@, start as int, terminator) == (k - start) + id_run_len(text@, k as int, terminator),
            decreases text@.len() - k,
        {
            id.push(text[k]);
            k = k + 1;
        }
        let ghost before = ids@;
        if id.len() > 0 {
            ids.push(id);
            proof {
                assert(id_set(ids@) =~= id_set(before).insert(id@)) by {
                    assert(ids@[before.len() as int] == id);
                    assert forall|x: Seq<char>| id_set(ids@).contains(x) implies id_set(before).insert(id@).contains(x) by {
                        let t = choose|t: int| 0 <= t < ids@.len() && (#[trigger] ids@[t])@ == x;
                        if t < before.len() {
                            assert(before[t] == ids@[t]);
                        }
                    }
                    assert forall|x: Seq<char>| id_set(before).insert(id@).contains(x) implies id_set(ids@).contains(x) by {
                        if x != id@ {
                            let t = choose|t: int| 0 <= t < before.len() && (#[trigger] before[t])@ == x;
                            assert(ids@[t] == before[t]);
                        }
                    }
                }
            }
        }
        proof {
            assert(id_set(ids@).union(ids_after_marker(text@, m@, terminator, start as int)) =~= id_set(before).union(
                ids_after_marker(text@, m@, terminator, cursor as int),
            ));
        }
        cursor = start;
    }
}

/// Ids referenced through `href="#…"`, `href='#…'` or `url(#…)`.
pub open spec fn referenced_ids(svg: Seq<char>) -> Set<Seq<char>> {
    ids_after_marker(svg, "href=\"#"@, '"', 0).union(ids_after_marker(svg, "href='#"@, '\'', 0)).union(
        ids_after_marker(svg, "url(#"@, ')', 0),
    )
}

/// The ids that the SVG text references.
pub fn collect_referenced_ids(svg: &[char]) -> (r: Vec<Vec<char>>)
    ensures
        id_set(r@) == referenced_ids(svg@),
{
    let mut ids: Vec<Vec<char>> = Vec::new();
    proof {
        reveal_strlit("href=\"#");
        reveal_strlit("href='#");
        reveal_strlit("url(#");
        assert(id_set(ids@) =~= Set::empty());
    }
    collect_ids_after_marker(svg, "href=\"#", '"', &mut ids);
    collect_ids_after_marker(svg, "href='#", '\'', &mut ids);
    collect_ids_after_marker(svg, "url(#", ')', &mut ids);
    proof {
        assert(id_set(ids@) =~= referenced_ids(svg@));
    }
    ids
}

/// A character that may follow `<g` in a group's open tag.
pub open spec fn is_tag_delim(c: char) -> bool {
    c == ' ' || c == '\t' || c == '\n' || c == '\r' || c == '>'
}

/// The first `<g` at or after `from` that opens a group (is followed by a space, tab, line
/// break or `>`).
pub open spec fn next_group_start(s: Seq<char>, from: int) -> Option<int>
    decreases s.len() - from,
{
    if from < 0 {
        None
    } else {
        match find_from(s, "<g"@, from) {
            None => None,
            Some(idx) => if idx >= from && idx + 2 <= s.len() {
                if idx + 2 < s.len() && is_tag_delim(s[idx + 2]) {
                    Some(idx)
                } else {
                    next_group_start(s, idx + 2)
                }
            } else {
                None
            },
        }
    }
}

/// Finds the next group open tag at or after `from`; see [`next_group_start`].
pub fn find_next_group_start(content: &[char], from: usize) -> (r: Option<usize>)
    ensures
        match r {
            Some(i) => next_group_start(content@, from as int) == Some(i as int) && from <= i && i + 2
                < content@.len(),
            None => next_group_start(content@, from as int) is None,
        },
{
    let open = chars_of("<g");
    proof {
        reveal_strlit("<g");
    }
    let mut cursor: usize = from;
    while cursor <= content.len()
        invariant
            open@ == "<g"@,
            open@.len() == 2,
            from <= cursor,
            next_group_start(content@, from as int) == next_group_start(content@, cursor as int),
        decreases content@.len() + 1 - cursor,
    {
        let idx = match find_from_exec(content, open.as_slice(), cursor) {
            Some(i) => i,
            None => {
                return None;
            },
        };
        proof {
            lemma_find_from_found(content@, open@, cursor as int);
        }
        if idx + 2 < content.len() {
            let c = content[idx + 2];
            if c == ' ' || c == '\t' || c == '\n' || c == '\r' || c == '>' {
                return Some(idx);
            }
        }
        cursor = idx + 2;
    }
    None
}

/// The non-empty value of `attr=q…q` in `tag`, for the quote character `q`.
pub open spec fn quoted_value(tag: Seq<char>, attr: Seq<char>, q: char) -> Option<Seq<char>> {
    let needle = attr + "="@ + seq![q];
    match find_from(tag, needle, 0) {
        None => None,
        Some(i) => {
            let start = i + needle.len();
            match find_from(tag, seq![q], start) {
                None => None,
                Some(e) => if e > start {
                    Some(tag.subrange(start, e))
                } else {
                    None
                },
            }
        },
    }
}

/// The value of attribute `attr` in `tag`, double-quoted first, then single-quoted.
pub open spec fn attribute_value(tag: Seq<char>, attr: Seq<char>) -> Option<Seq<char>> {
    match quoted_value(tag, attr, '"') {
        Some(v) => Some(v),
        None => quoted_value(tag, attr, '\''),
    }
}

fn quoted_value_exec(tag: &[char], attribute: &str, quote: char) -> (r: Option<Vec<char>>)
    ensures
        match r {
            Some(v) => quoted_value(tag@, attribute@, quote) == Some(v@),
            None => quoted_value(tag@, attribute@, quote) is None,
        },
{
    let tag_len = tag.len();
    let mut needle = chars_of(attribute);
    push_str(&mut needle, "=");
    needle.push(quote);
    let q = vec![quote];
    proof {
        assert(q@ =~= seq![quote]);
        assert(needle@ =~= attribute@ + "="@ + seq![quote]);
    }
    let i = match find_from_exec(tag, needle.as_slice(), 0) {
        Some(i) => i,
        None => {
            return None;
        },
    };
    proof {
        lemma_find_from_found(tag@, needle@, 0);
    }
    let start = i + needle.len();
    let e = match find_from_exec(tag, q.as_slice(), start) {
        Some(e) => e,
        None => {
            return None;
        },
    };
    proof {
        lemma_find_from_found(tag@, q@, start as int);
    }
    if e > start {
        Some(sub_chars(tag, start, e))
    } else {
        None
    }
}

/// The value of an attribute in a tag; see [`attribute_value`].
pub fn extract_attribute_value(tag: &[char], attribute: &str) -> (r: Option<Vec<char>>)
    ensures
        match r {
            Some(v) => attribute_value(tag@, attribute@) == Some(v@),
            None => attribute_value(tag@, attribute@) is None,
        },
{
    match quoted_value_exec(tag, attribute, '"') {
        Some(v) => Some(v),
        None => quoted_value_exec(tag, attribute, '\''),
    }
}

/// The tag ends with `/>` once trailing whitespace is dropped.
pub open spec fn self_closing(tag: Seq<char>) -> bool {
    let t = trim_end(tag);
    t.len() >= 2 && t[t.len() - 2] == '/' && t[t.len() - 1] == '>'
}

/// Whether `s[from..to]` is a self-closing tag.
fn is_self_closing(s: &[char], from: usize, to: usize) -> (r: bool)
    requires
        from <= to <= s@.len(),
    ensures
        r == self_closing(s@.subrange(from as int, to as int)),
{
    let tag = sub_chars(s, from, to);
    let j = trim_end_index(tag.as_slice(), tag.len());
    proof {
        assert(tag@.subrange(0, tag@.len() as int) =~= tag@);
    }
    j >= 2 && tag[j - 2] == '/' && tag[j - 1] == '>'
}

/// Where the group whose open tag ended before `cursor` closes, with `depth` groups open:
/// nested open tags (not self-closing) deepen, `</g>` closes one. `None` when the text ends
/// first.
pub open spec fn close_group(s: Seq<char>, cursor: int, depth: nat) -> Option<int>
    decreases s.len() + 1 - cursor,
{
    if depth == 0 {
        Some(cursor)
    } else if cursor < 0 || cursor > s.len() {
        None
    } else {
        let next_open = next_group_start(s, cursor);
        match find_from(s, "</g>"@, cursor) {
            None => None,
            Some(c) => if next_open is Some && next_open->0 < c {
                let o = next_open->0;
                match find_from(s, ">"@, o) {
                    None => None,
                    Some(ne) => if ne + 1 > cursor && ne + 1 <= s.len() {
                        let d = if self_closing(s.subrange(o, ne + 1)) {
                            depth
                        } else {
                            depth + 1
                        };
                        close_group(s, ne + 1, d)
                    } else {
                        None
                    },
                }
            } else if c + 4 > cursor && c + 4 <= s.len() {
                close_group(s, c + 4, (depth - 1) as nat)
            } else {
                None
            },
        }
    }
}

/// The span of the group opening at `gs`: its end and its id.
pub open spec fn group_span(s: Seq<char>, gs: int) -> Option<(int, Option<Seq<char>>)> {
    match find_from(s, ">"@, gs) {
        None => None,
        Some(oe) => {
            let tag = s.subrange(gs, oe + 1);
            let gid = attribute_value(tag, "id"@);
            if self_closing(tag) {
                Some((oe + 1, gid))
            } else {
                match close_group(s, oe + 1, 1) {
                    None => None,
                    Some(end) => Some((end, gid)),
                }
            }
        },
    }
}

proof fn lemma_close_group_after(s: Seq<char>, cursor: int, depth: nat)
    requires
        close_group(s, cursor, depth) is Some,
    ensures
        cursor <= close_group(s, cursor, depth)->0 <= s.len() || (depth == 0 && close_group(s, cursor, depth)
            == Some(cursor)),
    decreases s.len() + 1 - cursor,
{
    if depth > 0 && 0 <= cursor <= s.len() {
        let next_open = next_group_start(s, cursor);
        match find_from(s, "</g>"@, cursor) {
            None => {},
            Some(c) => if next_open is Some && next_open->0 < c {
                let o = next_open->0;
                match find_from(s, ">"@, o) {
                    None => {},
                    Some(ne) => if ne + 1 > cursor && ne + 1 <= s.len() {
                        let d = if self_closing(s.subrange(o, ne + 1)) {
                            depth
                        } else {
                            depth + 1
                        };
                        lemma_close_group_after(s, ne + 1, d);
                    },
                }
            } else if c + 4 > cursor && c + 4 <= s.len() {
                lemma_close_group_after(s, c + 4, (depth - 1) as nat);
            },
        }
    }
}

/// The end of the group opening at `group_start` and the group's id; see [`group_span`].
pub fn parse_group_span(content: &[char], group_start: usize) -> (r: Option<(usize, Option<Vec<char>>)>)
    requires
        group_start <= content@.len(),
    ensures
        match r {
            Some((end, id)) => group_span(content@, group_start as int) matches Some((e, i)) && e == end
                && group_start < end <= content@.len() && match id {
                Some(v) => i == Some(v@),
                None => i is None,
            },
            None => group_span(content@, group_start as int) is None,
        },
{
    let content_len = content.len();
    let gt = chars_of(">");
    let close = chars_of("</g>");
    proof {
        reveal_strlit(">");
        reveal_strlit("</g>");
    }
    let open_end = match find_from_exec(content, gt.as_slice(), group_start) {
        Some(e) => e,
        None => {
            return None;
        },
    };
    proof {
        lemma_find_from_found(content@, gt@, group_start as int);
    }
    let tag = sub_chars(content, group_start, open_end + 1);
    let group_id = extract_attribute_value(tag.as_slice(), "id");
    if is_self_closing(content, group_start, open_end + 1) {
        return Some((open_end + 1, group_id));
    }
    let mut depth: usize = 1;
    let mut cursor: usize = open_end + 1;
    while depth > 0
        invariant
            gt@ == ">"@,
            close@ == "</g>"@,
            gt@.len() == 1,
            close@.len() == 4,
            0 < cursor <= content@.len(),
            content@.len() == content_len,
            depth <= cursor,
            find_from(content@, ">"@, group_start as int) == Some(open_end as int),
            !self_closing(content@.subrange(group_start as int, open_end + 1)),
            group_start <= open_end < content@.len(),
            close_group(content@, (open_end + 1) as int, 1) == close_group(content@, cursor as int, depth as nat),
        decreases content@.len() + 1 - cursor,
    {
        let next_open = find_next_group_start(content, cursor);
        let next_close = find_from_exec(content, close.as_slice(), cursor);
        let c = match next_close {
            Some(c) => c,
            None => {
                return None;
            },
        };
        proof {
            lemma_find_from_found(content@, close@, cursor as int);
        }
        let nested = match next_open {
            Some(o) => o < c,
            None => false,
        };
        if nested {
            let o = match next_open {
                Some(o) => o,
                None => cursor,
            };
            let nested_end = match find_from_exec(content, gt.as_slice(), o) {
                Some(e) => e,
                None => {
                    return None;
                },
            };
            proof {
                lemma_find_from_found(content@, gt@, o as int);
            }
            if !is_self_closing(content, o, nested_end + 1) {
                depth = depth + 1;
            }
            cursor = nested_end + 1;
        } else {
            depth = depth - 1;
            cursor = c + 4;
        }
    }
    proof {
        lemma_close_group_after(content@, (open_end + 1) as int, 1);
    }
    Some((cursor, group_id))
}

/// Some `id="…"` or `id='…'` at or after `cursor` in `span` names a referenced id.
pub open spec fn span_has_referenced(span: Seq<char>, refs: Set<Seq<char>>, cursor: int) -> bool
    decreases span.len() + 1 - cursor,
{
    if cursor < 0 || cursor > span.len() {
        false
    } else {
        match find_from(span, "id="@, cursor) {
            None => false,
            Some(idx) => if idx >= cursor && idx + 3 <= span.len() {
                if idx + 3 >= span.len() {
                    false
                } else {
                    let q = span[idx + 3];
                    if q != '"' && q != '\'' {
                        span_has_referenced(span, refs, idx + 3)
                    } else {
                        match find_from(span, seq![q], idx + 4) {
                            None => false,
                            Some(e) => if e >= idx + 4 && e + 1 <= span.len() {
                                refs.contains(span.subrange(idx + 4, e)) || span_has_referenced(span, refs, e + 1)
                            } else {
                                false
                            },
                        }
                    }
                }
            } else {
                false
            },
        }
    }
}

/// Whether an id attribute in `span[from..to]` names a referenced id; see
/// [`span_has_referenced`].
pub fn span_contains_referenced_id(span: &[char], referenced: &Vec<Vec<char>>) -> (r: bool)
    ensures
        r == span_has_referenced(span@, id_set(referenced@), 0),
{
    let span_len = span.len();
    let marker = chars_of("id=");
    proof {
        reveal_strlit("id=");
    }
    let mut cursor: usize = 0;
    while cursor <= span.len()
        invariant
            marker@ == "id="@,
            marker@.len() == 3,
            span@.len() == span_len,
            cursor <= span@.len() + 1,
            span_has_referenced(span@, id_set(referenced@), 0) == span_has_referenced(span@, id_set(referenced@), cursor as int),
        decreases span@.len() + 1 - cursor,
    {
        let idx = match find_from_exec(span, marker.as_slice(), cursor) {
            Some(i) => i,
            None => {
                return false;
            },
        };
        proof {
            lemma_find_from_found(span@, marker@, cursor as int);
        }
        if idx + 3 >= span.len() {
            return false;
        }
        let q = span[idx + 3];
        if q != '"' && q != '\'' {
            cursor = idx + 3;
        } else {
            let qv = vec![q];
            proof {
                assert(qv@ =~= seq![q]);
            }
            let e = match find_from_exec(span, qv.as_slice(), idx + 4) {
                Some(e) => e,
                None => {
                    return false;
                },
            };
            proof {
                lemma_find_from_found(span@, qv@, (idx + 4) as int);
            }
            let value = sub_chars(span, idx + 4, e);
            if list_has(referenced, value.as_slice()) {
                return true;
            }
            cursor = e + 1;
        }
    }
    false
}

/// A group is kept when it has no id, when its id is referenced, or when an id inside it is.
pub open spec fn keep_group(group: Seq<char>, gid: Option<Seq<char>>, refs: Set<Seq<char>>) -> bool {
    (match gid {
        None => true,
        Some(id) => refs.contains(id),
    }) || span_has_referenced(group, refs, 0)
}

/// The defs content from `cursor` on with the groups that are not kept removed.
pub open spec fn pruned_from(c: Seq<char>, refs: Set<Seq<char>>, cursor: int) -> Seq<char>
    decreases c.len() + 1 - cursor,
{
    if cursor < 0 || cursor > c.len() {
        Seq::empty()
    } else {
        match next_group_start(c, cursor) {
            None => c.subrange(cursor, c.len() as int),
            Some(gs) => if cursor <= gs <= c.len() {
                let head = c.subrange(cursor, gs);
                match group_span(c, gs) {
                    None => head + c.subrange(gs, c.len() as int),
                    Some((ge, gid)) => if gs < ge <= c.len() {
                        let group = c.subrange(gs, ge);
                        head + (if keep_group(group, gid, refs) {
                            group
                        } else {
                            Seq::empty()
                        }) + pruned_from(c, refs, ge)
                    } else {
                        Seq::empty()
                    },
                }
            } else {
                Seq::empty()
            },
        }
    }
}

/// The defs content without the groups that nothing references; see [`pruned_from`].
pub fn prune_defs_content(content: &[char], referenced: &Vec<Vec<char>>) -> (r: Vec<char>)
    ensures
        r@ == pruned_from(content@, id_set(referenced@), 0),
{
    let ghost refs = id_set(referenced@);
    let mut out: Vec<char> = Vec::new();
    let mut cursor: usize = 0;
    while cursor <= content.len()
        invariant
            refs == id_set(referenced@),
            cursor <= content@.len(),
            out@ + pruned_from(content@, refs, cursor as int) == pruned_from(content@, refs, 0),
        decreases content@.len() + 1 - cursor,
    {
        let group_start = match find_next_group_start(content, cursor) {
            Some(g) => g,
            None => {
                let tail = sub_chars(content, cursor, content.len());
                push_chars(&mut out, tail.as_slice());
                return out;
            },
        };
        let head = sub_chars(content, cursor, group_start);
        push_chars(&mut out, head.as_slice());
        let (group_end, group_id) = match parse_group_span(content, group_start) {
            Some(span) => span,
            None => {
                let tail = sub_chars(content, group_start, content.len());
                push_chars(&mut out, tail.as_slice());
                proof {
                    assert(out@ =~= pruned_from(content@, refs, 0));
                }
                return out;
            },
        };
        let group = sub_chars(content, group_start, group_end);
        let keep = match &group_id {
            None => true,
            Some(id) => list_has(referenced, id.as_slice()),
        } || span_contains_referenced_id(group.as_slice(), referenced);
        let ghost before = out@;
        if keep {
            push_chars(&mut out, group.as_slice());
        }
        proof {
            let span = group_span(content@, group_start as int)->Some_0;
            assert(keep == keep_group(group@, span.1, refs));
            assert(out@ + pruned_from(content@, refs, group_end as int) =~= before + pruned_from(
                content@,
                refs,
                cursor as int,
            ).subrange(head@.len() as int, pruned_from(content@, refs, cursor as int).len() as int));
        }
        cursor = group_end;
    }
    out
}

/// The SVG with unreferenced groups pruned from its first `<defs>` element; unchanged when it
/// has none, or when it references no id at all.
pub open spec fn pruned_svg(svg: Seq<char>) -> Seq<char> {
    match find_from(svg, "<defs"@, 0) {
        None => svg,
        Some(ds) => match find_from(svg, ">"@, ds) {
            None => svg,
            Some(oe) => match find_from(svg, "</defs>"@, oe + 1) {
                None => svg,
                Some(ce) => {
                    let refs = referenced_ids(svg);
                    if refs.is_empty() {
                        svg
                    } else {
                        svg.subrange(0, oe + 1) + pruned_from(svg.subrange(oe + 1, ce), refs, 0) + svg.subrange(
                            ce,
                            svg.len() as int,
                        )
                    }
                },
            },
        },
    }
}

/// Removes the `<defs>` groups that nothing references; see [`pruned_svg`].
pub fn prune_unused_defs_groups(svg: String) -> (r: String)
    ensures
        r@ == pruned_svg(svg@),
{
    let s = chars_of(svg.as_str());
    let s_len = s.len();
    let defs_open = chars_of("<defs");
    let gt = chars_of(">");
    let defs_close = chars_of("</defs>");
    proof {
        reveal_strlit(">");
    }
    let defs_start = match find_from_exec(s.as_slice(), defs_open.as_slice(), 0) {
        Some(i) => i,
        None => {
            return svg;
        },
    };
    let open_end = match find_from_exec(s.as_slice(), gt.as_slice(), defs_start) {
        Some(i) => i,
        None => {
            return svg;
        },
    };
    proof {
        lemma_find_from_found(s@, gt@, defs_start as int);
    }
    let content_start = open_end + 1;
    let content_end = match find_from_exec(s.as_slice(), defs_close.as_slice(), content_start) {
        Some(i) => i,
        None => {
            return svg;
        },
    };
    proof {
        lemma_find_from_found(s@, defs_close@, content_start as int);
    }
    let referenced = collect_referenced_ids(s.as_slice());
    if referenced.len() == 0 {
        proof {
            assert(referenced_ids(s@) =~= Set::empty()) by {
                assert forall|x: Seq<char>| !id_set(referenced@).contains(x) by {}
            }
        }
        return svg;
    }
    proof {
        assert(id_set(referenced@).contains(referenced@[0]@));
    }
    let content = sub_chars(s.as_slice(), content_start, content_end);
    let pruned = prune_defs_content(content.as_slice(), &referenced);
    let mut out = sub_chars(s.as_slice(), 0, content_start);
    push_chars(&mut out, pruned.as_slice());
    let tail = sub_chars(s.as_slice(), content_end, s.len());
    push_chars(&mut out, tail.as_slice());
    string_from_chars(out.as_slice())
}

/// Ids of the template's groups from `cursor` on, except icon groups (ids starting `i-`).
pub open spec fn shape_ids_from(t: Seq<char>, cursor: int) -> Set<Seq<char>>
    decreases t.len() + 1 - cursor,
{
    if cursor < 0 || cursor > t.len() {
        Set::empty()
    } else {
        match find_from(t, "<g"@, cursor) {
            None => Set::empty(),
            Some(gs) => if cursor <= gs && gs + 2 <= t.len() {
                if !(gs + 2 < t.len() && is_tag_delim(t[gs + 2])) {
                    shape_ids_from(t, gs + 2)
                } else {
                    match find_from(t, ">"@, gs) {
                        None => Set::empty(),
                        Some(ge) => if gs <= ge < t.len() {
                            let rest = shape_ids_from(t, ge + 1);
                            match attribute_value(t.subrange(gs, ge + 1), "id"@) {
                                Some(id) => if !(id.len() >= 2 && id[0] == 'i' && id[1] == '-') {
                                    rest.insert(id)
                                } else {
                                    rest
                                },
                                None => rest,
                            }
                        } else {
                            Set::empty()
                        },
                    }
                }
            } else {
                Set::empty()
            },
        }
    }
}

/// The shape ids a template defines: the ids of its groups other than icons, and `rectangle`.
pub fn collect_template_shape_ids(svg_template: &str) -> (r: Vec<Vec<char>>)
    ensures
        id_set(r@) == shape_ids_from(svg_template@, 0).insert("rectangle"@),
{
    let t = chars_of(svg_template);
    let t_len = t.len();
    let open = chars_of("<g");
    let gt = chars_of(">");
    proof {
        reveal_strlit("<g");
        reveal_strlit(">");
    }
    let mut ids: Vec<Vec<char>> = Vec::new();
    let mut cursor: usize = 0;
    while cursor <= t.len()
        invariant
            open@ == "<g"@,
            gt@ == ">"@,
            open@.len() == 2,
            gt@.len() == 1,
            t@ == svg_template@,
            t@.len() == t_len,
            cursor <= t@.len() + 1,
            id_set(ids@).union(shape_ids_from(t@, cursor as int)) == shape_ids_from(t@, 0),
        ensures
            t@ == svg_template@,
            id_set(ids@) == shape_ids_from(t@, 0),
        decreases t@.len() + 1 - cursor,
    {
        let gs = match find_from_exec(t.as_slice(), open.as_slice(), cursor) {
            Some(g) => g,
            None => {
                proof {
                    assert(id_set(ids@).union(shape_ids_from(t@, cursor as int)) =~= id_set(ids@));
                }
                break;
            },
        };
        proof {
            lemma_find_from_found(t@, open@, cursor as int);
        }
        let delim = gs + 2 < t.len() && {
            let c = t[gs + 2];
            c == ' ' || c == '\t' || c == '\n' || c == '\r' || c == '>'
        };
        if !delim {
            cursor = gs + 2;
        } else {
            let ge = match find_from_exec(t.as_slice(), gt.as_slice(), gs) {
                Some(e) => e,
                None => {
                    proof {
                        assert(id_set(ids@).union(shape_ids_from(t@, cursor as int)) =~= id_set(ids@));
                    }
                    break;
                },
            };
            proof {
                lemma_find_from_found(t@, gt@, gs as int);
            }
            let tag = sub_chars(t.as_slice(), gs, ge + 1);
            let ghost before = ids@;
            match extract_attribute_value(tag.as_slice(), "id") {
                Some(id) => {
                    let icon = id.len() >= 2 && id[0] == 'i' && id[1] == '-';
                    if !icon {
                        ids.push(id);
                        proof {
                            lemma_id_set_push(before, ids@[before.len() as int]);
                        }
                    }
                },
                None => {},
            }
            proof {
                assert(id_set(ids@).union(shape_ids_from(t@, ge + 1)) =~= id_set(before).union(
                    shape_ids_from(t@, cursor as int),
                ));
            }
            cursor = ge + 1;
        }
    }
    let ghost before = ids@;
    ids.push(chars_of("rectangle"));
    proof {
        lemma_id_set_push(before, ids@[before.len() as int]);
        assert(id_set(ids@) =~= shape_ids_from(svg_template@, 0).insert("rectangle"@));
    }
    ids
}

/// Pushing onto a list adds the pushed sequence to its set.
pub proof fn lemma_id_set_push(list: Seq<Vec<char>>, v: Vec<char>)
    ensures
        id_set(list.push(v)) == id_set(list).insert(v@),
{
    let after = list.push(v);
    assert(after[list.len() as int] == v);
    assert forall|x: Seq<char>| id_set(after).contains(x) implies id_set(list).insert(v@).contains(x) by {
        let t = choose|t: int| 0 <= t < after.len() && (#[trigger] after[t])@ == x;
        if t < list.len() {
            assert(list[t] == after[t]);
        }
    }
    assert forall|x: Seq<char>| id_set(list).insert(v@).contains(x) implies id_set(after).contains(x) by {
        if x != v@ {
            let t = choose|t: int| 0 <= t < list.len() && (#[trigger] list[t])@ == x;
            assert(after[t] == list[t]);
        }
    }
    assert(id_set(after) =~= id_set(list).insert(v@));
}

} // verus!
