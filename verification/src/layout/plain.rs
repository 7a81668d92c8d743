//! Graphviz `plain` output: its records, and the node positions and edge routes they give for
//! the nodes and edges of a layout graph.
//!
//! Coordinates stay in their text form here; they are numbers in inches, read by the caller.
use vstd::prelude::*;

use crate::layout::graph::LayoutGraph;
use crate::layout::graphviz::{endpoint_name, normalize_edge_endpoint};
use crate::layout::ids::{id_views, ids_sorted};
use crate::render::errors::RenderError;
use crate::text::{
    chars_eq, chars_of, copy_chars, lemma_seq_lt_irreflexive, push_chars, push_str, split_words, string_from_chars,
    sub_chars, trim, trim_chars, trim_matches, trim_matches_chars, words,
};

verus! {

/// The lines of `s` split at `\n`: the finished lines and the line still open.
pub open spec fn line_split(s: Seq<char>) -> (Seq<Seq<char>>, Seq<char>)
    decreases s.len(),
{
    if s.len() == 0 {
        (Seq::empty(), Seq::empty())
    } else {
        let (done, cur) = line_split(s.drop_last());
        if s.last() == '\n' {
            (done.push(cur), Seq::empty())
        } else {
            (done, cur.push(s.last()))
        }
    }
}

/// The lines of `s`: its pieces between `\n` characters.
pub open spec fn text_lines(s: Seq<char>) -> Seq<Seq<char>> {
    line_split(s).0.push(line_split(s).1)
}

/// The first word of `t` names a record kind of plain output.
pub open spec fn starts_record(t: Seq<char>) -> bool {
    let w = words(t);
    w.len() > 0 && (w[0] == "graph"@ || w[0] == "node"@ || w[0] == "edge"@ || w[0] == "stop"@)
}

/// The records of plain output: trimmed non-empty lines, where a line that does not start a
/// record continues the previous one (joined by a space).
pub open spec fn merge_records(lines: Seq<Seq<char>>) -> Seq<Seq<char>>
    decreases lines.len(),
{
    if lines.len() == 0 {
        Seq::empty()
    } else {
        let recs = merge_records(lines.drop_last());
        let t = trim(lines.last());
        if t.len() == 0 {
            recs
        } else if starts_record(t) || recs.len() == 0 {
            recs.push(t)
        } else {
            recs.update(recs.len() - 1, recs.last() + seq![' '] + t)
        }
    }
}

/// The character views of a vector of character vectors.
pub open spec fn char_views(v: Seq<Vec<char>>) -> Seq<Seq<char>> {
    v.map_values(|x: Vec<char>| x@)
}

pub fn split_lines(s: &[char]) -> (r: Vec<Vec<char>>)
    ensures
        char_views(r@) == text_lines(s@),
{
    let mut done: Vec<Vec<char>> = Vec::new();
    let mut cur: Vec<char> = Vec::new();
    let mut i: usize = 0;
    assert(s@.take(0) =~= Seq::<char>::empty());
    assert(char_views(done@) =~= Seq::<Seq<char>>::empty());
    while i < s.len()
        invariant
            i <= s.len(),
            (char_views(done@), cur@) == line_split(s@.take(i as int)),
        decreases s.len() - i,
    {
        assert(s@.take(i + 1).drop_last() =~= s@.take(i as int));
        if s[i] == '\n' {
            let ghost before = char_views(done@);
            let finished = cur;
            done.push(finished);
            assert(char_views(done@) =~= before.push(finished@));
            cur = Vec::new();
            assert(cur@ =~= Seq::<char>::empty());
        } else {
            cur.push(s[i]);
        }
        i = i + 1;
    }
    assert(s@.take(s.len() as int) =~= s@);
    let ghost before = char_views(done@);
    done.push(cur);
    assert(char_views(done@) =~= text_lines(s@));
    done
}

fn word_is(w: &Vec<char>, text: &str) -> (r: bool)
    ensures
        r == (w@ == text@),
{
    let t = chars_of(text);
    chars_eq(w.as_slice(), t.as_slice())
}

fn is_plain_record_start(t: &[char]) -> (r: bool)
    ensures
        r == starts_record(t@),
{
    let w = split_words(t);
    if w.len() == 0 {
        return false;
    }
    let first = &w[0];
    word_is(first, "graph") || word_is(first, "node") || word_is(first, "edge") || word_is(first, "stop")
}

/// The records of plain output; see [`merge_records`].
pub fn plain_records(output: &str) -> (r: Vec<String>)
    ensures
        r@.map_values(|x: String| x@) == merge_records(text_lines(output@)),
{
    let chars = chars_of(output);
    let lines = split_lines(chars.as_slice());
    let ghost lv = char_views(lines@);
    let mut recs: Vec<Vec<char>> = Vec::new();
    let mut i: usize = 0;
    assert(lv.take(0) =~= Seq::<Seq<char>>::empty());
    assert(char_views(recs@) =~= Seq::<Seq<char>>::empty());
    while i < lines.len()
        invariant
            i <= lines.len(),
            lv == char_views(lines@),
            char_views(recs@) == merge_records(lv.take(i as int)),
        decreases lines.len() - i,
    {
        assert(lv.take(i + 1).drop_last() =~= lv.take(i as int));
        assert(lv.take(i + 1).last() == lines@[i as int]@);
        let t = trim_chars(lines[i].as_slice());
        if t.len() > 0 {
            let ghost before = char_views(recs@);
            if is_plain_record_start(t.as_slice()) || recs.len() == 0 {
                recs.push(t);
                assert(char_views(recs@) =~= before.push(trim(lv[i as int])));
            } else {
                let last = recs.len() - 1;
                let mut joined = copy_chars(recs[last].as_slice());
                joined.push(' ');
                push_chars(&mut joined, t.as_slice());
                assert(joined@ =~= before.last() + seq![' '] + trim(lv[i as int]));
                recs.set(last, joined);
                assert(char_views(recs@) =~= before.update(before.len() - 1, before.last() + seq![' '] + trim(
                    lv[i as int],
                )));
            }
        }
        i = i + 1;
    }
    assert(lv.take(lines.len() as int) =~= lv);
    let mut out: Vec<String> = Vec::new();
    let mut k: usize = 0;
    while k < recs.len()
        invariant
            k <= recs.len(),
            out@.len() == k,
            forall|m: int| 0 <= m < k ==> #[trigger] out@[m]@ == recs@[m]@,
        decreases recs.len() - k,
    {
        out.push(string_from_chars(recs[k].as_slice()));
        k = k + 1;
    }
    assert(out@.map_values(|x: String| x@) =~= char_views(recs@));
    out
}

/// The number written by the decimal digits `d`.
pub open spec fn digits_value(d: Seq<char>) -> int
    decreases d.len(),
{
    if d.len() == 0 {
        0
    } else {
        digits_value(d.drop_last()) * 10 + (d.last() as int - '0' as int)
    }
}

/// Every character of `d` is an ASCII digit.
pub open spec fn all_digits(d: Seq<char>) -> bool {
    forall|i: int| 0 <= i < d.len() ==> '0' <= #[trigger] d[i] <= '9'
}

/// `usize::from_str`: an optional `+`, then at least one digit, with a value that fits.
pub open spec fn count_value(s: Seq<char>) -> Option<int> {
    let d = if s.len() > 0 && s[0] == '+' { s.skip(1) } else { s };
    if d.len() > 0 && all_digits(d) && digits_value(d) <= usize::MAX {
        Some(digits_value(d))
    } else {
        None
    }
}

proof fn lemma_digits_value_grows(d: Seq<char>, k: int)
    requires
        all_digits(d),
        0 <= k <= d.len(),
    ensures
        digits_value(d) >= digits_value(d.take(k)) >= 0,
    decreases d.len() - k,
{
    if k < d.len() {
        assert(d.take(k + 1).drop_last() =~= d.take(k));
        assert(all_digits(d.take(k + 1)));
        lemma_digits_value_grows(d, k + 1);
        lemma_digits_nonneg(d.take(k));
    } else {
        assert(d.take(k) =~= d);
        lemma_digits_nonneg(d);
    }
}

proof fn lemma_digits_nonneg(d: Seq<char>)
    requires
        all_digits(d),
    ensures
        digits_value(d) >= 0,
    decreases d.len(),
{
    if d.len() > 0 {
        assert(all_digits(d.drop_last()));
        lemma_digits_nonneg(d.drop_last());
    }
}

/// Reads a point count; see [`count_value`].
pub fn parse_count(s: &[char]) -> (r: Option<usize>)
    ensures
        match r {
            Some(v) => count_value(s@) == Some(v as int),
            None => count_value(s@) is None,
        },
{
    let start: usize = if s.len() > 0 && s[0] == '+' { 1 } else { 0 };
    let ghost d = if s@.len() > 0 && s@[0] == '+' { s@.skip(1) } else { s@ };
    assert(d =~= s@.skip(start as int));
    if start >= s.len() {
        assert(d.len() == 0);
        return None;
    }
    let mut value: usize = 0;
    let mut i: usize = start;
    assert(d.take(0) =~= Seq::<char>::empty());
    while i < s.len()
        invariant
            start <= i <= s.len(),
            d == s@.skip(start as int),
            d == (if s@.len() > 0 && s@[0] == '+' { s@.skip(1) } else { s@ }),
            all_digits(d.take(i - start)),
            value == digits_value(d.take(i - start)),
        decreases s.len() - i,
    {
        let c = s[i];
        let k: Ghost<int> = Ghost(i - start);
        assert(d[k@] == c);
        if c < '0' || c > '9' {
            assert(!all_digits(d));
            return None;
        }
        assert(d.take(k@ + 1).drop_last() =~= d.take(k@));
        assert(d.take(k@ + 1).last() == c);
        assert(all_digits(d.take(k@ + 1)));
        let digit = (c as u32 - '0' as u32) as usize;
        assert(digit == c as int - '0' as int);
        assert(digits_value(d.take(k@ + 1)) == value * 10 + digit);
        let next = match value.checked_mul(10) {
            Some(t) => t.checked_add(digit),
            None => None,
        };
        match next {
            Some(v) => {
                value = v;
            },
            None => {
                assert(value * 10 + digit > usize::MAX);
                proof {
                    if all_digits(d) {
                        lemma_digits_value_grows(d, k@ + 1);
                        assert(digits_value(d) > usize::MAX);
                    }
                }
                assert(count_value(s@) is None);
                return None;
            },
        }
        i = i + 1;
    }
    assert(d.take(s.len() - start) =~= d);
    assert(d.len() > 0);
    assert(count_value(s@) == Some(digits_value(d)));
    Some(value)
}

/// `parts` joined with single spaces.
pub open spec fn join_space(parts: Seq<Seq<char>>) -> Seq<char>
    decreases parts.len(),
{
    if parts.len() == 0 {
        Seq::empty()
    } else if parts.len() == 1 {
        parts[0]
    } else {
        join_space(parts.drop_last()) + seq![' '] + parts.last()
    }
}

pub fn join_words(parts: &Vec<Vec<char>>) -> (r: Vec<char>)
    ensures
        r@ == join_space(char_views(parts@)),
{
    let ghost pv = char_views(parts@);
    let mut out: Vec<char> = Vec::new();
    let mut i: usize = 0;
    assert(pv.take(0) =~= Seq::<Seq<char>>::empty());
    while i < parts.len()
        invariant
            i <= parts.len(),
            pv == char_views(parts@),
            out@ == join_space(pv.take(i as int)),
        decreases parts.len() - i,
    {
        assert(pv.take(i + 1).drop_last() =~= pv.take(i as int));
        if i > 0 {
            out.push(' ');
        }
        push_chars(&mut out, parts[i].as_slice());
        assert(out@ =~= join_space(pv.take(i + 1)));
        i = i + 1;
    }
    assert(pv.take(parts.len() as int) =~= pv);
    out
}

/// What one record of plain output gives for a layout graph.
pub enum RecordStep {
    /// Nothing: a blank, `stop` or `graph` record, or a node or edge the graph does not hold.
    Skip,
    /// The node at this index of the graph's ids, with its center x, center y, width and height.
    Node(int, Seq<Seq<char>>),
    /// The edge between these indices, with the x and y of each route point in turn.
    Route(int, int, Seq<Seq<char>>),
    /// The record is malformed; the message says how.
    Fail(Seq<char>),
}

/// The record starts with `graph` and a space.
pub open spec fn is_graph_record(t: Seq<char>) -> bool {
    t.len() >= "graph "@.len() && t.take("graph "@.len() as int) == "graph "@
}

/// What the record `r` gives for a graph with node ids `ids` and edges `edges`.
pub open spec fn record_step(r: Seq<char>, ids: Seq<Seq<char>>, edges: Seq<(usize, usize)>) -> RecordStep {
    let t = trim(r);
    let f = words(t);
    if t.len() == 0 || t == "stop"@ || is_graph_record(t) || f.len() == 0 {
        RecordStep::Skip
    } else if f[0] == "node"@ {
        if f.len() < 6 {
            RecordStep::Fail("node record is too short: "@ + join_space(f))
        } else if ids.contains(trim_matches(f[1], '"')) {
            RecordStep::Node(ids.index_of(trim_matches(f[1], '"')), f.subrange(2, 6))
        } else {
            RecordStep::Skip
        }
    } else if f[0] == "edge"@ {
        let a = endpoint_name(f[1]);
        let b = endpoint_name(f[2]);
        if f.len() < 5 {
            RecordStep::Fail("edge record is too short: "@ + join_space(f))
        } else if !(ids.contains(a) && ids.contains(b) && edges.contains(
            (ids.index_of(a) as usize, ids.index_of(b) as usize),
        )) {
            RecordStep::Skip
        } else {
            match count_value(f[3]) {
                None => RecordStep::Fail("invalid edge point count '"@ + f[3] + "'"@),
                Some(n) => if f.len() < 4 + 2 * n {
                    RecordStep::Fail("edge record is missing route coordinates: "@ + join_space(f))
                } else {
                    RecordStep::Route(ids.index_of(a), ids.index_of(b), f.subrange(4, 4 + 2 * n))
                },
            }
        }
    } else {
        RecordStep::Fail("unsupported plain record '"@ + f[0] + "'"@)
    }
}

/// The node and route entries of the first `k` records, and the message of the first malformed
/// one among them; reading stops there.
pub open spec fn scan_records(recs: Seq<Seq<char>>, ids: Seq<Seq<char>>, edges: Seq<(usize, usize)>, k: int) -> (
    Seq<RecordStep>,
    Option<Seq<char>>,
)
    decreases k,
{
    if k <= 0 {
        (Seq::empty(), None)
    } else {
        let (items, fail) = scan_records(recs, ids, edges, k - 1);
        if fail is Some {
            (items, fail)
        } else {
            match record_step(recs[k - 1], ids, edges) {
                RecordStep::Skip => (items, None),
                RecordStep::Fail(m) => (items, Some(m)),
                e => (items.push(e), None),
            }
        }
    }
}

/// Some entry places node `v`.
pub open spec fn placed(items: Seq<RecordStep>, v: int) -> bool {
    exists|i: int| 0 <= i < items.len() && ((#[trigger] items[i]) matches RecordStep::Node(x, _) && x == v)
}

/// The first node at or after `v` (below `n`) that no entry places.
pub open spec fn first_unplaced(items: Seq<RecordStep>, n: int, v: int) -> Option<int>
    decreases n - v,
{
    if v < 0 || v >= n {
        None
    } else if !placed(items, v) {
        Some(v)
    } else {
        first_unplaced(items, n, v + 1)
    }
}

/// The entries that plain output gives for a graph, and the message of the first problem: a
/// malformed record (reading stops there) or, after all records, a node of the graph that no
/// record places.
pub open spec fn plain_scan(output: Seq<char>, ids: Seq<Seq<char>>, edges: Seq<(usize, usize)>) -> (
    Seq<RecordStep>,
    Option<Seq<char>>,
) {
    let recs = merge_records(text_lines(output));
    let (items, fail) = scan_records(recs, ids, edges, recs.len() as int);
    if fail is Some {
        (items, fail)
    } else {
        match first_unplaced(items, ids.len() as int, 0) {
            Some(v) => (items, Some("missing node '"@ + ids[v] + "' in plain output"@)),
            None => (items, None),
        }
    }
}

/// A node position or an edge route read from plain output; coordinates are in inches, as text.
pub enum PlainItem {
    Node { node: usize, coords: Vec<String> },
    Route { source: usize, target: usize, coords: Vec<String> },
}

/// The character views of a list of strings.
pub open spec fn text_views(v: Seq<String>) -> Seq<Seq<char>> {
    v.map_values(|x: String| x@)
}

/// The entry an item stands for.
pub open spec fn item_entry(i: PlainItem) -> RecordStep {
    match i {
        PlainItem::Node { node, coords } => RecordStep::Node(node as int, text_views(coords@)),
        PlainItem::Route { source, target, coords } => RecordStep::Route(
            source as int,
            target as int,
            text_views(coords@),
        ),
    }
}

/// The items read from plain output, then the problem that stopped reading, if any.
pub struct PlainScan {
    pub items: Vec<PlainItem>,
    pub failure: Option<RenderError>,
}

enum StepOut {
    Skip,
    Item(PlainItem),
    Fail(Vec<char>),
}

spec fn step_out_matches(o: StepOut, s: RecordStep) -> bool {
    match o {
        StepOut::Skip => s is Skip,
        StepOut::Item(i) => item_entry(i) == s && !(s is Skip) && !(s is Fail),
        StepOut::Fail(m) => s == RecordStep::Fail(m@),
    }
}

proof fn lemma_index_of_sorted(ids: Seq<Seq<char>>, i: int)
    requires
        ids_sorted(ids),
        0 <= i < ids.len(),
    ensures
        ids.contains(ids[i]),
        ids.index_of(ids[i]) == i,
{
    assert(ids.contains(ids[i]));
    let j = ids.index_of(ids[i]);
    assert(0 <= j < ids.len() && ids[j] == ids[i]);
    if j != i {
        lemma_seq_lt_irreflexive(ids[i]);
        if j < i {
            assert(crate::text::seq_lt(ids[j], ids[i]));
        } else {
            assert(crate::text::seq_lt(ids[i], ids[j]));
        }
    }
}

fn to_strings(v: &Vec<Vec<char>>, from: usize, to: usize) -> (r: Vec<String>)
    requires
        from <= to <= v.len(),
    ensures
        text_views(r@) == char_views(v@).subrange(from as int, to as int),
{
    let mut out: Vec<String> = Vec::new();
    let mut k: usize = from;
    while k < to
        invariant
            from <= k <= to <= v.len(),
            text_views(out@) == char_views(v@).subrange(from as int, k as int),
        decreases to - k,
    {
        let ghost before = text_views(out@);
        out.push(string_from_chars(v[k].as_slice()));
        assert(text_views(out@) =~= before.push(v@[k as int]@));
        assert(char_views(v@).subrange(from as int, k + 1) =~= char_views(v@).subrange(from as int, k as int).push(
            v@[k as int]@,
        ));
        k = k + 1;
    }
    out
}

fn edge_listed(edges: &Vec<(usize, usize)>, a: usize, b: usize) -> (r: bool)
    ensures
        r == edges@.contains((a, b)),
{
    let mut k: usize = 0;
    while k < edges.len()
        invariant
            k <= edges.len(),
            forall|m: int| 0 <= m < k ==> #[trigger] edges@[m] != (a, b),
        decreases edges.len() - k,
    {
        if edges[k].0 == a && edges[k].1 == b {
            assert(edges@[k as int] == (a, b));
            return true;
        }
        k = k + 1;
    }
    false
}

fn message_with_words(head: &str, f: &Vec<Vec<char>>) -> (r: Vec<char>)
    ensures
        r@ == head@ + join_space(char_views(f@)),
{
    let body = join_words(f);
    let mut m: Vec<char> = Vec::new();
    push_str(&mut m, head);
    push_chars(&mut m, body.as_slice());
    m
}

fn message(head: &str, body: &[char], tail: &str) -> (r: Vec<char>)
    ensures
        r@ == head@ + body@ + tail@,
{
    let mut m: Vec<char> = Vec::new();
    push_str(&mut m, head);
    push_chars(&mut m, body);
    push_str(&mut m, tail);
    m
}

fn read_record(r: &[char], graph: &LayoutGraph) -> (o: StepOut)
    requires
        graph.table.wf(),
    ensures
        step_out_matches(o, record_step(r@, graph.table.views(), graph.edges@)),
{
    let ghost ids = graph.table.views();
    let t = trim_chars(r);
    let f = split_words(t.as_slice());
    let ghost fv = words(trim(r@));
    assert(char_views(f@) =~= fv);
    let stop = chars_of("stop");
    let graph_prefix = chars_of("graph ");
    let is_graph = t.len() >= graph_prefix.len() && {
        let head = sub_chars(t.as_slice(), 0, graph_prefix.len());
        assert(head@ =~= t@.take(graph_prefix@.len() as int));
        chars_eq(head.as_slice(), graph_prefix.as_slice())
    };
    if t.len() == 0 || chars_eq(t.as_slice(), stop.as_slice()) || is_graph || f.len() == 0 {
        assert(record_step(r@, ids, graph.edges@) is Skip);
        return StepOut::Skip;
    }
    assert(!is_graph_record(t@));
    if word_is(&f[0], "node") {
        if f.len() < 6 {
            return StepOut::Fail(message_with_words("node record is too short: ", &f));
        }
        let id = trim_matches_chars(f[1].as_slice(), '"');
        let id_text = string_from_chars(id.as_slice());
        match graph.table.index_of(id_text.as_str()) {
            Some(x) => {
                proof {
                    lemma_index_of_sorted(ids, x as int);
                }
                let coords = to_strings(&f, 2, 6);
                assert(record_step(r@, ids, graph.edges@) == RecordStep::Node(x as int, text_views(coords@)));
                return StepOut::Item(PlainItem::Node { node: x, coords });
            },
            None => {
                return StepOut::Skip;
            },
        }
    }
    if word_is(&f[0], "edge") {
        if f.len() < 5 {
            return StepOut::Fail(message_with_words("edge record is too short: ", &f));
        }
        let first = string_from_chars(f[1].as_slice());
        let second = string_from_chars(f[2].as_slice());
        let source_name = normalize_edge_endpoint(first.as_str());
        let target_name = normalize_edge_endpoint(second.as_str());
        let (a, b) = match (graph.table.index_of(source_name.as_str()), graph.table.index_of(target_name.as_str())) {
            (Some(a), Some(b)) => (a, b),
            _ => {
                return StepOut::Skip;
            },
        };
        proof {
            lemma_index_of_sorted(ids, a as int);
            lemma_index_of_sorted(ids, b as int);
        }
        if !edge_listed(&graph.edges, a, b) {
            return StepOut::Skip;
        }
        let n = match parse_count(f[3].as_slice()) {
            Some(n) => n,
            None => {
                return StepOut::Fail(message("invalid edge point count '", f[3].as_slice(), "'"));
            },
        };
        let needed = match n.checked_mul(2) {
            Some(d) => d.checked_add(4),
            None => None,
        };
        match needed {
            Some(c) => {
                if f.len() < c {
                    return StepOut::Fail(message_with_words("edge record is missing route coordinates: ", &f));
                }
                let coords = to_strings(&f, 4, c);
                proof {
                    let fw = words(trim(r@));
                    assert(fw[0] == "edge"@);
                    assert(fw[0] != "node"@);
                    assert(ids.contains(endpoint_name(fw[1])));
                    assert(ids.contains(endpoint_name(fw[2])));
                    assert(ids.index_of(endpoint_name(fw[1])) == a);
                    assert(ids.index_of(endpoint_name(fw[2])) == b);
                    assert(graph.edges@.contains((a, b)));
                    assert(count_value(fw[3]) == Some(n as int));
                    assert(text_views(coords@) == fw.subrange(4, 4 + 2 * n));
                }
                assert(record_step(r@, ids, graph.edges@) == RecordStep::Route(a as int, b as int, text_views(coords@)));
                return StepOut::Item(PlainItem::Route { source: a, target: b, coords });
            },
            None => {
                return StepOut::Fail(message_with_words("edge record is missing route coordinates: ", &f));
            },
        }
    }
    StepOut::Fail(message("unsupported plain record '", f[0].as_slice(), "'"))
}

proof fn lemma_scan_stops(recs: Seq<Seq<char>>, ids: Seq<Seq<char>>, edges: Seq<(usize, usize)>, k: int, j: int)
    requires
        0 <= k <= j,
        scan_records(recs, ids, edges, k).1 is Some,
    ensures
        scan_records(recs, ids, edges, j) == scan_records(recs, ids, edges, k),
    decreases j - k,
{
    if j > k {
        lemma_scan_stops(recs, ids, edges, k, j - 1);
    }
}

proof fn lemma_first_unplaced_none(items: Seq<RecordStep>, n: int, v: int)
    requires
        0 <= v,
        forall|w: int| v <= w < n ==> placed(items, w),
    ensures
        first_unplaced(items, n, v) is None,
    decreases n - v,
{
    if v < n {
        lemma_first_unplaced_none(items, n, v + 1);
    }
}

/// Reads plain output for a layout graph; see [`plain_scan`].
pub fn scan_plain_output(output: &str, graph: &LayoutGraph) -> (r: PlainScan)
    requires
        graph.table.wf(),
    ensures
        r.items@.map_values(|i: PlainItem| item_entry(i)) == plain_scan(output@, graph.table.views(), graph.edges@).0,
        match plain_scan(output@, graph.table.views(), graph.edges@).1 {
            None => r.failure is None,
            Some(m) => r.failure matches Some(RenderError::GraphvizParse(t)) && t@ == m,
        },
{
    let ghost ids = graph.table.views();
    let recs = plain_records(output);
    let ghost rv = recs@.map_values(|x: String| x@);
    let n = graph.table.ids.len();
    let mut placed_flags: Vec<bool> = Vec::new();
    let mut v: usize = 0;
    while v < n
        invariant
            v <= n,
            placed_flags@.len() == v,
            forall|w: int| 0 <= w < v ==> !#[trigger] placed_flags@[w],
        decreases n - v,
    {
        placed_flags.push(false);
        v = v + 1;
    }
    let mut items: Vec<PlainItem> = Vec::new();
    let mut k: usize = 0;
    assert(items@.map_values(|i: PlainItem| item_entry(i)) =~= Seq::<RecordStep>::empty());
    while k < recs.len()
        invariant
            k <= recs.len(),
            graph.table.wf(),
            ids == graph.table.views(),
            n == ids.len(),
            rv == recs@.map_values(|x: String| x@),
            rv == merge_records(text_lines(output@)),
            placed_flags@.len() == n,
            scan_records(rv, ids, graph.edges@, k as int) == (items@.map_values(|i: PlainItem| item_entry(i)), None::<Seq<char>>),
            forall|w: int| 0 <= w < n ==> #[trigger] placed_flags@[w] == placed(items@.map_values(|i: PlainItem| item_entry(i)), w),
        decreases recs.len() - k,
    {
        let ghost before = items@.map_values(|i: PlainItem| item_entry(i));
        let chars = chars_of(recs[k].as_str());
        assert(chars@ == rv[k as int]);
        match read_record(chars.as_slice(), graph) {
            StepOut::Skip => {},
            StepOut::Item(item) => {
                let ghost e = item_entry(item);
                match &item {
                    PlainItem::Node { node, .. } => {
                        placed_flags.set(*node, true);
                    },
                    PlainItem::Route { .. } => {},
                }
                items.push(item);
                assert(items@.map_values(|i: PlainItem| item_entry(i)) =~= before.push(e));
                proof {
                    let after = before.push(e);
                    assert forall|w: int| 0 <= w < n implies #[trigger] placed_flags@[w] == placed(after, w) by {
                        if placed(before, w) {
                            let i = choose|i: int| 0 <= i < before.len() && ((#[trigger] before[i]) matches RecordStep::Node(x, _) && x == w);
                            assert(after[i] == before[i]);
                        }
                        if placed(after, w) {
                            let i = choose|i: int| 0 <= i < after.len() && ((#[trigger] after[i]) matches RecordStep::Node(x, _) && x == w);
                            if i < before.len() {
                                assert(after[i] == before[i]);
                            }
                        }
                        assert(after[before.len() as int] == e);
                    }
                }
            },
            StepOut::Fail(m) => {
                proof {
                    lemma_scan_stops(rv, ids, graph.edges@, k + 1, rv.len() as int);
                }
                let text = string_from_chars(m.as_slice());
                return PlainScan { items, failure: Some(RenderError::GraphvizParse(text)) };
            },
        }
        k = k + 1;
    }
    let ghost entries = items@.map_values(|i: PlainItem| item_entry(i));
    assert(rv.len() == recs.len());
    let mut w: usize = 0;
    while w < n
        invariant
            w <= n,
            n == ids.len(),
            ids == graph.table.views(),
            placed_flags@.len() == n,
            entries == items@.map_values(|i: PlainItem| item_entry(i)),
            forall|x: int| 0 <= x < n ==> #[trigger] placed_flags@[x] == placed(entries, x),
            first_unplaced(entries, n as int, 0) == first_unplaced(entries, n as int, w as int),
            rv == merge_records(text_lines(output@)),
            scan_records(rv, ids, graph.edges@, rv.len() as int) == (entries, None::<Seq<char>>),
        decreases n - w,
    {
        if !placed_flags[w] {
            let mut msg: Vec<char> = Vec::new();
            push_str(&mut msg, "missing node '");
            push_str(&mut msg, graph.table.ids[w].as_str());
            push_str(&mut msg, "' in plain output");
            assert(ids[w as int] == graph.table.ids@[w as int]@);
            assert(msg@ =~= "missing node '"@ + ids[w as int] + "' in plain output"@);
            let text = string_from_chars(msg.as_slice());
            return PlainScan { items, failure: Some(RenderError::GraphvizParse(text)) };
        }
        w = w + 1;
    }
    proof {
        lemma_first_unplaced_none(entries, n as int, n as int);
    }
    PlainScan { items, failure: None }
}

} // verus!
