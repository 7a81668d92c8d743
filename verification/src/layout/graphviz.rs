//! Text of the Graphviz exchange: the DOT input of a layout graph, quoted DOT ids, and endpoint
//! names of plain output.
use vstd::prelude::*;

use crate::layout::graph::LayoutGraph;
use crate::layout::ids::id_views;
use crate::render::types::LayoutFamily;
use crate::text::{
    chars_of, find_char, index_of_char, push_chars, push_str, replace_all, replace_all_exec, string_from_chars,
    sub_chars, trim_matches, trim_matches_chars,
};

verus! {

/// The node name of an edge endpoint: without surrounding quotes, up to the first `:` (which
/// starts a port).
pub open spec fn endpoint_name(value: Seq<char>) -> Seq<char> {
    let t = trim_matches(value, '"');
    match index_of_char(t, ':') {
        Some(i) => t.subrange(0, i),
        None => t,
    }
}

/// The node name of an edge endpoint; see [`endpoint_name`].
pub fn normalize_edge_endpoint(value: &str) -> (r: String)
    ensures
        r@ == endpoint_name(value@),
{
    let chars = chars_of(value);
    let t = trim_matches_chars(chars.as_slice(), '"');
    let name = match find_char(t.as_slice(), ':') {
        Some(i) => sub_chars(t.as_slice(), 0, i),
        None => t,
    };
    string_from_chars(name.as_slice())
}

/// A DOT id: the value in double quotes, with backslashes and quotes escaped.
pub open spec fn dot_quoted(value: Seq<char>) -> Seq<char> {
    seq!['"'] + replace_all(replace_all(value, seq!['\\'], seq!['\\', '\\']), seq!['"'], seq!['\\', '"']) + seq!['"']
}

/// A DOT id for `value`; see [`dot_quoted`].
pub fn quote_dot(value: &str) -> (r: String)
    ensures
        r@ == dot_quoted(value@),
{
    let chars = chars_of(value);
    let backslash: Vec<char> = vec!['\\'];
    let doubled: Vec<char> = vec!['\\', '\\'];
    let quote: Vec<char> = vec!['"'];
    let escaped_quote: Vec<char> = vec!['\\', '"'];
    proof {
        assert(backslash@ =~= seq!['\\']);
        assert(doubled@ =~= seq!['\\', '\\']);
        assert(quote@ =~= seq!['"']);
        assert(escaped_quote@ =~= seq!['\\', '"']);
    }
    let a = replace_all_exec(chars.as_slice(), backslash.as_slice(), doubled.as_slice());
    let b = replace_all_exec(a.as_slice(), quote.as_slice(), escaped_quote.as_slice());
    let mut out: Vec<char> = Vec::new();
    out.push('"');
    push_chars(&mut out, b.as_slice());
    out.push('"');
    proof {
        assert(out@ =~= dot_quoted(value@));
    }
    string_from_chars(out.as_slice())
}

/// How Graphviz lays out one family: the engine command and the graph attributes it is given.
/// Spacings are held as the DOT text of their value, with four decimals.
#[derive(Clone, Copy)]
pub struct EngineSpec {
    pub command: &'static str,
    pub ranksep_attr: &'static str,
    pub ranksep: &'static str,
    pub nodesep_attr: &'static str,
    pub nodesep: &'static str,
    pub rankdir: Option<&'static str>,
    pub splines: &'static str,
    pub overlap: Option<&'static str>,
    pub oneblock: Option<&'static str>,
}

/// The engine settings of the tree families; the other families have none.
pub open spec fn engine_for(family: LayoutFamily) -> Option<EngineSpec> {
    match family {
        LayoutFamily::TreeTopDown => Some(
            EngineSpec {
                command: "dot",
                ranksep_attr: "ranksep",
                ranksep: "2.0000",
                nodesep_attr: "nodesep",
                nodesep: "2.0000",
                rankdir: Some("TB"),
                splines: "ortho",
                overlap: None,
                oneblock: None,
            },
        ),
        LayoutFamily::TreeLeftRight => Some(
            EngineSpec {
                command: "dot",
                ranksep_attr: "ranksep",
                ranksep: "2.0000",
                nodesep_attr: "nodesep",
                nodesep: "1.0000",
                rankdir: Some("LR"),
                splines: "ortho",
                overlap: None,
                oneblock: None,
            },
        ),
        _ => None,
    }
}

/// The Graphviz settings of a layout family.
pub fn spec_for_family(family: LayoutFamily) -> (r: Option<EngineSpec>)
    ensures
        r == engine_for(family),
{
    match family {
        LayoutFamily::TreeTopDown => Some(
            EngineSpec {
                command: "dot",
                ranksep_attr: "ranksep",
                ranksep: "2.0000",
                nodesep_attr: "nodesep",
                nodesep: "2.0000",
                rankdir: Some("TB"),
                splines: "ortho",
                overlap: None,
                oneblock: None,
            },
        ),
        LayoutFamily::TreeLeftRight => Some(
            EngineSpec {
                command: "dot",
                ranksep_attr: "ranksep",
                ranksep: "2.0000",
                nodesep_attr: "nodesep",
                nodesep: "1.0000",
                rankdir: Some("LR"),
                splines: "ortho",
                overlap: None,
                oneblock: None,
            },
        ),
        _ => None,
    }
}

/// `parts` joined with `", "`.
#[verifier::opaque]
pub open spec fn join_comma(parts: Seq<Seq<char>>) -> Seq<char>
    decreases parts.len(),
{
    if parts.len() == 0 {
        Seq::empty()
    } else if parts.len() == 1 {
        parts[0]
    } else {
        join_comma(parts.drop_last()) + ", "@ + parts.last()
    }
}

/// `name=value` for an optional setting.
pub open spec fn optional_attr(name: Seq<char>, value: Option<&'static str>) -> Seq<Seq<char>> {
    match value {
        Some(v) => seq![name + "="@ + v@],
        None => Seq::empty(),
    }
}

/// The graph attributes of the DOT input: spacing and edge style, the settings of the tree
/// families, then the optional rank direction, overlap and one-block settings.
pub open spec fn graph_attrs(spec: EngineSpec, family: LayoutFamily) -> Seq<Seq<char>> {
    let base = seq![
        spec.nodesep_attr@ + "="@ + spec.nodesep@,
        spec.ranksep_attr@ + "="@ + spec.ranksep@,
        "splines"@ + "="@ + spec.splines@,
    ];
    let tree = if family == LayoutFamily::TreeTopDown || family == LayoutFamily::TreeLeftRight {
        seq!["compund"@ + "="@ + "true"@, "reminicross"@ + "="@ + "true"@, "center"@ + "="@ + "true"@, "concentrate"@ + "="@ + "true"@]
    } else {
        Seq::empty()
    };
    base + tree + optional_attr("rankdir"@, spec.rankdir) + optional_attr("overlap"@, spec.overlap)
        + optional_attr("oneblock"@, spec.oneblock)
}

/// One statement line per node, in id order.
pub open spec fn node_lines(ids: Seq<Seq<char>>, k: int) -> Seq<char>
    decreases k,
{
    if k <= 0 {
        Seq::empty()
    } else {
        node_lines(ids, k - 1) + "  "@ + dot_quoted(ids[k - 1]) + ";\n"@
    }
}

/// One statement line per edge, in the order of `edges`.
pub open spec fn edge_lines(ids: Seq<Seq<char>>, edges: Seq<(usize, usize)>, k: int) -> Seq<char>
    decreases k,
{
    if k <= 0 {
        Seq::empty()
    } else {
        edge_lines(ids, edges, k - 1) + "  "@ + dot_quoted(ids[edges[k - 1].0 as int]) + " -> "@ + dot_quoted(
            ids[edges[k - 1].1 as int],
        ) + ";\n"@
    }
}

/// The DOT input that Graphviz lays out for a graph: the graph, node and edge defaults, then
/// every node and every edge (both in id order, which is the order of the graph's lists).
pub open spec fn dot_input(ids: Seq<Seq<char>>, edges: Seq<(usize, usize)>, spec: EngineSpec, family: LayoutFamily) -> Seq<char> {
    "digraph aurora {\n"@ + "  graph ["@ + join_comma(graph_attrs(spec, family)) + "];\n"@
        + "  node [shape=box, fixedsize=true, width=2.4000, height=1.5000, margin=0, label=\"\", fontsize=16];\n"@
        + "  edge [arrowhead=normal, penwidth=2];\n"@ + node_lines(ids, ids.len() as int) + edge_lines(
        ids,
        edges,
        edges.len() as int,
    ) + "}\n"@
}

fn push_attr(out: &mut Vec<char>, first: bool, name: &str, value: &str)
    ensures
        final(out)@ == old(out)@ + (if first { Seq::empty() } else { ", "@ }) + (name@ + "="@ + value@),
{
    if !first {
        push_str(out, ", ");
    }
    push_str(out, name);
    push_str(out, "=");
    push_str(out, value);
    assert(final(out)@ =~= old(out)@ + (if first { Seq::empty() } else { ", "@ }) + (name@ + "="@ + value@));
}

proof fn lemma_join_comma_push(parts: Seq<Seq<char>>, x: Seq<char>)
    ensures
        join_comma(parts.push(x)) == join_comma(parts) + (if parts.len() == 0 { Seq::empty() } else { ", "@ }) + x,
{
    reveal(join_comma);
    assert(parts.push(x).drop_last() =~= parts);
    if parts.len() == 0 {
        assert(join_comma(parts.push(x)) == x);
        assert(Seq::<char>::empty() + Seq::<char>::empty() + x =~= x);
    }
}

/// The graph attributes joined with `", "`.
fn attrs_text(spec: EngineSpec, family: LayoutFamily) -> (r: Vec<char>)
    ensures
        r@ == join_comma(graph_attrs(spec, family)),
{
    let mut out: Vec<char> = Vec::new();
    let ghost mut done: Seq<Seq<char>> = Seq::empty();
    assert(out@ =~= join_comma(done)) by {
        reveal(join_comma);
    }
    push_attr(&mut out, true, spec.nodesep_attr, spec.nodesep);
    proof {
        lemma_join_comma_push(done, spec.nodesep_attr@ + "="@ + spec.nodesep@);
        done = done.push(spec.nodesep_attr@ + "="@ + spec.nodesep@);
        assert(out@ =~= join_comma(done));
    }
    push_attr(&mut out, false, spec.ranksep_attr, spec.ranksep);
    proof {
        lemma_join_comma_push(done, spec.ranksep_attr@ + "="@ + spec.ranksep@);
        done = done.push(spec.ranksep_attr@ + "="@ + spec.ranksep@);
    }
    push_attr(&mut out, false, "splines", spec.splines);
    proof {
        lemma_join_comma_push(done, "splines"@ + "="@ + spec.splines@);
        done = done.push("splines"@ + "="@ + spec.splines@);
        assert(out@ =~= join_comma(done));
    }
    let ghost base = done;
    assert(base =~= seq![
        spec.nodesep_attr@ + "="@ + spec.nodesep@,
        spec.ranksep_attr@ + "="@ + spec.ranksep@,
        "splines"@ + "="@ + spec.splines@,
    ]);
    if family == LayoutFamily::TreeTopDown || family == LayoutFamily::TreeLeftRight {
        push_attr(&mut out, false, "compund", "true");
        proof {
            lemma_join_comma_push(done, "compund"@ + "="@ + "true"@);
            done = done.push("compund"@ + "="@ + "true"@);
            assert(out@ =~= join_comma(done));
        }
        push_attr(&mut out, false, "reminicross", "true");
        proof {
            lemma_join_comma_push(done, "reminicross"@ + "="@ + "true"@);
            done = done.push("reminicross"@ + "="@ + "true"@);
            assert(out@ =~= join_comma(done));
        }
        push_attr(&mut out, false, "center", "true");
        proof {
            lemma_join_comma_push(done, "center"@ + "="@ + "true"@);
            done = done.push("center"@ + "="@ + "true"@);
            assert(out@ =~= join_comma(done));
        }
        push_attr(&mut out, false, "concentrate", "true");
        proof {
            lemma_join_comma_push(done, "concentrate"@ + "="@ + "true"@);
            done = done.push("concentrate"@ + "="@ + "true"@);
            assert(out@ =~= join_comma(done));
        }
    }
    let ghost fixed = done;
    assert(fixed =~= base + (if family == LayoutFamily::TreeTopDown || family == LayoutFamily::TreeLeftRight {
        seq!["compund"@ + "="@ + "true"@, "reminicross"@ + "="@ + "true"@, "center"@ + "="@ + "true"@, "concentrate"@ + "="@ + "true"@]
    } else {
        Seq::<Seq<char>>::empty()
    }));
    if let Some(rankdir) = spec.rankdir {
        push_attr(&mut out, false, "rankdir", rankdir);
        proof {
            lemma_join_comma_push(done, "rankdir"@ + "="@ + rankdir@);
            done = done.push("rankdir"@ + "="@ + rankdir@);
            assert(out@ =~= join_comma(done));
        }
    }
    assert(done =~= fixed + optional_attr("rankdir"@, spec.rankdir));
    let ghost with_rankdir = done;
    if let Some(overlap) = spec.overlap {
        push_attr(&mut out, false, "overlap", overlap);
        proof {
            lemma_join_comma_push(done, "overlap"@ + "="@ + overlap@);
            done = done.push("overlap"@ + "="@ + overlap@);
            assert(out@ =~= join_comma(done));
        }
    }
    assert(done =~= with_rankdir + optional_attr("overlap"@, spec.overlap));
    let ghost with_overlap = done;
    if let Some(oneblock) = spec.oneblock {
        push_attr(&mut out, false, "oneblock", oneblock);
        proof {
            lemma_join_comma_push(done, "oneblock"@ + "="@ + oneblock@);
            done = done.push("oneblock"@ + "="@ + oneblock@);
            assert(out@ =~= join_comma(done));
        }
    }
    assert(done =~= with_overlap + optional_attr("oneblock"@, spec.oneblock));
    assert(done =~= graph_attrs(spec, family));
    out
}

/// Appends the node statement lines of the graph.
fn push_node_lines(out: &mut Vec<char>, graph: &LayoutGraph)
    ensures
        final(out)@ == old(out)@ + node_lines(graph.table.views(), graph.table.ids@.len() as int),
{
    let ghost ids = graph.table.views();
    let ghost prefix = out@;
    let mut k: usize = 0;
    while k < graph.table.ids.len()
        invariant
            k <= graph.table.ids@.len(),
            ids == graph.table.views(),
            out@ == prefix + node_lines(ids, k as int),
        decreases graph.table.ids@.len() - k,
    {
        let q = quote_dot(graph.table.ids[k].as_str());
        assert(ids[k as int] == graph.table.ids@[k as int]@);
        push_str(out, "  ");
        push_str(out, q.as_str());
        push_str(out, ";\n");
        assert(out@ =~= prefix + node_lines(ids, k + 1));
        k = k + 1;
    }
}

/// Appends the edge statement lines of the graph.
fn push_edge_lines(out: &mut Vec<char>, graph: &LayoutGraph)
    requires
        forall|k: int| 0 <= k < graph.edges@.len() ==> (#[trigger] graph.edges@[k]).0 < graph.table.ids@.len()
            && graph.edges@[k].1 < graph.table.ids@.len(),
    ensures
        final(out)@ == old(out)@ + edge_lines(graph.table.views(), graph.edges@, graph.edges@.len() as int),
{
    let ghost ids = graph.table.views();
    let ghost prefix = out@;
    let mut e: usize = 0;
    while e < graph.edges.len()
        invariant
            e <= graph.edges@.len(),
            ids == graph.table.views(),
            forall|k: int| 0 <= k < graph.edges@.len() ==> (#[trigger] graph.edges@[k]).0 < graph.table.ids@.len()
                && graph.edges@[k].1 < graph.table.ids@.len(),
            out@ == prefix + edge_lines(ids, graph.edges@, e as int),
        decreases graph.edges@.len() - e,
    {
        let (a, b) = graph.edges[e];
        let qa = quote_dot(graph.table.ids[a].as_str());
        let qb = quote_dot(graph.table.ids[b].as_str());
        assert(ids[a as int] == graph.table.ids@[a as int]@);
        assert(ids[b as int] == graph.table.ids@[b as int]@);
        push_str(out, "  ");
        push_str(out, qa.as_str());
        push_str(out, " -> ");
        push_str(out, qb.as_str());
        push_str(out, ";\n");
        assert(out@ =~= prefix + edge_lines(ids, graph.edges@, e + 1));
        e = e + 1;
    }
}

/// The DOT input of a layout graph for Graphviz; see [`dot_input`].
pub fn build_graphviz_input(graph: &LayoutGraph, spec: EngineSpec, family: LayoutFamily) -> (r: String)
    requires
        forall|k: int| 0 <= k < graph.edges@.len() ==> (#[trigger] graph.edges@[k]).0 < graph.table.ids@.len()
            && graph.edges@[k].1 < graph.table.ids@.len(),
    ensures
        r@ == dot_input(graph.table.views(), graph.edges@, spec, family),
{
    let mut out: Vec<char> = Vec::new();
    push_str(&mut out, "digraph aurora {\n");
    push_str(&mut out, "  graph [");
    let attrs = attrs_text(spec, family);
    push_chars(&mut out, attrs.as_slice());
    push_str(&mut out, "];\n");
    push_str(
        &mut out,
        "  node [shape=box, fixedsize=true, width=2.4000, height=1.5000, margin=0, label=\"\", fontsize=16];\n",
    );
    push_str(&mut out, "  edge [arrowhead=normal, penwidth=2];\n");
    push_node_lines(&mut out, graph);
    push_edge_lines(&mut out, graph);
    push_str(&mut out, "}\n");
    assert(out@ =~= dot_input(graph.table.views(), graph.edges@, spec, family));
    string_from_chars(out.as_slice())
}

} // verus!
