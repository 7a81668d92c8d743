//! Assembly of the rendered SVG document: the card index, the layer groups, the background,
//! the size limit, and the final clean-up of blank lines.
use vstd::prelude::*;

use crate::layout::ids::str_eq;
use crate::model::Card;
use crate::render::defs::{prune_unused_defs_groups, pruned_svg};
use crate::render::errors::RenderError;
use crate::render::geom::RectI;
use crate::render::svg::{fill_template, filled_template};
use crate::text::{chars_of, int_text, push_chars, push_int, push_str, string_from_chars, sub_chars, trim, trim_chars};

verus! {

/// Largest SVG document, in bytes, that rendering produces (the limit of many SVG renderers).
pub const SVG_MAX_SIZE: u128 = 52428800;

/// The ids of the root card and of the other cards, in that order.
pub open spec fn card_ids(root: Card, cards: Seq<Card>) -> Seq<Seq<char>> {
    seq![root.id@] + cards.map_values(|c: Card| c.id@)
}

/// The first position from `j` on whose id already occurs before it.
pub open spec fn first_repeat(ids: Seq<Seq<char>>, j: int) -> Option<int>
    decreases ids.len() - j,
{
    if j < 0 || j >= ids.len() {
        None
    } else if ids.take(j).contains(ids[j]) {
        Some(j)
    } else {
        first_repeat(ids, j + 1)
    }
}

/// Indexes the cards of a model by id: the root card at position 0, then the other cards.
/// The first card whose id was already seen is refused.
pub fn index_cards(root: &Card, cards: &Vec<Card>) -> (r: Result<Vec<(String, usize)>, RenderError>)
    requires
        cards@.len() < usize::MAX,
    ensures
        match first_repeat(card_ids(*root, cards@), 0) {
            Some(j) => r matches Err(RenderError::SvgDuplicateCardId(id)) && id@ == card_ids(*root, cards@)[j],
            None => r matches Ok(v) && v@.len() == cards@.len() + 1 && forall|i: int|
                0 <= i < v@.len() ==> (#[trigger] v@[i]).0@ == card_ids(*root, cards@)[i] && v@[i].1 == i,
        },
{
    let ghost ids = card_ids(*root, cards@);
    let n = cards.len() + 1;
    let mut out: Vec<(String, usize)> = Vec::new();
    let mut i: usize = 0;
    while i < n
        invariant
            n == cards@.len() + 1,
            ids == card_ids(*root, cards@),
            ids.len() == n,
            i <= n,
            out@.len() == i,
            forall|t: int| 0 <= t < i ==> (#[trigger] out@[t]).0@ == ids[t] && out@[t].1 == t,
            first_repeat(ids, 0) == first_repeat(ids, i as int),
        decreases n - i,
    {
        let id: &String = if i == 0 {
            &root.id
        } else {
            &cards[i - 1].id
        };
        assert(id@ == ids[i as int]);
        let mut k: usize = 0;
        let mut found = false;
        while k < i
            invariant
                i <= n,
                out@.len() == i,
                k <= i,
                found <==> exists|t: int| 0 <= t < k && (#[trigger] out@[t]).0@ == id@,
            decreases i - k,
        {
            if str_eq(out[k].0.as_str(), id.as_str()) {
                found = true;
            }
            k = k + 1;
        }
        proof {
            if found {
                let t = choose|t: int| 0 <= t < i && (#[trigger] out@[t]).0@ == id@;
                assert(ids.take(i as int)[t] == ids[i as int]);
            } else {
                assert forall|t: int| 0 <= t < i implies ids.take(i as int)[t] != ids[i as int] by {
                    assert(out@[t].0@ == ids[t]);
                }
            }
        }
        if found {
            return Err(RenderError::SvgDuplicateCardId(id.clone()));
        }
        out.push((id.clone(), i));
        i = i + 1;
    }
    Ok(out)
}

/// The number of bytes of the UTF-8 encoding of `c`.
pub open spec fn char_utf8_len(c: char) -> int {
    let u = c as u32;
    if u < 0x80 {
        1
    } else if u < 0x800 {
        2
    } else if u < 0x10000 {
        3
    } else {
        4
    }
}

/// The number of bytes of the UTF-8 encoding of `s`.
pub open spec fn utf8_len(s: Seq<char>) -> int
    decreases s.len(),
{
    if s.len() == 0 {
        0
    } else {
        utf8_len(s.drop_last()) + char_utf8_len(s.last())
    }
}

/// The UTF-8 length of a text.
pub fn utf8_len_of(s: &str) -> (n: u128)
    ensures
        n == utf8_len(s@),
        n <= 4 * usize::MAX,
{
    let c = chars_of(s);
    let mut n: u128 = 0;
    let mut i: usize = 0;
    while i < c.len()
        invariant
            c@ == s@,
            i <= c@.len(),
            n == utf8_len(c@.take(i as int)),
            n <= 4 * i,
        decreases c@.len() - i,
    {
        let u = c[i] as u32;
        let w: u128 = if u < 0x80 {
            1
        } else if u < 0x800 {
            2
        } else if u < 0x10000 {
            3
        } else {
            4
        };
        proof {
            assert(c@.take(i + 1).drop_last() =~= c@.take(i as int));
        }
        n = n + w;
        i = i + 1;
    }
    proof {
        assert(c@.take(c@.len() as int) =~= c@);
    }
    assert(c.len() <= usize::MAX);
    n
}

/// The layers of a rendered diagram, each the SVG text of its elements.
pub struct SvgLayers {
    pub boundaries: String,
    pub edges: String,
    pub note_edges: String,
    pub node_shapes: String,
    pub note_shapes: String,
    pub node_labels: String,
    pub note_labels: String,
}

/// A group with id `id` around `a` and `b`, or nothing when both are empty.
pub open spec fn group_text(id: Seq<char>, a: Seq<char>, b: Seq<char>) -> Seq<char> {
    if a.len() == 0 && b.len() == 0 {
        Seq::empty()
    } else {
        "<g id=\""@ + id + "\">"@ + a + b + "</g>"@
    }
}

/// The diagram content: boundaries, edges, node shapes and node labels, each in its group.
pub open spec fn layers_content(l: SvgLayers) -> Seq<char> {
    group_text("boundaries"@, l.boundaries@, Seq::empty()) + group_text("edges"@, l.edges@, l.note_edges@)
        + group_text("node-shapes"@, l.node_shapes@, l.note_shapes@) + group_text(
        "node-labels"@,
        l.node_labels@,
        l.note_labels@,
    )
}

/// The total UTF-8 length of the layers.
pub open spec fn layers_len(l: SvgLayers) -> int {
    utf8_len(l.edges@) + utf8_len(l.note_edges@) + utf8_len(l.boundaries@) + utf8_len(l.note_shapes@) + utf8_len(
        l.note_labels@,
    ) + utf8_len(l.node_shapes@) + utf8_len(l.node_labels@)
}

/// The white screen background over the view box, hidden when printing.
pub open spec fn background_text(vb: RectI) -> Seq<char> {
    "<style>@media print{#aurora-bg{display:none;}}</style><rect id=\"aurora-bg\" x=\""@ + int_text(vb.x as int)
        + "\" y=\""@ + int_text(vb.y as int) + "\" width=\""@ + int_text(vb.w as int) + "\" height=\""@ + int_text(
        vb.h as int,
    ) + "\" style=\"fill:#ffffff;stroke:none;\" />"@
}

/// The drawing: the background, then the content, moved by the shift when there is one.
pub open spec fn drawing_text(background: Seq<char>, content: Seq<char>, sx: int, sy: int) -> Seq<char> {
    background + if sx != 0 || sy != 0 {
        "<g id=\"aurora-content\" transform=\"translate("@ + int_text(sx) + " "@ + int_text(sy) + ")\">"@ + content
            + "</g>"@
    } else {
        content
    }
}

/// The background of a view box.
pub fn background_svg(vb: &RectI) -> (r: String)
    ensures
        r@ == background_text(*vb),
{
    let mut out: Vec<char> = Vec::new();
    push_str(&mut out, "<style>@media print{#aurora-bg{display:none;}}</style><rect id=\"aurora-bg\" x=\"");
    push_int(&mut out, vb.x as i64);
    push_str(&mut out, "\" y=\"");
    push_int(&mut out, vb.y as i64);
    push_str(&mut out, "\" width=\"");
    push_int(&mut out, vb.w as i64);
    push_str(&mut out, "\" height=\"");
    push_int(&mut out, vb.h as i64);
    push_str(&mut out, "\" style=\"fill:#ffffff;stroke:none;\" />");
    proof {
        assert(out@ =~= background_text(*vb));
    }
    string_from_chars(out.as_slice())
}

/// Appends the group with id `id` around `a` and `b`, unless both are empty.
fn push_group(out: &mut Vec<char>, id: &str, a: &str, b: &str)
    ensures
        final(out)@ == old(out)@ + group_text(id@, a@, b@),
{
    let ca = chars_of(a);
    let cb = chars_of(b);
    if ca.len() == 0 && cb.len() == 0 {
        assert(old(out)@ + group_text(id@, a@, b@) =~= old(out)@);
        return;
    }
    push_str(out, "<g id=\"");
    push_str(out, id);
    push_str(out, "\">");
    push_chars(out, ca.as_slice());
    push_chars(out, cb.as_slice());
    push_str(out, "</g>");
    assert(final(out)@ =~= old(out)@ + group_text(id@, a@, b@));
}

/// The diagram content of the layers.
pub fn content_svg(l: &SvgLayers) -> (r: String)
    ensures
        r@ == layers_content(*l),
{
    let mut out: Vec<char> = Vec::new();
    push_group(&mut out, "boundaries", l.boundaries.as_str(), "");
    proof {
        reveal_strlit("");
    }
    push_group(&mut out, "edges", l.edges.as_str(), l.note_edges.as_str());
    push_group(&mut out, "node-shapes", l.node_shapes.as_str(), l.note_shapes.as_str());
    push_group(&mut out, "node-labels", l.node_labels.as_str(), l.note_labels.as_str());
    proof {
        assert(""@ =~= Seq::<char>::empty());
        assert(out@ =~= layers_content(*l));
    }
    string_from_chars(out.as_slice())
}

/// The drawing of a background and content under a shift.
pub fn drawing_svg(background: &str, content: &str, sx: i32, sy: i32) -> (r: String)
    ensures
        r@ == drawing_text(background@, content@, sx as int, sy as int),
{
    let mut out: Vec<char> = Vec::new();
    push_str(&mut out, background);
    if sx != 0 || sy != 0 {
        push_str(&mut out, "<g id=\"aurora-content\" transform=\"translate(");
        push_int(&mut out, sx as i64);
        push_str(&mut out, " ");
        push_int(&mut out, sy as i64);
        push_str(&mut out, ")\">");
        push_str(&mut out, content);
        push_str(&mut out, "</g>");
    } else {
        push_str(&mut out, content);
    }
    proof {
        assert(out@ =~= drawing_text(background@, content@, sx as int, sy as int));
    }
    string_from_chars(out.as_slice())
}

/// The position of the first line feed in `s` at or after `i`, or `s.len()`.
pub open spec fn next_newline(s: Seq<char>, i: int) -> int
    decreases s.len() - i,
{
    if i < 0 || i >= s.len() {
        s.len() as int
    } else if s[i] == '\n' {
        i
    } else {
        next_newline(s, i + 1)
    }
}

proof fn lemma_next_newline(s: Seq<char>, i: int)
    requires
        0 <= i <= s.len(),
    ensures
        i <= next_newline(s, i) <= s.len(),
        next_newline(s, i) < s.len() ==> s[next_newline(s, i)] == '\n',
        forall|k: int| i <= k < next_newline(s, i) ==> s[k] != '\n',
    decreases s.len() - i,
{
    if i < s.len() && s[i] != '\n' {
        lemma_next_newline(s, i + 1);
    }
}

/// A line without the carriage return of a `\r\n` ending.
pub open spec fn strip_cr(l: Seq<char>) -> Seq<char> {
    if l.len() > 0 && l.last() == '\r' {
        l.drop_last()
    } else {
        l
    }
}

/// The line of `s` that starts at `i`: up to the next line feed (without a carriage return
/// before it), or to the end.
pub open spec fn line_at(s: Seq<char>, i: int) -> Seq<char> {
    let j = next_newline(s, i);
    if j >= s.len() {
        s.subrange(i, s.len() as int)
    } else {
        strip_cr(s.subrange(i, j))
    }
}

/// The lines of `s` from position `i` on, each followed by a line feed, where a run of blank
/// lines (whitespace only) becomes one empty line; `prev_blank` tells whether the line before
/// `i` was blank.
pub open spec fn collapse_from(s: Seq<char>, i: int, prev_blank: bool) -> Seq<char>
    decreases s.len() + 1 - i,
{
    if i < 0 || i >= s.len() {
        Seq::empty()
    } else {
        let j = next_newline(s, i);
        let line = line_at(s, i);
        if j < i || j > s.len() {
            Seq::empty()
        } else if trim(line).len() == 0 {
            if prev_blank {
                collapse_from(s, j + 1, true)
            } else {
                seq!['\n'] + collapse_from(s, j + 1, true)
            }
        } else {
            line + seq!['\n'] + collapse_from(s, j + 1, false)
        }
    }
}

/// `s` with runs of blank lines collapsed to one empty line; it ends with a line feed only when
/// `s` does.
pub open spec fn collapsed(s: Seq<char>) -> Seq<char> {
    let out = collapse_from(s, 0, false);
    if !(s.len() > 0 && s.last() == '\n') && out.len() > 0 && out.last() == '\n' {
        out.drop_last()
    } else {
        out
    }
}

/// Collapses runs of blank lines of a text to one empty line.
pub fn collapse_blank_lines(text: String) -> (r: String)
    ensures
        r@ == collapsed(text@),
{
    let s = chars_of(text.as_str());
    let n = s.len();
    let mut out: Vec<char> = Vec::new();
    let mut prev_blank = false;
    let mut i: usize = 0;
    while i < n
        invariant
            n == s@.len(),
            i <= n,
            collapse_from(s@, 0, false) == out@ + collapse_from(s@, i as int, prev_blank),
        decreases n - i,
    {
        let mut j: usize = i;
        while j < n && s[j] != '\n'
            invariant
                n == s@.len(),
                i <= j <= n,
                next_newline(s@, i as int) == next_newline(s@, j as int),
            decreases n - j,
        {
            j = j + 1;
        }
        proof {
            lemma_next_newline(s@, i as int);
            lemma_next_newline(s@, j as int);
            assert(next_newline(s@, i as int) == j);
        }
        let line = if j < n && j > i && s[j - 1] == '\r' {
            sub_chars(s.as_slice(), i, j - 1)
        } else {
            sub_chars(s.as_slice(), i, j)
        };
        proof {
            if j < n && j > i {
                assert(s@.subrange(i as int, j as int).drop_last() =~= s@.subrange(i as int, j - 1));
            }
            assert(line@ == line_at(s@, i as int));
        }
        let t = trim_chars(line.as_slice());
        let ghost o0 = out@;
        if t.len() == 0 {
            if !prev_blank {
                out.push('\n');
            }
            prev_blank = true;
        } else {
            push_chars(&mut out, line.as_slice());
            out.push('\n');
            prev_blank = false;
        }
        proof {
            assert(collapse_from(s@, 0, false) == out@ + collapse_from(s@, j + 1, prev_blank)) by {
                if t@.len() == 0 {
                    if out@.len() > o0.len() {
                        assert(out@ =~= o0 + seq!['\n']);
                    }
                } else {
                    assert(out@ =~= o0 + line@ + seq!['\n']);
                }
            }
        }
        i = if j < n { j + 1 } else { n };
        proof {
            if j >= n {
                assert(collapse_from(s@, j + 1, prev_blank) == Seq::<char>::empty());
            }
        }
    }
    if !(n > 0 && s[n - 1] == '\n') && out.len() > 0 && out[out.len() - 1] == '\n' {
        out.pop();
    }
    proof {
        assert(collapse_from(s@, n as int, prev_blank) == Seq::<char>::empty());
        assert(out@ =~= collapsed(s@));
    }
    string_from_chars(out.as_slice())
}

/// The finished document: the template filled with the drawing, unused definitions pruned and
/// blank lines collapsed, each stage held to the size limit counted in UTF-8 bytes, the first
/// check on the template and the layers with the background.
pub open spec fn assembled_svg(template: Seq<char>, l: SvgLayers, vb: RectI, sx: int, sy: int) -> Result<Seq<char>, RenderError> {
    let base = utf8_len(template);
    let bg = background_text(vb);
    if base + layers_len(l) + utf8_len(bg) > SVG_MAX_SIZE {
        Err(RenderError::SvgTooLarge)
    } else {
        let drawing = drawing_text(bg, layers_content(l), sx, sy);
        if base + utf8_len(drawing) > SVG_MAX_SIZE {
            Err(RenderError::SvgTooLarge)
        } else {
            match filled_template(template, drawing, vb) {
                Err(e) => Err(e),
                Ok(svg) => if utf8_len(svg) > SVG_MAX_SIZE {
                    Err(RenderError::SvgTooLarge)
                } else {
                    let out = collapsed(pruned_svg(svg));
                    if utf8_len(out) > SVG_MAX_SIZE {
                        Err(RenderError::SvgTooLarge)
                    } else {
                        Ok(out)
                    }
                },
            }
        }
    }
}

/// Assembles the document from the template, the layers, the normalized view box and the shift
/// of the content.
pub fn assemble_svg(template: &str, layers: &SvgLayers, viewbox: RectI, shift_x: i32, shift_y: i32) -> (r: Result<
    String,
    RenderError,
>)
    ensures
        match r {
            Ok(s) => assembled_svg(template@, *layers, viewbox, shift_x as int, shift_y as int) == Ok::<Seq<char>, RenderError>(s@),
            Err(e) => assembled_svg(template@, *layers, viewbox, shift_x as int, shift_y as int) == Err::<Seq<char>, RenderError>(e),
        },
{
    let base = utf8_len_of(template);
    let background = background_svg(&viewbox);
    let total = base + utf8_len_of(layers.edges.as_str()) + utf8_len_of(layers.note_edges.as_str()) + utf8_len_of(
        layers.boundaries.as_str(),
    ) + utf8_len_of(layers.note_shapes.as_str()) + utf8_len_of(layers.note_labels.as_str()) + utf8_len_of(
        layers.node_shapes.as_str(),
    ) + utf8_len_of(layers.node_labels.as_str()) + utf8_len_of(background.as_str());
    if total > SVG_MAX_SIZE {
        return Err(RenderError::SvgTooLarge);
    }
    let content = content_svg(layers);
    let drawing = drawing_svg(background.as_str(), content.as_str(), shift_x, shift_y);
    if base + utf8_len_of(drawing.as_str()) > SVG_MAX_SIZE {
        return Err(RenderError::SvgTooLarge);
    }
    let svg = match fill_template(template, drawing.as_str(), &viewbox) {
        Ok(s) => s,
        Err(e) => {
            return Err(e);
        },
    };
    if utf8_len_of(svg.as_str()) > SVG_MAX_SIZE {
        return Err(RenderError::SvgTooLarge);
    }
    let pruned = prune_unused_defs_groups(svg);
    let out = collapse_blank_lines(pruned);
    if utf8_len_of(out.as_str()) > SVG_MAX_SIZE {
        return Err(RenderError::SvgTooLarge);
    }
    Ok(out)
}

} // verus!
