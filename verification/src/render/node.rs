//! Card nodes of the SVG drawing: text measurement, wrapping, escaping, and placement.
use vstd::prelude::*;

use crate::model::Card;
use crate::render::geom::RectI;
use crate::render::svg::SvgConfig;
use crate::text::{
    chars_of, find_char, index_of_char, is_ws, is_ws_char, push_chars, push_str, replace_char,
    replace_char_exec, string_from_chars, strip_start_char, sub_chars, trim, trim_chars, trim_end,
    trim_end_chars, trim_start, trim_start_chars,
};

verus! {

/// Width of a wrapped title or name line, in characters.
pub const WRAP_COLS: usize = 65;

/// Width of a wrapped description line, in characters.
pub const DESCRIPTION_WRAP_COLS: usize = 60;

/// Horizontal distance between grid columns, in pixels.
pub const COLUMN_PITCH_PX: i32 = 1080;

/// Vertical distance between grid rows, in pixels.
pub const ROW_PITCH_PX: i32 = 810;

/// Size of an icon as drawn, in pixels.
pub const ICON_RENDER_SIZE_PX: i32 = 72;

/// Left edge of the icon slot inside a card, in pixels.
pub const ICON_OFFSET_X_PX: i32 = 70;

/// Top edge of the icon slot inside a card, in pixels.
pub const ICON_OFFSET_Y_PX: i32 = 189;

/// A card's grid position and measured text.
#[derive(Debug, Clone)]
pub struct NodeLayout {
    pub id: String,
    pub x: i32,
    pub y: i32,
    pub geom: NodeGeom,
}

/// The measured text block of a card.
#[derive(Debug, Clone)]
pub struct NodeGeom {
    pub width_px: i32,
    pub height_px: i32,
    pub lines: Vec<String>,
    pub bold_line_index: Option<usize>,
    pub description_start_index: usize,
}

/// A card placed on the canvas.
#[derive(Debug, Clone)]
pub struct PositionedNode {
    pub bbox: RectI,
    pub width_px: i32,
    pub height_px: i32,
    pub geom: NodeGeom,
}

/// The SVG markup of a card.
#[derive(Debug, Clone)]
pub struct RenderedNode {
    pub shape: String,
    pub labels: String,
}

/// XML text escaping of `&`, `<` and `>`.
pub open spec fn escaped_text(s: Seq<char>) -> Seq<char> {
    replace_char(replace_char(replace_char(s, '&', "&amp;"@), '<', "&lt;"@), '>', "&gt;"@)
}

/// Escapes text for XML content.
pub fn escape_text(s: &str) -> (r: String)
    ensures
        r@ == escaped_text(s@),
{
    let v = escape_text_chars(s);
    string_from_chars(v.as_slice())
}

fn escape_text_chars(s: &str) -> (r: Vec<char>)
    ensures
        r@ == escaped_text(s@),
{
    let c = chars_of(s);
    let amp = chars_of("&amp;");
    let lt = chars_of("&lt;");
    let gt = chars_of("&gt;");
    let a = replace_char_exec(c.as_slice(), '&', amp.as_slice());
    let b = replace_char_exec(a.as_slice(), '<', lt.as_slice());
    replace_char_exec(b.as_slice(), '>', gt.as_slice())
}

/// XML attribute escaping: text escaping plus `"` and `'`.
pub open spec fn escaped_attr(s: Seq<char>) -> Seq<char> {
    replace_char(replace_char(escaped_text(s), '"', "&quot;"@), '\'', "&apos;"@)
}

/// Escapes text for an XML attribute value.
pub fn escape_attr(s: &str) -> (r: String)
    ensures
        r@ == escaped_attr(s@),
{
    let t = escape_text_chars(s);
    let quot = chars_of("&quot;");
    let apos = chars_of("&apos;");
    let a = replace_char_exec(t.as_slice(), '"', quot.as_slice());
    let b = replace_char_exec(a.as_slice(), '\'', apos.as_slice());
    string_from_chars(b.as_slice())
}

/// The icon id of an icon name: trimmed, without leading `#` and without an `i-` prefix;
/// `None` when nothing is left.
pub open spec fn icon_id_of(icon: Seq<char>) -> Option<Seq<char>> {
    let t = strip_start_char(trim(icon), '#');
    let n = if t.len() >= 2 && t[0] == 'i' && t[1] == '-' {
        t.subrange(2, t.len() as int)
    } else {
        t
    };
    if n.len() == 0 {
        None
    } else {
        Some(n)
    }
}

/// The icon id of an icon name; see [`icon_id_of`].
pub fn normalize_icon_id(icon: &str) -> (r: Option<String>)
    ensures
        match r {
            Some(s) => icon_id_of(icon@) == Some(s@),
            None => icon_id_of(icon@) is None,
        },
{
    let c = chars_of(icon);
    let t = trim_chars(c.as_slice());
    let mut i: usize = 0;
    proof {
        assert(t@.subrange(0, t@.len() as int) =~= t@);
    }
    while i < t.len() && t[i] == '#'
        invariant
            i <= t@.len(),
            strip_start_char(t@, '#') == strip_start_char(t@.subrange(i as int, t@.len() as int), '#'),
        decreases t@.len() - i,
    {
        proof {
            assert(t@.subrange(i as int, t@.len() as int).drop_first() =~= t@.subrange(i + 1, t@.len() as int));
        }
        i = i + 1;
    }
    proof {
        assert(t@.subrange(0, t@.len() as int) =~= t@);
    }
    let rest = sub_chars(t.as_slice(), i, t.len());
    let n = if rest.len() >= 2 && rest[0] == 'i' && rest[1] == '-' {
        sub_chars(rest.as_slice(), 2, rest.len())
    } else {
        rest
    };
    if n.len() == 0 {
        None
    } else {
        Some(string_from_chars(n.as_slice()))
    }
}

/// Index of the last whitespace character among the first `n` of `s`.
pub open spec fn last_ws_before(s: Seq<char>, n: int) -> Option<int>
    decreases n,
{
    if n <= 0 {
        None
    } else if is_ws(s[n - 1]) {
        Some(n - 1)
    } else {
        last_ws_before(s, n - 1)
    }
}

/// The lines of one trimmed line wrapped at `max` characters: cut at the last whitespace
/// within the first `max` characters (else after `max` characters), trim the cut, repeat.
pub open spec fn wrap_segment(current: Seq<char>, max: nat) -> Seq<Seq<char>>
    decreases current.len(),
{
    if max == 0 || current.len() <= max {
        seq![current]
    } else {
        let cut = match last_ws_before(current, max as int) {
            Some(i) => i,
            None => max as int,
        };
        let head = trim_end(current.subrange(0, cut));
        let tail = trim_start(current.subrange(cut, current.len() as int));
        if tail.len() < current.len() {
            seq![head] + wrap_segment(tail, max)
        } else {
            seq![head, tail]
        }
    }
}

/// The wrapped lines of one input line; an empty line stays one empty line.
pub open spec fn wrap_raw_line(raw: Seq<char>, max: nat) -> Seq<Seq<char>> {
    if raw.len() == 0 {
        seq![Seq::empty()]
    } else {
        wrap_segment(trim_end(raw), max)
    }
}

/// The wrapped lines of the `\n`-separated lines of `s`.
pub open spec fn wrap_from(s: Seq<char>, max: nat) -> Seq<Seq<char>>
    decreases s.len(),
{
    match index_of_char(s, '\n') {
        None => wrap_raw_line(s, max),
        Some(i) => if 0 <= i < s.len() {
            wrap_raw_line(s.subrange(0, i), max) + wrap_from(s.subrange(i + 1, s.len() as int), max)
        } else {
            Seq::empty()
        },
    }
}

/// `text` wrapped at `max_cols` characters per line; unchanged when `max_cols` is 0.
pub open spec fn wrapped(text: Seq<char>, max: nat) -> Seq<Seq<char>> {
    if max == 0 {
        seq![text]
    } else {
        wrap_from(text, max)
    }
}

/// The character sequences of a list of strings.
pub open spec fn string_views(v: Seq<String>) -> Seq<Seq<char>> {
    v.map_values(|s: String| s@)
}

proof fn lemma_trim_start_shorter(s: Seq<char>)
    ensures
        trim_start(s).len() <= s.len(),
        s.len() > 0 && is_ws(s[0]) ==> trim_start(s).len() < s.len(),
    decreases s.len(),
{
    if s.len() > 0 && is_ws(s[0]) {
        lemma_trim_start_shorter(s.drop_first());
    }
}

proof fn lemma_index_of_char_bound(s: Seq<char>, c: char)
    ensures
        index_of_char(s, c) matches Some(i) ==> 0 <= i < s.len() && s[i] == c,
    decreases s.len(),
{
    if s.len() > 0 {
        lemma_index_of_char_bound(s.drop_last(), c);
    }
}

proof fn lemma_last_ws_before(s: Seq<char>, n: int)
    requires
        0 <= n <= s.len(),
    ensures
        last_ws_before(s, n) matches Some(i) ==> 0 <= i < n && is_ws(s[i]),
    decreases n,
{
    if n > 0 && !is_ws(s[n - 1]) {
        lemma_last_ws_before(s, n - 1);
    }
}

/// Appends the wrapped lines of one input line.
fn wrap_line_into(raw: &[char], max_cols: usize, out: &mut Vec<String>)
    requires
        max_cols > 0,
    ensures
        string_views(final(out)@) == string_views(old(out)@) + wrap_raw_line(raw@, max_cols as nat),
{
    let ghost start = string_views(out@);
    if raw.len() == 0 {
        out.push(String::new());
        proof {
            assert(string_views(out@) =~= start + wrap_raw_line(raw@, max_cols as nat));
        }
        return;
    }
    let mut current = trim_end_chars(raw);
    while current.len() > max_cols
        invariant
            max_cols > 0,
            string_views(out@) + wrap_segment(current@, max_cols as nat) == start + wrap_raw_line(raw@, max_cols as nat),
        decreases current@.len(),
    {
        let mut cut_ws: Option<usize> = None;
        let mut idx: usize = 0;
        while idx < max_cols
            invariant
                idx <= max_cols < current@.len(),
                match cut_ws {
                    Some(i) => last_ws_before(current@, idx as int) == Some(i as int),
                    None => last_ws_before(current@, idx as int) is None,
                },
            decreases max_cols - idx,
        {
            if is_ws_char(current[idx]) {
                cut_ws = Some(idx);
            }
            idx = idx + 1;
        }
        proof {
            lemma_last_ws_before(current@, max_cols as int);
        }
        let cut = match cut_ws {
            Some(i) => i,
            None => max_cols,
        };
        let head_raw = sub_chars(current.as_slice(), 0, cut);
        let head = trim_end_chars(head_raw.as_slice());
        let tail_raw = sub_chars(current.as_slice(), cut, current.len());
        let tail = trim_start_chars(tail_raw.as_slice());
        proof {
            lemma_trim_start_shorter(tail_raw@);
            if cut == 0 {
                assert(tail_raw@ =~= current@);
            }
        }
        let ghost before = string_views(out@);
        out.push(string_from_chars(head.as_slice()));
        proof {
            assert(string_views(out@) =~= before.push(head@));
            assert(wrap_segment(current@, max_cols as nat) =~= seq![head@] + wrap_segment(tail@, max_cols as nat));
            assert(string_views(out@) + wrap_segment(tail@, max_cols as nat) =~= before + wrap_segment(
                current@,
                max_cols as nat,
            ));
        }
        current = tail;
    }
    let ghost before = string_views(out@);
    out.push(string_from_chars(current.as_slice()));
    proof {
        assert(string_views(out@) =~= before + wrap_segment(current@, max_cols as nat));
    }
}

/// The text wrapped at `max_cols` characters per line, keeping its line breaks; see
/// [`wrapped`].
pub fn wrap_text(text: &str, max_cols: usize) -> (r: Vec<String>)
    ensures
        string_views(r@) == wrapped(text@, max_cols as nat),
{
    let mut out: Vec<String> = Vec::new();
    if max_cols == 0 {
        let t = chars_of(text);
        out.push(string_from_chars(t.as_slice()));
        proof {
            assert(string_views(out@) =~= seq![text@]);
        }
        return out;
    }
    let mut rest = chars_of(text);
    proof {
        assert(string_views(out@) =~= Seq::<Seq<char>>::empty());
    }
    loop
        invariant
            max_cols > 0,
            string_views(out@) + wrap_from(rest@, max_cols as nat) == wrap_from(text@, max_cols as nat),
        decreases rest@.len(),
    {
        proof {
            lemma_index_of_char_bound(rest@, '\n');
        }
        let rest_len = rest.len();
        match find_char(rest.as_slice(), '\n') {
            None => {
                wrap_line_into(rest.as_slice(), max_cols, &mut out);
                return out;
            },
            Some(i) => {
                let line = sub_chars(rest.as_slice(), 0, i);
                let ghost before = string_views(out@);
                wrap_line_into(line.as_slice(), max_cols, &mut out);
                let next = sub_chars(rest.as_slice(), i + 1, rest.len());
                proof {
                    assert(string_views(out@) + wrap_from(next@, max_cols as nat) =~= before + wrap_from(
                        rest@,
                        max_cols as nat,
                    ));
                }
                rest = next;
            },
        }
    }
}

/// The first line of a card: `ID: Type` or, with a subtype, `ID: Type (Subtype)`.
pub open spec fn card_title(card: Card) -> Seq<char> {
    let t = match card.card_subtype {
        Some(st) => if trim(st@).len() > 0 {
            card.card_type@ + " ("@ + st@ + ")"@
        } else {
            card.card_type@
        },
        None => card.card_type@,
    };
    card.id@ + ": "@ + t
}

/// Measures a card: its wrapped title, then its wrapped name (the bold line), an empty line,
/// and its wrapped description, in a 720 by 450 pixel block.
pub fn measure_node(card: &Card, config: &SvgConfig) -> (g: NodeGeom)
    ensures
        string_views(g.lines@) == wrapped(card_title(*card), 65) + wrapped(card.name@, 65) + seq![Seq::<char>::empty()]
            + wrapped(card.description@, 60),
        g.bold_line_index == Some(wrapped(card_title(*card), 65).len() as usize),
        g.description_start_index == wrapped(card_title(*card), 65).len() + wrapped(card.name@, 65).len() + 1,
        g.width_px == 720,
        g.height_px == 450,
{
    let mut title = chars_of(card.card_type.as_str());
    match &card.card_subtype {
        Some(subtype) => {
            let st = chars_of(subtype.as_str());
            let trimmed = trim_chars(st.as_slice());
            if trimmed.len() > 0 {
                push_str(&mut title, " (");
                push_str(&mut title, subtype.as_str());
                push_str(&mut title, ")");
            }
        },
        None => {},
    }
    let mut full = chars_of(card.id.as_str());
    push_str(&mut full, ": ");
    push_chars(&mut full, title.as_slice());
    let full_text = string_from_chars(full.as_slice());
    let mut lines = wrap_text(full_text.as_str(), WRAP_COLS);
    let bold_line_index = lines.len();
    let mut name_lines = wrap_text(card.name.as_str(), WRAP_COLS);
    let ghost l1 = lines@;
    let ghost l2 = name_lines@;
    lines.append(&mut name_lines);
    lines.push(String::new());
    let description_start_index = lines.len();
    let mut description_lines = wrap_text(card.description.as_str(), DESCRIPTION_WRAP_COLS);
    let ghost l3 = lines@;
    let ghost l4 = description_lines@;
    lines.append(&mut description_lines);
    proof {
        assert(string_views(lines@) =~= string_views(l1) + string_views(l2) + seq![Seq::<char>::empty()] + string_views(l4));
        assert(string_views(l1).len() == l1.len());
    }
    NodeGeom {
        width_px: 720,
        height_px: 450,
        lines,
        bold_line_index: Some(bold_line_index),
        description_start_index,
    }
}

/// The font size of line `index`: 24px for the first line, 28px for the second, 16px for the
/// description, and the configured base size otherwise.
pub open spec fn font_size_of(index: int, description_start: int, base: i32) -> i32 {
    if index == 1 {
        28
    } else if index < 2 {
        24
    } else if index >= description_start {
        16
    } else {
        base
    }
}

/// The font size of a line of the node; see [`font_size_of`].
pub fn line_font_size_px(index: usize, geom: &NodeGeom, config: &SvgConfig) -> (px: i32)
    ensures
        px == font_size_of(index as int, geom.description_start_index as int, config.base_font_size_px),
{
    if index == 1 {
        28
    } else if index < 2 {
        24
    } else if index >= geom.description_start_index {
        16
    } else {
        config.base_font_size_px
    }
}

/// A copy of a list of strings.
fn copy_strings(v: &Vec<String>) -> (r: Vec<String>)
    ensures
        r@ == v@,
{
    let mut out: Vec<String> = Vec::new();
    let mut k: usize = 0;
    while k < v.len()
        invariant
            k <= v@.len(),
            out@ == v@.take(k as int),
        decreases v@.len() - k,
    {
        out.push(v[k].clone());
        proof {
            assert(v@.take(k + 1) =~= v@.take(k as int).push(v@[k as int]));
        }
        k = k + 1;
    }
    proof {
        assert(v@.take(v@.len() as int) =~= v@);
    }
    out
}

/// Two measured text blocks agree.
pub open spec fn same_geom(a: NodeGeom, b: NodeGeom) -> bool {
    &&& a.width_px == b.width_px
    &&& a.height_px == b.height_px
    &&& a.lines@ == b.lines@
    &&& a.bold_line_index == b.bold_line_index
    &&& a.description_start_index == b.description_start_index
}

/// A copy of a node's measured text.
pub fn copy_geom(g: &NodeGeom) -> (r: NodeGeom)
    ensures
        same_geom(r, *g),
{
    NodeGeom {
        width_px: g.width_px,
        height_px: g.height_px,
        lines: copy_strings(&g.lines),
        bold_line_index: g.bold_line_index,
        description_start_index: g.description_start_index,
    }
}

/// A node placed at its grid cell: columns 1080px apart, rows 810px apart.
pub open spec fn placed(n: NodeLayout, p: PositionedNode) -> bool {
    &&& p.bbox == RectI { x: (n.x * 1080) as i32, y: (n.y * 810) as i32, w: n.geom.width_px, h: n.geom.height_px }
    &&& p.width_px == n.geom.width_px
    &&& p.height_px == n.geom.height_px
    &&& same_geom(p.geom, n.geom)
}

/// Places every node at its grid cell, keyed by node id; see [`placed`].
pub fn position_nodes(node_layouts: &Vec<NodeLayout>, config: &SvgConfig) -> (r: Vec<(String, PositionedNode)>)
    requires
        forall|k: int|
            0 <= k < node_layouts@.len() ==> i32::MIN <= (#[trigger] node_layouts@[k]).x * 1080 <= i32::MAX
                && i32::MIN <= node_layouts@[k].y * 810 <= i32::MAX,
    ensures
        r@.len() == node_layouts@.len(),
        forall|k: int|
            0 <= k < r@.len() ==> (#[trigger] r@[k]).0@ == node_layouts@[k].id@ && placed(node_layouts@[k], r@[k].1),
{
    let mut out: Vec<(String, PositionedNode)> = Vec::new();
    let mut k: usize = 0;
    while k < node_layouts.len()
        invariant
            k <= node_layouts@.len(),
            forall|m: int|
                0 <= m < node_layouts@.len() ==> i32::MIN <= (#[trigger] node_layouts@[m]).x * 1080 <= i32::MAX
                    && i32::MIN <= node_layouts@[m].y * 810 <= i32::MAX,
            out@.len() == k,
            forall|m: int|
                0 <= m < k ==> (#[trigger] out@[m]).0@ == node_layouts@[m].id@ && placed(node_layouts@[m], out@[m].1),
        decreases node_layouts@.len() - k,
    {
        let n = &node_layouts[k];
        let px = n.x * COLUMN_PITCH_PX;
        let py = n.y * ROW_PITCH_PX;
        let node = PositionedNode {
            bbox: RectI { x: px, y: py, w: n.geom.width_px, h: n.geom.height_px },
            width_px: n.geom.width_px,
            height_px: n.geom.height_px,
            geom: copy_geom(&n.geom),
        };
        out.push((n.id.clone(), node));
        k = k + 1;
    }
    out
}

/// The placed node with the given id (the last one, as a map insert keeps the last).
pub fn find_positioned<'a>(positioned: &'a Vec<(String, PositionedNode)>, id: &str) -> (r: Option<&'a PositionedNode>)
    ensures
        match r {
            Some(p) => exists|k: int|
                0 <= k < positioned@.len() && (#[trigger] positioned@[k]).0@ == id@ && positioned@[k].1 == *p
                    && forall|m: int| k < m < positioned@.len() ==> (#[trigger] positioned@[m]).0@ != id@,
            None => forall|k: int| 0 <= k < positioned@.len() ==> (#[trigger] positioned@[k]).0@ != id@,
        },
{
    let mut k: usize = positioned.len();
    while k > 0
        invariant
            k <= positioned@.len(),
            forall|m: int| k <= m < positioned@.len() ==> (#[trigger] positioned@[m]).0@ != id@,
        decreases k,
    {
        if crate::layout::ids::str_eq(positioned[k - 1].0.as_str(), id) {
            return Some(&positioned[k - 1].1);
        }
        k = k - 1;
    }
    None
}

} // verus!
