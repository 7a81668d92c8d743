//! SVG document assembly: configuration, view boxes, template filling, and pruning of
//! unused definitions.
use vstd::prelude::*;

use crate::render::errors::RenderError;
use crate::render::geom::RectI;
use crate::text::{
    chars_of, contains_exec, contains_seq, find_from, find_from_exec, int_text, nat_digits,
    push_chars, push_int, push_nat, push_str, replace_all, replace_all_exec, rfind, rfind_exec,
    string_from_chars, sub_chars, digit_char, digit_exec,
};

verus! {

/// Renders an Aurora model graph as SVG.
#[derive(Debug, Default, Clone, Copy)]
pub struct Svg;

/// Styling choices for edge rendering.
#[derive(Debug, Clone, Copy, PartialEq, Eq, Structural)]
pub enum EdgeStyle {
    /// Orthogonal polyline routing (right angles).
    Orthogonal,
    /// Smooth cubic Bezier edges built from the routed polyline.
    Curved,
}

/// Rendering configuration for SVG output.
#[derive(Debug, Clone, PartialEq, Eq, Structural)]
pub struct SvgConfig {
    /// Minimum space between nodes (both horizontally and vertically) in pixels.
    pub node_spacing_px: i32,
    /// Base font size in pixels.
    pub base_font_size_px: i32,
    /// How edges should be drawn.
    pub edge_style: EdgeStyle,
}

impl Default for SvgConfig {
    /// A 16px base font, 392px node spacing and orthogonal edges.
    fn default() -> (c: Self)
        ensures
            c == (SvgConfig { node_spacing_px: 392, base_font_size_px: 16, edge_style: EdgeStyle::Orthogonal }),
    {
        SvgConfig { node_spacing_px: 392, base_font_size_px: 16, edge_style: EdgeStyle::Orthogonal }
    }
}

/// Which side of a bundle of edges is merged into one trunk.
#[derive(Debug, Clone, Copy, PartialEq, Eq, Structural)]
pub enum EdgeMergeMode {
    Source,
    Target,
    Neither,
}

/// Merges the side with more edges (the target side on a tie); nothing when both sides have
/// at most one edge.
pub fn edge_merge_mode(source_total: usize, target_total: usize) -> (m: EdgeMergeMode)
    ensures
        m == (if source_total <= 1 && target_total <= 1 {
            EdgeMergeMode::Neither
        } else if target_total >= source_total {
            EdgeMergeMode::Target
        } else {
            EdgeMergeMode::Source
        }),
{
    if source_total <= 1 && target_total <= 1 {
        return EdgeMergeMode::Neither;
    }
    if source_total > 1 && target_total <= 1 {
        return EdgeMergeMode::Source;
    }
    if target_total > 1 && source_total <= 1 {
        return EdgeMergeMode::Target;
    }
    if target_total >= source_total {
        EdgeMergeMode::Target
    } else {
        EdgeMergeMode::Source
    }
}

/// Moves a view box with a negative origin to the origin; returns the shifts applied.
pub fn normalize_viewbox_origin(viewbox: RectI) -> (r: (RectI, i32, i32))
    requires
        viewbox.x > i32::MIN,
        viewbox.y > i32::MIN,
    ensures
        r.1 == (if viewbox.x < 0 { -(viewbox.x as int) } else { 0int }),
        r.2 == (if viewbox.y < 0 { -(viewbox.y as int) } else { 0int }),
        r.0.x == viewbox.x + r.1,
        r.0.y == viewbox.y + r.2,
        r.0.w == viewbox.w,
        r.0.h == viewbox.h,
{
    let shift_x = if -viewbox.x > 0 { -viewbox.x } else { 0 };
    let shift_y = if -viewbox.y > 0 { -viewbox.y } else { 0 };
    (RectI { x: viewbox.x + shift_x, y: viewbox.y + shift_y, w: viewbox.w, h: viewbox.h }, shift_x, shift_y)
}

/// The rectangle grown by `pad` (at least 0) on every side.
pub fn grow_rect(r: RectI, pad: i32) -> (g: RectI)
    requires
        r.x - (if pad > 0 { pad as int } else { 0 }) >= i32::MIN,
        r.y - (if pad > 0 { pad as int } else { 0 }) >= i32::MIN,
        r.w + 2 * (if pad > 0 { pad as int } else { 0 }) <= i32::MAX,
        r.h + 2 * (if pad > 0 { pad as int } else { 0 }) <= i32::MAX,
        2 * (pad as int) <= i32::MAX,
    ensures
        ({
            let p = if pad > 0 { pad as int } else { 0 };
            g.x == r.x - p && g.y == r.y - p && g.w == r.w + 2 * p && g.h == r.h + 2 * p
        }),
{
    let p = if pad > 0 { pad } else { 0 };
    RectI { x: r.x - p, y: r.y - p, w: r.w + 2 * p, h: r.h + 2 * p }
}

/// The smaller of two integers.
pub open spec fn min_int(a: int, b: int) -> int {
    if a < b { a } else { b }
}

/// The larger of two integers.
pub open spec fn max_int(a: int, b: int) -> int {
    if a > b { a } else { b }
}

/// The bounding rectangle of two rectangles, at least 1 wide and high.
pub fn union_rect(a: RectI, b: RectI) -> (u: RectI)
    requires
        i32::MIN <= a.x + a.w <= i32::MAX,
        i32::MIN <= b.x + b.w <= i32::MAX,
        i32::MIN <= a.y + a.h <= i32::MAX,
        i32::MIN <= b.y + b.h <= i32::MAX,
        i32::MIN <= max_int(a.x + a.w, b.x + b.w) - min_int(a.x as int, b.x as int) <= i32::MAX,
        i32::MIN <= max_int(a.y + a.h, b.y + b.h) - min_int(a.y as int, b.y as int) <= i32::MAX,
    ensures
        u.x == min_int(a.x as int, b.x as int),
        u.y == min_int(a.y as int, b.y as int),
        u.w == max_int(max_int(a.x + a.w, b.x + b.w) - u.x, 1),
        u.h == max_int(max_int(a.y + a.h, b.y + b.h) - u.y, 1),
{
    let min_x = if a.x < b.x { a.x } else { b.x };
    let min_y = if a.y < b.y { a.y } else { b.y };
    let right_a = a.x + a.w;
    let right_b = b.x + b.w;
    let bottom_a = a.y + a.h;
    let bottom_b = b.y + b.h;
    let max_x = if right_a > right_b { right_a } else { right_b };
    let max_y = if bottom_a > bottom_b { bottom_a } else { bottom_b };
    assert(max_x == max_int(a.x + a.w, b.x + b.w));
    assert(max_y == max_int(a.y + a.h, b.y + b.h));
    assert(min_x == min_int(a.x as int, b.x as int));
    assert(min_y == min_int(a.y as int, b.y as int));
    let w = max_x - min_x;
    let h = max_y - min_y;
    RectI { x: min_x, y: min_y, w: if w > 1 { w } else { 1 }, h: if h > 1 { h } else { 1 } }
}

/// Thousandths of an inch, rounded to nearest, of `pixels` (at least 1) at 300 pixels per inch.
pub open spec fn thousandths_of_inch(pixels: int) -> int {
    (20 * max_int(pixels, 1) + 3) / 6
}

/// A length in thousandths as decimal text with trailing zeros (and a bare point) dropped.
pub open spec fn thousandths_text(t: nat) -> Seq<char> {
    let whole = nat_digits(t / 1000);
    let f = (t % 1000) as int;
    if f == 0 {
        whole
    } else if f % 100 == 0 {
        whole + seq!['.', digit_char(f / 100)]
    } else if f % 10 == 0 {
        whole + seq!['.', digit_char(f / 100), digit_char((f / 10) % 10)]
    } else {
        whole + seq!['.', digit_char(f / 100), digit_char((f / 10) % 10), digit_char(f % 10)]
    }
}

/// The SVG `width`/`height` attribute of a pixel length: inches at 300 dpi with three decimals,
/// trailing zeros trimmed, and the unit `in`.
pub fn pixels_to_inches_attr(pixels: i32) -> (s: String)
    ensures
        s@ == inches_text(pixels as int),
{
    let out = inches_chars(pixels);
    string_from_chars(out.as_slice())
}

/// The text of [`pixels_to_inches_attr`].
pub open spec fn inches_text(pixels: int) -> Seq<char> {
    thousandths_text(thousandths_of_inch(pixels) as nat) + "in"@
}

fn inches_chars(pixels: i32) -> (out: Vec<char>)
    ensures
        out@ == inches_text(pixels as int),
{
    let px: i64 = if pixels > 1 { pixels as i64 } else { 1 };
    let t: i64 = (20 * px + 3) / 6;
    let f: i64 = t % 1000;
    let mut out: Vec<char> = Vec::new();
    push_nat(&mut out, (t / 1000) as u64);
    if f != 0 {
        out.push('.');
        out.push(digit_exec((f / 100) as u64));
        if f % 100 != 0 {
            out.push(digit_exec(((f / 10) % 10) as u64));
            if f % 10 != 0 {
                out.push(digit_exec((f % 10) as u64));
            }
        }
    }
    push_str(&mut out, "in");
    proof {
        assert(t == thousandths_of_inch(pixels as int));
    }
    out
}

/// `x` inserted into `s` before index `i`.
pub open spec fn insert_at(s: Seq<char>, i: int, x: Seq<char>) -> Seq<char> {
    s.subrange(0, i) + x + s.subrange(i, s.len() as int)
}

/// The `viewBox` value `"x y w h"`.
pub open spec fn viewbox_text(vb: RectI) -> Seq<char> {
    int_text(vb.x as int) + " "@ + int_text(vb.y as int) + " "@ + int_text(vb.w as int) + " "@ + int_text(
        vb.h as int,
    )
}

/// Sets attribute `attr` of the first `<svg` tag to `value`: replaces the quoted value when the
/// tag has `attr="`, else inserts ` attr="value"` before the tag's `>`. `None` when there is no
/// `<svg` tag with a closing `>`.
pub open spec fn set_svg_attribute(t: Seq<char>, attr: Seq<char>, value: Seq<char>) -> Option<Seq<char>> {
    match find_from(t, "<svg"@, 0) {
        None => None,
        Some(start) => match find_from(t, ">"@, start) {
            None => None,
            Some(end) => {
                let needle = attr + "=\""@;
                let inserted = insert_at(t, end, " "@ + attr + "=\""@ + value + "\""@);
                match find_from(t.subrange(start, end), needle, 0) {
                    Some(i) => {
                        let index = start + i + needle.len();
                        match find_from(t, "\""@, index) {
                            Some(e) => Some(t.subrange(0, index) + value + t.subrange(e, t.len() as int)),
                            None => Some(inserted),
                        }
                    },
                    None => Some(inserted),
                }
            },
        },
    }
}

/// The characters `s[from..to]` followed by `x` and `s[to'..]`.
fn splice(s: &[char], from: usize, to: usize, x: &[char]) -> (r: Vec<char>)
    requires
        from <= to <= s@.len(),
    ensures
        r@ == s@.subrange(0, from as int) + x@ + s@.subrange(to as int, s@.len() as int),
{
    let mut r = sub_chars(s, 0, from);
    push_chars(&mut r, x);
    let tail = sub_chars(s, to, s.len());
    push_chars(&mut r, tail.as_slice());
    r
}

/// Sets an attribute of the template's `<svg` tag; see [`set_svg_attribute`].
fn replace_or_insert_svg_attribute(template: &Vec<char>, attribute: &str, value: &[char]) -> (r: Option<Vec<char>>)
    ensures
        match r {
            Some(v) => set_svg_attribute(template@, attribute@, value@) == Some(v@),
            None => set_svg_attribute(template@, attribute@, value@) is None,
        },
{
    let t = template.as_slice();
    let svg_open = chars_of("<svg");
    let start = match find_from_exec(t, svg_open.as_slice(), 0) {
        Some(i) => i,
        None => {
            return None;
        },
    };
    let gt = chars_of(">");
    let end = match find_from_exec(t, gt.as_slice(), start) {
        Some(j) => j,
        None => {
            return None;
        },
    };
    proof {
        crate::text::lemma_find_from_found(t@, gt@, start as int);
    }
    let mut needle = chars_of(attribute);
    push_str(&mut needle, "=\"");
    let mut insertion = chars_of(" ");
    push_str(&mut insertion, attribute);
    push_str(&mut insertion, "=\"");
    push_chars(&mut insertion, value);
    push_str(&mut insertion, "\"");
    let tag = sub_chars(t, start, end);
    match find_from_exec(tag.as_slice(), needle.as_slice(), 0) {
        Some(i) => {
            proof {
                crate::text::lemma_find_from_found(tag@, needle@, 0);
            }
            let index = start + i + needle.len();
            let quote = chars_of("\"");
            match find_from_exec(t, quote.as_slice(), index) {
                Some(e) => {
                    proof {
                        crate::text::lemma_find_from_found(t@, quote@, index as int);
                    }
                    Some(splice(t, index, e, value))
                },
                None => Some(splice(t, end, end, insertion.as_slice())),
            }
        },
        None => Some(splice(t, end, end, insertion.as_slice())),
    }
}

/// The template filled with the view box and the drawing: `{{viewbox}}` is replaced, the
/// `<svg` tag gets `viewBox`, `width` and `height`, and the drawing replaces `{{diagram}}` or
/// else `{{drawing}}`, or else goes right after `</defs>` or else right before the last `</svg>`.
pub open spec fn filled_template(t: Seq<char>, drawing: Seq<char>, vb: RectI) -> Result<Seq<char>, RenderError> {
    let vbt = viewbox_text(vb);
    let out0 = if contains_seq(t, "{{viewbox}}"@) {
        replace_all(t, "{{viewbox}}"@, vbt)
    } else {
        t
    };
    match set_svg_attribute(out0, "viewBox"@, vbt) {
        None => Err(RenderError::SvgTemplateMissingViewbox),
        Some(out1) => match set_svg_attribute(out1, "width"@, inches_text(vb.w as int)) {
            None => Err(RenderError::SvgTemplateMissingViewbox),
            Some(out2) => match set_svg_attribute(out2, "height"@, inches_text(vb.h as int)) {
                None => Err(RenderError::SvgTemplateMissingViewbox),
                Some(out) => if contains_seq(out, "{{diagram}}"@) {
                    Ok(replace_all(out, "{{diagram}}"@, drawing))
                } else if contains_seq(out, "{{drawing}}"@) {
                    Ok(replace_all(out, "{{drawing}}"@, drawing))
                } else {
                    match find_from(out, "</defs>"@, 0) {
                        Some(d) => Ok(insert_at(out, d + 7, drawing)),
                        None => match rfind(out, "</svg>"@) {
                            Some(e) => Ok(insert_at(out, e, drawing)),
                            None => Err(RenderError::SvgTemplateMissingDiagram),
                        },
                    }
                },
            },
        },
    }
}

/// Fills an SVG template; see [`filled_template`].
pub fn fill_template(template: &str, drawing: &str, viewbox: &RectI) -> (r: Result<String, RenderError>)
    ensures
        match r {
            Ok(s) => filled_template(template@, drawing@, *viewbox) == Ok::<Seq<char>, RenderError>(s@),
            Err(e) => filled_template(template@, drawing@, *viewbox) == Err::<Seq<char>, RenderError>(e),
        },
{
    let mut vbt: Vec<char> = Vec::new();
    push_int(&mut vbt, viewbox.x as i64);
    push_str(&mut vbt, " ");
    push_int(&mut vbt, viewbox.y as i64);
    push_str(&mut vbt, " ");
    push_int(&mut vbt, viewbox.w as i64);
    push_str(&mut vbt, " ");
    push_int(&mut vbt, viewbox.h as i64);
    let width = inches_chars(viewbox.w);
    let height = inches_chars(viewbox.h);
    let t = chars_of(template);
    let d = chars_of(drawing);
    let vb_marker = chars_of("{{viewbox}}");
    proof {
        reveal_strlit("{{viewbox}}");
    }
    let out0 = if contains_exec(t.as_slice(), vb_marker.as_slice()) {
        replace_all_exec(t.as_slice(), vb_marker.as_slice(), vbt.as_slice())
    } else {
        t
    };
    let out1 = match replace_or_insert_svg_attribute(&out0, "viewBox", vbt.as_slice()) {
        Some(o) => o,
        None => {
            return Err(RenderError::SvgTemplateMissingViewbox);
        },
    };
    let out2 = match replace_or_insert_svg_attribute(&out1, "width", width.as_slice()) {
        Some(o) => o,
        None => {
            return Err(RenderError::SvgTemplateMissingViewbox);
        },
    };
    let out = match replace_or_insert_svg_attribute(&out2, "height", height.as_slice()) {
        Some(o) => o,
        None => {
            return Err(RenderError::SvgTemplateMissingViewbox);
        },
    };
    let diagram = chars_of("{{diagram}}");
    proof {
        reveal_strlit("{{diagram}}");
    }
    if contains_exec(out.as_slice(), diagram.as_slice()) {
        let filled = replace_all_exec(out.as_slice(), diagram.as_slice(), d.as_slice());
        return Ok(string_from_chars(filled.as_slice()));
    }
    let drawing_marker = chars_of("{{drawing}}");
    proof {
        reveal_strlit("{{drawing}}");
    }
    if contains_exec(out.as_slice(), drawing_marker.as_slice()) {
        let filled = replace_all_exec(out.as_slice(), drawing_marker.as_slice(), d.as_slice());
        return Ok(string_from_chars(filled.as_slice()));
    }
    let defs_close = chars_of("</defs>");
    let out_len = out.len();
    match find_from_exec(out.as_slice(), defs_close.as_slice(), 0) {
        Some(i) => {
            proof {
                reveal_strlit("</defs>");
                assert(defs_close@.len() == 7);
                crate::text::lemma_find_from_found(out@, defs_close@, 0);
                assert(i + 7 <= out_len);
            }
            let filled = splice(out.as_slice(), i + 7, i + 7, d.as_slice());
            return Ok(string_from_chars(filled.as_slice()));
        },
        None => {},
    }
    let svg_close = chars_of("</svg>");
    match rfind_exec(out.as_slice(), svg_close.as_slice()) {
        Some(e) => {
            proof {
                crate::text::lemma_rfind_upto(out@, svg_close@, out@.len() - svg_close@.len());
            }
            let filled = splice(out.as_slice(), e, e, d.as_slice());
            Ok(string_from_chars(filled.as_slice()))
        },
        None => Err(RenderError::SvgTemplateMissingDiagram),
    }
}

} // verus!
