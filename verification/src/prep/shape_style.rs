//! The inline style that a shape group keeps: its fill, stroke and dash settings, without the
//! defaults that the shape template supplies.
use vstd::prelude::*;

use crate::layout::plain::char_views;
use crate::prep::style::{split_on, split_pieces, vviews};
use crate::text::{
    ascii_lower, chars_eq, chars_of, eq_ignore_ascii_case, find_char, index_of_char, push_chars, push_str, string_from_chars,
    sub_chars, trim, trim_chars, ascii_lower_chars,
};

verus! {

/// What the declarations read so far keep: fill, whether a zero fill opacity is kept, whether a
/// zero stroke opacity is kept, stroke, dash array.
pub type ShapeStyle = (Option<Seq<char>>, bool, bool, Option<Seq<char>>, Option<Seq<char>>);

/// `a` and `b` are equal up to ASCII letter case.
pub open spec fn same_ignoring_case(a: Seq<char>, b: Seq<char>) -> bool {
    ascii_lower(a) == ascii_lower(b)
}

/// A fill of plain black, `#000000` or `000000`.
pub open spec fn is_black_six(v: Seq<char>) -> bool {
    let t = trim(v);
    let h = if t.len() > 0 && t[0] == '#' { t.skip(1) } else { t };
    same_ignoring_case(h, "000000"@)
}

/// The effect of one declaration (a piece of the style between `;`).
pub open spec fn style_step(s: ShapeStyle, raw: Seq<char>) -> ShapeStyle {
    let d = trim(raw);
    match index_of_char(d, ':') {
        None => s,
        Some(i) => {
            let p = ascii_lower(trim(d.take(i)));
            let v = trim(d.skip(i + 1));
            if p == "fill-opacity"@ && v == "0"@ {
                (s.0, true, s.2, s.3, s.4)
            } else if p == "fill"@ {
                if same_ignoring_case(v, "#00000000"@) {
                    (s.0, true, s.2, s.3, s.4)
                } else if same_ignoring_case(v, "none"@) || is_black_six(v) {
                    (None, s.1, s.2, s.3, s.4)
                } else if v.len() > 0 {
                    (Some(v), s.1, s.2, s.3, s.4)
                } else {
                    s
                }
            } else if p == "stroke-opacity"@ && v == "0"@ {
                (s.0, s.1, true, s.3, s.4)
            } else if p == "stroke-dasharray"@ {
                if v.len() > 0 && !same_ignoring_case(v, "none"@) {
                    (s.0, s.1, s.2, s.3, Some(v))
                } else {
                    s
                }
            } else if p == "stroke"@ {
                if same_ignoring_case(v, "#000000"@) {
                    (s.0, s.1, s.2, None, s.4)
                } else if v.len() > 0 {
                    (s.0, s.1, s.2, Some(v), s.4)
                } else {
                    s
                }
            } else {
                s
            }
        },
    }
}

/// The settings after reading the first `k` declarations.
pub open spec fn style_after(pieces: Seq<Seq<char>>, k: int) -> ShapeStyle
    decreases k,
{
    if k <= 0 {
        (None, false, false, None, None)
    } else {
        style_step(style_after(pieces, k - 1), pieces[k - 1])
    }
}

/// The kept settings as `name:value` parts, in a fixed order.
pub open spec fn style_parts(s: ShapeStyle) -> Seq<Seq<char>> {
    (match s.0 { Some(v) => seq!["fill:"@ + v], None => Seq::empty() }) + (if s.1 {
        seq!["fill-opacity:0"@]
    } else {
        Seq::empty()
    }) + (if s.2 { seq!["stroke-opacity:0"@] } else { Seq::empty() }) + (match s.3 {
        Some(v) => seq!["stroke:"@ + v],
        None => Seq::empty(),
    }) + (match s.4 {
        Some(v) => seq!["stroke-dasharray:"@ + v],
        None => Seq::empty(),
    })
}

/// Each part followed by `;`.
#[verifier::opaque]
pub open spec fn terminated(parts: Seq<Seq<char>>) -> Seq<char>
    decreases parts.len(),
{
    if parts.len() == 0 {
        Seq::empty()
    } else {
        terminated(parts.drop_last()) + parts.last() + seq![';']
    }
}

proof fn lemma_terminated_push(parts: Seq<Seq<char>>, x: Seq<char>)
    ensures
        terminated(parts.push(x)) == terminated(parts) + x + seq![';'],
        terminated(Seq::empty()) == Seq::<char>::empty(),
{
    reveal(terminated);
    assert(parts.push(x).drop_last() =~= parts);
}

/// The inline style a shape group keeps, if any.
pub open spec fn kept_style(style: Seq<char>) -> Option<Seq<char>> {
    let pieces = split_pieces(style, ';');
    let parts = style_parts(style_after(pieces, pieces.len() as int));
    if parts.len() == 0 { None } else { Some(terminated(parts)) }
}

fn text_is(v: &Vec<char>, text: &str) -> (r: bool)
    ensures
        r == (v@ == text@),
{
    let t = chars_of(text);
    chars_eq(v.as_slice(), t.as_slice())
}

fn same_case_insensitive(v: &Vec<char>, text: &str) -> (r: bool)
    ensures
        r == same_ignoring_case(v@, text@),
{
    let t = chars_of(text);
    eq_ignore_ascii_case(v.as_slice(), t.as_slice())
}

fn black_six(v: &Vec<char>) -> (r: bool)
    ensures
        r == is_black_six(v@),
{
    let t = trim_chars(v.as_slice());
    let h = if t.len() > 0 && t[0] == '#' {
        let h = sub_chars(t.as_slice(), 1, t.len());
        assert(h@ =~= t@.skip(1));
        h
    } else {
        t
    };
    same_case_insensitive(&h, "000000")
}

/// The effect of one declaration on the settings held in the exec state.
fn apply_decl(
    raw: &[char],
    fill: &mut Option<Vec<char>>,
    fill_zero: &mut bool,
    stroke_zero: &mut bool,
    stroke: &mut Option<Vec<char>>,
    dash: &mut Option<Vec<char>>,
)
    ensures
        ({
            let before = (
                match *old(fill) { Some(x) => Some(x@), None => None },
                *old(fill_zero),
                *old(stroke_zero),
                match *old(stroke) { Some(x) => Some(x@), None => None },
                match *old(dash) { Some(x) => Some(x@), None => None },
            );
            let after = (
                match *final(fill) { Some(x) => Some(x@), None => None },
                *final(fill_zero),
                *final(stroke_zero),
                match *final(stroke) { Some(x) => Some(x@), None => None },
                match *final(dash) { Some(x) => Some(x@), None => None },
            );
            after == style_step(before, raw@)
        }),
{
    let d = trim_chars(raw);
    let i = match find_char(d.as_slice(), ':') {
        Some(i) => i,
        None => {
            return;
        },
    };
    let head = sub_chars(d.as_slice(), 0, i);
    assert(head@ =~= d@.take(i as int));
    let tail = sub_chars(d.as_slice(), i + 1, d.len());
    assert(tail@ =~= d@.skip(i + 1));
    let head_trimmed = trim_chars(head.as_slice());
    let p = ascii_lower_chars(head_trimmed.as_slice());
    let v = trim_chars(tail.as_slice());
    if text_is(&p, "fill-opacity") && text_is(&v, "0") {
        *fill_zero = true;
    } else if text_is(&p, "fill") {
        if same_case_insensitive(&v, "#00000000") {
            *fill_zero = true;
        } else if same_case_insensitive(&v, "none") || black_six(&v) {
            *fill = None;
        } else if v.len() > 0 {
            *fill = Some(v);
        }
    } else if text_is(&p, "stroke-opacity") && text_is(&v, "0") {
        *stroke_zero = true;
    } else if text_is(&p, "stroke-dasharray") {
        if v.len() > 0 && !same_case_insensitive(&v, "none") {
            *dash = Some(v);
        }
    } else if text_is(&p, "stroke") {
        if same_case_insensitive(&v, "#000000") {
            *stroke = None;
        } else if v.len() > 0 {
            *stroke = Some(v);
        }
    }
}

/// The inline style a shape group keeps; see [`kept_style`].
pub fn retained_inline_style(style: &str) -> (r: Option<String>)
    ensures
        match kept_style(style@) {
            Some(t) => r matches Some(x) && x@ == t,
            None => r is None,
        },
{
    let chars = chars_of(style);
    let pieces = split_on(chars.as_slice(), ';');
    let ghost pv = vviews(pieces@);
    let mut fill: Option<Vec<char>> = None;
    let mut fill_zero = false;
    let mut stroke_zero = false;
    let mut stroke: Option<Vec<char>> = None;
    let mut dash: Option<Vec<char>> = None;
    let mut k: usize = 0;
    while k < pieces.len()
        invariant
            k <= pieces.len(),
            pv == vviews(pieces@),
            (
                match fill { Some(x) => Some(x@), None => None },
                fill_zero,
                stroke_zero,
                match stroke { Some(x) => Some(x@), None => None },
                match dash { Some(x) => Some(x@), None => None },
            ) == style_after(pv, k as int),
        decreases pieces.len() - k,
    {
        assert(pv[k as int] == pieces@[k as int]@);
        apply_decl(pieces[k].as_slice(), &mut fill, &mut fill_zero, &mut stroke_zero, &mut stroke, &mut dash);
        k = k + 1;
    }
    let ghost st = style_after(pv, pv.len() as int);
    let (out, count) = style_text(&fill, fill_zero, stroke_zero, &stroke, &dash);
    if count == 0 {
        None
    } else {
        Some(string_from_chars(out.as_slice()))
    }
}

fn push_part(out: &mut Vec<char>, head: &str, value: &[char])
    ensures
        final(out)@ == old(out)@ + (head@ + value@) + seq![';'],
{
    push_str(out, head);
    push_chars(out, value);
    out.push(';');
    assert(final(out)@ =~= old(out)@ + (head@ + value@) + seq![';']);
}

fn push_flag(out: &mut Vec<char>, text: &str)
    ensures
        final(out)@ == old(out)@ + text@ + seq![';'],
{
    push_str(out, text);
    out.push(';');
}

#[verifier::rlimit(40)]
fn style_text(
    fill: &Option<Vec<char>>,
    fill_zero: bool,
    stroke_zero: bool,
    stroke: &Option<Vec<char>>,
    dash: &Option<Vec<char>>,
) -> (r: (Vec<char>, usize))
    ensures
        ({
            let parts = style_parts(
                (
                    match *fill { Some(x) => Some(x@), None => None },
                    fill_zero,
                    stroke_zero,
                    match *stroke { Some(x) => Some(x@), None => None },
                    match *dash { Some(x) => Some(x@), None => None },
                ),
            );
            r.0@ == terminated(parts) && (r.1 == 0 <==> parts.len() == 0)
        }),
{
    let mut out: Vec<char> = Vec::new();
    let mut count: usize = 0;
    let ghost mut done: Seq<Seq<char>> = Seq::empty();
    proof {
        lemma_terminated_push(done, Seq::empty());
    }
    assert(out@ =~= terminated(done));
    if let Some(v) = fill {
        push_part(&mut out, "fill:", v.as_slice());
        count = count + 1;
        proof {
            lemma_terminated_push(done, "fill:"@ + v@);
            done = done.push("fill:"@ + v@);
            assert(out@ =~= terminated(done));
        }
    }
    let ghost d1 = done;
    assert(d1 =~= (match *fill { Some(x) => seq!["fill:"@ + x@], None => Seq::empty() }));
    if fill_zero {
        push_flag(&mut out, "fill-opacity:0");
        count = count + 1;
        proof {
            lemma_terminated_push(done, "fill-opacity:0"@);
            done = done.push("fill-opacity:0"@);
            assert(out@ =~= terminated(done));
        }
    }
    let ghost d2 = done;
    assert(d2 =~= d1 + (if fill_zero { seq!["fill-opacity:0"@] } else { Seq::empty() }));
    if stroke_zero {
        push_flag(&mut out, "stroke-opacity:0");
        count = count + 1;
        proof {
            lemma_terminated_push(done, "stroke-opacity:0"@);
            done = done.push("stroke-opacity:0"@);
            assert(out@ =~= terminated(done));
        }
    }
    let ghost d3 = done;
    assert(d3 =~= d2 + (if stroke_zero { seq!["stroke-opacity:0"@] } else { Seq::empty() }));
    if let Some(v) = stroke {
        push_part(&mut out, "stroke:", v.as_slice());
        count = count + 1;
        proof {
            lemma_terminated_push(done, "stroke:"@ + v@);
            done = done.push("stroke:"@ + v@);
            assert(out@ =~= terminated(done));
        }
    }
    let ghost d4 = done;
    assert(d4 =~= d3 + (match *stroke { Some(x) => seq!["stroke:"@ + x@], None => Seq::empty() }));
    if let Some(v) = dash {
        push_part(&mut out, "stroke-dasharray:", v.as_slice());
        count = count + 1;
        proof {
            lemma_terminated_push(done, "stroke-dasharray:"@ + v@);
            done = done.push("stroke-dasharray:"@ + v@);
            assert(out@ =~= terminated(done));
        }
    }
    assert(done =~= d4 + (match *dash { Some(x) => seq!["stroke-dasharray:"@ + x@], None => Seq::empty() }));
    assert(done.len() == count);
    assert(done =~= style_parts(
        (
            match *fill { Some(x) => Some(x@), None => None },
            fill_zero,
            stroke_zero,
            match *stroke { Some(x) => Some(x@), None => None },
            match *dash { Some(x) => Some(x@), None => None },
        ),
    ));
    (out, count)
}

} // verus!
