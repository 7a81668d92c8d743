//! Labels of the proof sheet: the caption derived from an icon id, and its greedy word wrap.
use vstd::prelude::*;

use crate::text::{chars_of, copy_chars, push_chars, replace_char, replace_char_exec, split_words, string_from_chars, sub_chars, words};

verus! {

/// The caption of an icon: its id without the `i-` prefix, with underscores read as spaces.
pub open spec fn proof_label(icon_id: Seq<char>) -> Seq<char> {
    let base = if icon_id.len() >= 2 && icon_id[0] == 'i' && icon_id[1] == '-' {
        icon_id.skip(2)
    } else {
        icon_id
    };
    replace_char(base, '_', seq![' '])
}

/// The caption shown under an icon on the proof sheet.
pub fn proof_label_for_icon_id(icon_id: &str) -> (r: String)
    ensures
        r@ == proof_label(icon_id@),
{
    let cs = chars_of(icon_id);
    let base = if cs.len() >= 2 && cs[0] == 'i' && cs[1] == '-' {
        let b = sub_chars(&cs, 2, cs.len());
        assert(b@ =~= icon_id@.skip(2));
        b
    } else {
        cs
    };
    let space: Vec<char> = vec![' '];
    assert(space@ =~= seq![' ']);
    let out = replace_char_exec(&base, '_', &space);
    string_from_chars(&out)
}

/// Characters still to be placed: each pending word with one separator.
pub open spec fn pending_chars(rem: Seq<Seq<char>>) -> nat
    decreases rem.len(),
{
    if rem.len() == 0 {
        0
    } else {
        rem[0].len() + 1 + pending_chars(rem.drop_first())
    }
}

pub proof fn lemma_pending_chars_push(rem: Seq<Seq<char>>, w: Seq<char>)
    ensures
        pending_chars(rem.push(w)) == pending_chars(rem) + w.len() + 1,
    decreases rem.len(),
{
    if rem.len() == 0 {
        assert(rem.push(w).drop_first() =~= rem);
    } else {
        assert(rem.push(w).drop_first() =~= rem.drop_first().push(w));
        lemma_pending_chars_push(rem.drop_first(), w);
    }
}

/// The greedy filling of lines of at most `m` characters.
///
/// The state is the finished lines, the line being filled and the words still to place. A word
/// goes on the current line, after one space, while it fits; a word that does not fit on an empty
/// line is cut after `m` characters and its rest is queued after the last word. When a line is
/// finished and `max_lines` lines are done, filling stops with the words left over.
pub open spec fn wrap_fill(
    lines: Seq<Seq<char>>,
    cur: Seq<char>,
    rem: Seq<Seq<char>>,
    m: nat,
    max_lines: nat,
) -> (Seq<Seq<char>>, Seq<char>, Seq<Seq<char>>)
    decreases 2 * pending_chars(rem) + (if cur.len() > 0 { 1nat } else { 0nat }),
{
    if rem.len() == 0 || m == 0 {
        (lines, cur, rem)
    } else {
        let word = rem[0];
        if cur.len() == 0 {
            if word.len() <= m {
                wrap_fill(lines, word, rem.drop_first(), m, max_lines)
            } else {
                proof {
                    lemma_pending_chars_push(rem.drop_first(), word.skip(m as int));
                }
                wrap_fill(lines, word.take(m as int), rem.drop_first().push(word.skip(m as int)), m, max_lines)
            }
        } else if cur.len() + 1 + word.len() <= m {
            wrap_fill(lines, cur + seq![' '] + word, rem.drop_first(), m, max_lines)
        } else if lines.len() + 1 >= max_lines {
            (lines.push(cur), Seq::empty(), rem)
        } else {
            wrap_fill(lines.push(cur), Seq::empty(), rem, m, max_lines)
        }
    }
}

/// The horizontal ellipsis that marks a cut label.
pub open spec fn ellipsis_char() -> char {
    '\u{2026}'
}

/// The last line of a cut label: an ellipsis added, in place of the last character when the
/// line is already full; a line that already ends with one stays as it is.
pub open spec fn mark_cut(line: Seq<char>, m: nat) -> Seq<char> {
    if line.len() > 0 && line.last() == ellipsis_char() {
        line
    } else if line.len() >= m {
        line.take(m - 1).push(ellipsis_char())
    } else {
        line.push(ellipsis_char())
    }
}

/// The lines of `label` wrapped to at most `max_chars` characters (at least one) and at most
/// `max_lines` lines; a label that does not fit ends with an ellipsis.
pub open spec fn wrap_label(label: Seq<char>, max_chars: nat, max_lines: nat) -> Seq<Seq<char>> {
    let m: nat = if max_chars == 0 { 1 } else { max_chars };
    let ws = words(label);
    if max_lines == 0 {
        Seq::empty()
    } else if ws.len() == 0 {
        seq![Seq::empty()]
    } else {
        let (lines, cur, rem) = wrap_fill(Seq::empty(), Seq::empty(), ws, m, max_lines);
        let kept = if cur.len() > 0 && lines.len() < max_lines { lines.push(cur) } else { lines };
        let some = if kept.len() == 0 { seq![Seq::empty()] } else { kept };
        let marked = if rem.len() > 0 {
            some.update(some.len() - 1, mark_cut(some.last(), m))
        } else {
            some
        };
        if marked.len() > max_lines { marked.take(max_lines as int) } else { marked }
    }
}

proof fn lemma_wrap_fill_fits(
    lines: Seq<Seq<char>>,
    cur: Seq<char>,
    rem: Seq<Seq<char>>,
    m: nat,
    max_lines: nat,
)
    requires
        m >= 1,
        cur.len() <= m,
        lines.len() < max_lines,
        forall|i: int| 0 <= i < lines.len() ==> #[trigger] lines[i].len() <= m,
    ensures
        ({
            let (l, c, r) = wrap_fill(lines, cur, rem, m, max_lines);
            &&& c.len() <= m
            &&& l.len() <= max_lines
            &&& (l.len() == max_lines ==> c.len() == 0)
            &&& forall|i: int| 0 <= i < l.len() ==> #[trigger] l[i].len() <= m
        }),
    decreases 2 * pending_chars(rem) + (if cur.len() > 0 { 1nat } else { 0nat }),
{
    if rem.len() == 0 {
    } else {
        let word = rem[0];
        if cur.len() == 0 {
            if word.len() <= m {
                lemma_wrap_fill_fits(lines, word, rem.drop_first(), m, max_lines);
            } else {
                lemma_pending_chars_push(rem.drop_first(), word.skip(m as int));
                lemma_wrap_fill_fits(lines, word.take(m as int), rem.drop_first().push(word.skip(m as int)), m, max_lines);
            }
        } else if cur.len() + 1 + word.len() <= m {
            lemma_wrap_fill_fits(lines, cur + seq![' '] + word, rem.drop_first(), m, max_lines);
        } else if lines.len() + 1 >= max_lines {
            assert forall|i: int| 0 <= i < lines.push(cur).len() implies #[trigger] lines.push(cur)[i].len() <= m by {
                if i < lines.len() {
                    assert(lines.push(cur)[i] == lines[i]);
                }
            }
        } else {
            assert forall|i: int| 0 <= i < lines.push(cur).len() implies #[trigger] lines.push(cur)[i].len() <= m by {
                if i < lines.len() {
                    assert(lines.push(cur)[i] == lines[i]);
                }
            }
            lemma_wrap_fill_fits(lines.push(cur), Seq::empty(), rem, m, max_lines);
        }
    }
}

/// A wrapped label fits its box: at least one and at most `max_lines` lines (none when
/// `max_lines` is zero), each of at most `max_chars` characters (at least one).
pub proof fn lemma_wrap_label_fits(label: Seq<char>, max_chars: nat, max_lines: nat)
    ensures
        wrap_label(label, max_chars, max_lines).len() <= max_lines,
        max_lines > 0 ==> wrap_label(label, max_chars, max_lines).len() >= 1,
        forall|i: int|
            0 <= i < wrap_label(label, max_chars, max_lines).len() ==> #[trigger] wrap_label(
                label,
                max_chars,
                max_lines,
            )[i].len() <= (if max_chars == 0 { 1 } else { max_chars }),
{
    let m: nat = if max_chars == 0 { 1 } else { max_chars };
    let ws = words(label);
    if max_lines > 0 && ws.len() > 0 {
        lemma_wrap_fill_fits(Seq::empty(), Seq::empty(), ws, m, max_lines);
        let (lines, cur, rem) = wrap_fill(Seq::empty(), Seq::empty(), ws, m, max_lines);
        let kept = if cur.len() > 0 && lines.len() < max_lines { lines.push(cur) } else { lines };
        assert forall|i: int| 0 <= i < kept.len() implies #[trigger] kept[i].len() <= m by {
            if i < lines.len() {
                assert(kept[i] == lines[i]);
            }
        }
        let some = if kept.len() == 0 { seq![Seq::<char>::empty()] } else { kept };
        assert forall|i: int| 0 <= i < some.len() implies #[trigger] some[i].len() <= m by {
            if kept.len() > 0 {
                assert(some[i] == kept[i]);
            }
        }
        let marked = if rem.len() > 0 {
            some.update(some.len() - 1, mark_cut(some.last(), m))
        } else {
            some
        };
        assert(mark_cut(some.last(), m).len() <= m);
        assert forall|i: int| 0 <= i < marked.len() implies #[trigger] marked[i].len() <= m by {
            if i < some.len() - 1 || rem.len() == 0 {
                assert(marked[i] == some[i]);
            }
        }
        assert(wrap_label(label, max_chars, max_lines) == marked);
    }
}

/// The character views of a vector of character vectors.
pub open spec fn views(v: Seq<Vec<char>>) -> Seq<Seq<char>> {
    v.map_values(|x: Vec<char>| x@)
}

/// Wraps a proof-sheet label into at most `max_lines` lines of at most `max_chars` characters.
pub fn wrap_proof_label(label: &str, max_chars: usize, max_lines: usize) -> (r: Vec<String>)
    ensures
        r.len() == wrap_label(label@, max_chars as nat, max_lines as nat).len(),
        forall|i: int| 0 <= i < r.len() ==> #[trigger] r[i]@ == wrap_label(label@, max_chars as nat, max_lines as nat)[i],
        r.len() <= max_lines,
        max_lines > 0 ==> r.len() >= 1,
        forall|i: int| 0 <= i < r.len() ==> #[trigger] r[i]@.len() <= (if max_chars == 0 { 1 } else { max_chars }),
{
    proof {
        lemma_wrap_label_fits(label@, max_chars as nat, max_lines as nat);
    }
    if max_lines == 0 {
        return Vec::new();
    }
    let m: usize = if max_chars == 0 { 1 } else { max_chars };
    let chars = chars_of(label);
    let mut rem: Vec<Vec<char>> = split_words(&chars);
    let ghost ws = words(label@);
    assert(views(rem@) =~= ws);
    if rem.len() == 0 {
        let mut single: Vec<String> = Vec::new();
        single.push(String::new());
        return single;
    }
    let ghost target = wrap_fill(Seq::empty(), Seq::empty(), ws, m as nat, max_lines as nat);
    let mut lines: Vec<Vec<char>> = Vec::new();
    let mut cur: Vec<char> = Vec::new();
    assert(views(lines@) =~= Seq::<Seq<char>>::empty());
    assert(cur@ =~= Seq::<char>::empty());
    loop
        invariant_except_break
            lines.len() < max_lines,
            wrap_fill(views(lines@), cur@, views(rem@), m as nat, max_lines as nat) == target,
        invariant
            m >= 1,
            max_lines >= 1,
            lines.len() <= max_lines,
        ensures
            (views(lines@), cur@, views(rem@)) == target,
        decreases 2 * pending_chars(views(rem@)) + (if cur.len() > 0 { 1nat } else { 0nat }),
    {
        if rem.len() == 0 {
            break;
        }
        let ghost before = views(rem@);
        let word = copy_chars(&rem[0]);
        assert(word@ == before[0]);
        let wl = word.len();
        if cur.len() == 0 {
            if wl <= m {
                rem.remove(0);
                assert(views(rem@) =~= before.drop_first());
                cur = word;
            } else {
                let head = sub_chars(&word, 0, m);
                let tail = sub_chars(&word, m, wl);
                assert(head@ =~= before[0].take(m as int));
                assert(tail@ =~= before[0].skip(m as int));
                rem.remove(0);
                rem.push(tail);
                assert(views(rem@) =~= before.drop_first().push(before[0].skip(m as int)));
                proof {
                    lemma_pending_chars_push(before.drop_first(), before[0].skip(m as int));
                }
                cur = head;
            }
        } else if wl < m && cur.len() < m - wl {
            let ghost old_cur = cur@;
            cur.push(' ');
            push_chars(&mut cur, &word);
            assert(cur@ =~= old_cur + seq![' '] + before[0]);
            rem.remove(0);
            assert(views(rem@) =~= before.drop_first());
        } else {
            let ghost old_lines = views(lines@);
            let ghost old_cur = cur@;
            let finished = cur;
            lines.push(finished);
            assert(views(lines@) =~= old_lines.push(old_cur));
            cur = Vec::new();
            assert(cur@ =~= Seq::<char>::empty());
            if lines.len() == max_lines {
                break;
            }
        }
    }
    let ghost filled = views(lines@);
    let ghost rest = views(rem@);
    if cur.len() > 0 && lines.len() < max_lines {
        lines.push(cur);
        assert(views(lines@) =~= filled.push(target.1));
    }
    let ghost kept = views(lines@);
    if lines.len() == 0 {
        lines.push(Vec::new());
        assert(views(lines@) =~= seq![Seq::<char>::empty()]);
    }
    let ghost some = views(lines@);
    if rem.len() > 0 {
        let last = lines.len() - 1;
        let n = lines[last].len();
        let ends_marked = n > 0 && lines[last][n - 1] == '\u{2026}';
        if !ends_marked {
            let marked = if n >= m {
                let mut t = sub_chars(&lines[last], 0, m - 1);
                t.push('\u{2026}');
                t
            } else {
                let mut t = copy_chars(&lines[last]);
                t.push('\u{2026}');
                t
            };
            assert(marked@ =~= mark_cut(some.last(), m as nat));
            lines.set(last, marked);
        }
        assert(views(lines@) =~= some.update(some.len() - 1, mark_cut(some.last(), m as nat)));
    }
    let ghost marked_all = views(lines@);
    if lines.len() > max_lines {
        lines.truncate(max_lines);
        assert(views(lines@) =~= marked_all.take(max_lines as int));
    }
    let ghost result = views(lines@);
    assert(result == wrap_label(label@, max_chars as nat, max_lines as nat));
    let mut out: Vec<String> = Vec::new();
    let mut i: usize = 0;
    while i < lines.len()
        invariant
            i <= lines.len(),
            out.len() == i,
            result == views(lines@),
            forall|k: int| 0 <= k < i ==> #[trigger] out[k]@ == result[k],
        decreases lines.len() - i,
    {
        let s = string_from_chars(&lines[i]);
        out.push(s);
        i = i + 1;
    }
    out
}

} // verus!
