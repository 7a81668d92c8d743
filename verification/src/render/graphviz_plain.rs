//! Graphviz `-Tplain` output read line by line into its graph, node and edge records.
//!
//! Numbers stay in their text form; the caller reads them (inches, as floating point).
use vstd::prelude::*;

use crate::layout::plain::{char_views, count_value, join_space, join_words, parse_count, split_lines, text_lines};
use crate::text::{chars_eq, chars_of, copy_chars, is_ws, is_ws_char, push_chars, push_str, string_from_chars, trim, trim_chars};

verus! {

/// The character a backslash escape stands for inside a quoted token.
pub open spec fn unescaped(c: char) -> char {
    if c == 'n' {
        '\n'
    } else if c == 't' {
        '\t'
    } else if c == 'r' {
        '\r'
    } else {
        c
    }
}

/// Where the tokenizer is within a line: between tokens or in an unquoted token (0), inside
/// quotes (1), right after a backslash inside quotes (2).
pub open spec fn token_state(s: Seq<char>) -> (Seq<Seq<char>>, Seq<char>, int)
    decreases s.len(),
{
    if s.len() == 0 {
        (Seq::empty(), Seq::empty(), 0)
    } else {
        let (toks, cur, mode) = token_state(s.drop_last());
        let c = s.last();
        if mode == 2 {
            (toks, cur.push(unescaped(c)), 1)
        } else if mode == 1 {
            if c == '\\' {
                (toks, cur, 2)
            } else if c == '"' {
                (toks.push(cur), Seq::empty(), 0)
            } else {
                (toks, cur.push(c), 1)
            }
        } else if c == '"' {
            (toks, cur, 1)
        } else if is_ws(c) {
            if cur.len() > 0 {
                (toks.push(cur), Seq::empty(), 0)
            } else {
                (toks, cur, 0)
            }
        } else {
            (toks, cur.push(c), 0)
        }
    }
}

/// Why a line does not split into tokens.
#[derive(Debug, Clone, Copy, PartialEq, Eq, Structural)]
pub enum TokenFault {
    /// A backslash ends the line inside quotes.
    BadEscape,
    /// A quote is not closed.
    Unterminated,
}

/// The tokens of a line of plain output: whitespace-separated words, where a double-quoted part
/// (with backslash escapes) may hold whitespace and is a token of its own when it closes.
pub open spec fn line_tokens(s: Seq<char>) -> Result<Seq<Seq<char>>, TokenFault> {
    let (toks, cur, mode) = token_state(s);
    if mode == 2 {
        Err(TokenFault::BadEscape)
    } else if mode == 1 {
        Err(TokenFault::Unterminated)
    } else if cur.len() > 0 {
        Ok(toks.push(cur))
    } else {
        Ok(toks)
    }
}

fn unescape_char(c: char) -> (r: char)
    ensures
        r == unescaped(c),
{
    if c == 'n' {
        '\n'
    } else if c == 't' {
        '\t'
    } else if c == 'r' {
        '\r'
    } else {
        c
    }
}

/// Splits a line of plain output into tokens; see [`line_tokens`].
pub fn tokenize_plain_line(line: &[char]) -> (r: Result<Vec<Vec<char>>, TokenFault>)
    ensures
        match line_tokens(line@) {
            Ok(t) => r matches Ok(v) && char_views(v@) == t,
            Err(f) => r == Err::<Vec<Vec<char>>, TokenFault>(f),
        },
{
    let mut toks: Vec<Vec<char>> = Vec::new();
    let mut cur: Vec<char> = Vec::new();
    let mut mode: u8 = 0;
    let mut i: usize = 0;
    assert(line@.take(0) =~= Seq::<char>::empty());
    assert(char_views(toks@) =~= Seq::<Seq<char>>::empty());
    while i < line.len()
        invariant
            i <= line.len(),
            (char_views(toks@), cur@, mode as int) == token_state(line@.take(i as int)),
        decreases line.len() - i,
    {
        assert(line@.take(i + 1).drop_last() =~= line@.take(i as int));
        let c = line[i];
        let ghost before = char_views(toks@);
        if mode == 2 {
            cur.push(unescape_char(c));
            mode = 1;
        } else if mode == 1 {
            if c == '\\' {
                mode = 2;
            } else if c == '"' {
                let finished = cur;
                toks.push(finished);
                assert(char_views(toks@) =~= before.push(finished@));
                cur = Vec::new();
                assert(cur@ =~= Seq::<char>::empty());
                mode = 0;
            } else {
                cur.push(c);
            }
        } else if c == '"' {
            mode = 1;
        } else if is_ws_char(c) {
            if cur.len() > 0 {
                let finished = cur;
                toks.push(finished);
                assert(char_views(toks@) =~= before.push(finished@));
                cur = Vec::new();
                assert(cur@ =~= Seq::<char>::empty());
            }
        } else {
            cur.push(c);
        }
        i = i + 1;
    }
    assert(line@.take(line.len() as int) =~= line@);
    if mode == 2 {
        return Err(TokenFault::BadEscape);
    }
    if mode == 1 {
        return Err(TokenFault::Unterminated);
    }
    if cur.len() > 0 {
        let ghost before = char_views(toks@);
        let last = cur;
        toks.push(last);
        assert(char_views(toks@) =~= before.push(last@));
    }
    Ok(toks)
}

/// What one line of plain output says.
pub enum PlainLine {
    /// A blank line, or a record of a kind that is not read.
    Skip,
    /// The `stop` record: reading ends.
    Stop,
    /// The graph's width and height.
    Graph(Seq<char>, Seq<char>),
    /// A node's name, its center x and y, width and height, and its shape.
    Node(Seq<char>, Seq<Seq<char>>, Seq<char>),
    /// An edge's tail and head, the x and y of each control point in turn, and its label with the
    /// label's x and y when the record has them.
    Edge(Seq<char>, Seq<char>, Seq<Seq<char>>, Option<(Seq<char>, Seq<char>, Seq<char>)>),
    /// The line is malformed; the message says how.
    Fail(Seq<char>),
}

/// What the line `raw` says.
pub open spec fn plain_line(raw: Seq<char>) -> PlainLine {
    let line = trim(raw);
    if line.len() == 0 {
        PlainLine::Skip
    } else {
        match line_tokens(line) {
            Err(TokenFault::BadEscape) => PlainLine::Fail("invalid escape sequence in Graphviz plain line: "@ + line),
            Err(TokenFault::Unterminated) => PlainLine::Fail(
                "unterminated quoted string in Graphviz plain line: "@ + line,
            ),
            Ok(t) => if t.len() == 0 {
                PlainLine::Skip
            } else if t[0] == "graph"@ {
                if t.len() < 4 {
                    PlainLine::Fail("Graphviz plain output 'graph' record is malformed"@)
                } else {
                    PlainLine::Graph(t[2], t[3])
                }
            } else if t[0] == "node"@ {
                if t.len() < 11 {
                    PlainLine::Fail("Graphviz plain output 'node' record is malformed: "@ + line)
                } else {
                    PlainLine::Node(t[1], t.subrange(2, 6), t[t.len() - 3])
                }
            } else if t[0] == "edge"@ {
                if t.len() < 6 {
                    PlainLine::Fail("Graphviz plain output 'edge' record is malformed: "@ + line)
                } else {
                    match count_value(t[3]) {
                        None => PlainLine::Fail("invalid integer in Graphviz plain output: '"@ + t[3] + "'"@),
                        Some(n) => if t.len() < 4 + 2 * n {
                            PlainLine::Fail("Graphviz plain output 'edge' record is missing points: "@ + line)
                        } else {
                            let idx = 4 + 2 * n;
                            PlainLine::Edge(
                                t[1],
                                t[2],
                                t.subrange(4, idx),
                                if t.len() >= idx + 5 {
                                    Some((join_space(t.subrange(idx, t.len() - 4)), t[t.len() - 4], t[t.len() - 3]))
                                } else {
                                    None
                                },
                            )
                        },
                    }
                }
            } else if t[0] == "stop"@ {
                PlainLine::Stop
            } else {
                PlainLine::Skip
            },
        }
    }
}

/// The records of the first `k` lines, the message of the first malformed one, and whether a
/// `stop` record was met; reading ends at either.
pub open spec fn scan_lines(lines: Seq<Seq<char>>, k: int) -> (Seq<PlainLine>, Option<Seq<char>>, bool)
    decreases k,
{
    if k <= 0 {
        (Seq::empty(), None, false)
    } else {
        let (recs, fail, stopped) = scan_lines(lines, k - 1);
        if fail is Some || stopped {
            (recs, fail, stopped)
        } else {
            match plain_line(lines[k - 1]) {
                PlainLine::Skip => (recs, None, false),
                PlainLine::Stop => (recs, None, true),
                PlainLine::Fail(m) => (recs, Some(m), false),
                r => (recs.push(r), None, false),
            }
        }
    }
}

/// Some record gives the graph's size.
pub open spec fn has_graph_size(recs: Seq<PlainLine>) -> bool {
    exists|i: int| 0 <= i < recs.len() && (#[trigger] recs[i]) is Graph
}

/// The records of plain output, and the message of the problem that ends reading: a malformed
/// line, or no `graph` record before the end.
pub open spec fn plain_records_of(contents: Seq<char>) -> (Seq<PlainLine>, Option<Seq<char>>) {
    let lines = text_lines(contents);
    let (recs, fail, stopped) = scan_lines(lines, lines.len() as int);
    if fail is Some {
        (recs, fail)
    } else if !has_graph_size(recs) {
        (recs, Some("Graphviz plain output missing graph width"@))
    } else {
        (recs, None)
    }
}

/// A record of plain output, numbers as text.
pub enum PlainRecord {
    Graph { width: String, height: String },
    Node { name: String, numbers: Vec<String>, shape: String },
    Edge { tail: String, head: String, coords: Vec<String>, label: Option<(String, String, String)> },
}

/// The character views of a list of strings.
pub open spec fn string_views(v: Seq<String>) -> Seq<Seq<char>> {
    v.map_values(|x: String| x@)
}

/// What a record says.
pub open spec fn record_view(r: PlainRecord) -> PlainLine {
    match r {
        PlainRecord::Graph { width, height } => PlainLine::Graph(width@, height@),
        PlainRecord::Node { name, numbers, shape } => PlainLine::Node(name@, string_views(numbers@), shape@),
        PlainRecord::Edge { tail, head, coords, label } => PlainLine::Edge(
            tail@,
            head@,
            string_views(coords@),
            match label {
                Some(l) => Some((l.0@, l.1@, l.2@)),
                None => None,
            },
        ),
    }
}

/// The records read from plain output, then the problem that ended reading, if any.
pub struct PlainRecords {
    pub records: Vec<PlainRecord>,
    pub failure: Option<String>,
}

enum LineOut {
    Skip,
    Stop,
    Record(PlainRecord),
    Fail(Vec<char>),
}

spec fn line_out_matches(o: LineOut, l: PlainLine) -> bool {
    match o {
        LineOut::Skip => l is Skip,
        LineOut::Stop => l is Stop,
        LineOut::Record(r) => record_view(r) == l && !(l is Skip) && !(l is Stop) && !(l is Fail),
        LineOut::Fail(m) => l == PlainLine::Fail(m@),
    }
}

fn to_text(v: &Vec<char>) -> (r: String)
    ensures
        r@ == v@,
{
    string_from_chars(v.as_slice())
}

fn texts_between(t: &Vec<Vec<char>>, from: usize, to: usize) -> (r: Vec<String>)
    requires
        from <= to <= t.len(),
    ensures
        string_views(r@) == char_views(t@).subrange(from as int, to as int),
{
    let mut out: Vec<String> = Vec::new();
    let mut k: usize = from;
    while k < to
        invariant
            from <= k <= to <= t.len(),
            string_views(out@) == char_views(t@).subrange(from as int, k as int),
        decreases to - k,
    {
        let ghost before = string_views(out@);
        out.push(string_from_chars(t[k].as_slice()));
        assert(string_views(out@) =~= before.push(t@[k as int]@));
        assert(char_views(t@).subrange(from as int, k + 1) =~= char_views(t@).subrange(from as int, k as int).push(
            t@[k as int]@,
        ));
        k = k + 1;
    }
    out
}

fn fail_with_line(head: &str, line: &Vec<char>) -> (r: LineOut)
    ensures
        r matches LineOut::Fail(m) && m@ == head@ + line@,
{
    let mut m: Vec<char> = Vec::new();
    push_str(&mut m, head);
    push_chars(&mut m, line.as_slice());
    LineOut::Fail(m)
}

fn word_is(w: &Vec<char>, text: &str) -> (r: bool)
    ensures
        r == (w@ == text@),
{
    let t = chars_of(text);
    chars_eq(w.as_slice(), t.as_slice())
}

fn read_line(raw: &[char]) -> (o: LineOut)
    ensures
        line_out_matches(o, plain_line(raw@)),
{
    let line = trim_chars(raw);
    if line.len() == 0 {
        return LineOut::Skip;
    }
    let t = match tokenize_plain_line(line.as_slice()) {
        Ok(t) => t,
        Err(TokenFault::BadEscape) => {
            return fail_with_line("invalid escape sequence in Graphviz plain line: ", &line);
        },
        Err(TokenFault::Unterminated) => {
            return fail_with_line("unterminated quoted string in Graphviz plain line: ", &line);
        },
    };
    let ghost tv = char_views(t@);
    if t.len() == 0 {
        return LineOut::Skip;
    }
    if word_is(&t[0], "graph") {
        if t.len() < 4 {
            let mut m: Vec<char> = Vec::new();
            push_str(&mut m, "Graphviz plain output 'graph' record is malformed");
            return LineOut::Fail(m);
        }
        return LineOut::Record(PlainRecord::Graph { width: to_text(&t[2]), height: to_text(&t[3]) });
    }
    if word_is(&t[0], "node") {
        if t.len() < 11 {
            return fail_with_line("Graphviz plain output 'node' record is malformed: ", &line);
        }
        let numbers = texts_between(&t, 2, 6);
        let shape = to_text(&t[t.len() - 3]);
        return LineOut::Record(PlainRecord::Node { name: to_text(&t[1]), numbers, shape });
    }
    if word_is(&t[0], "edge") {
        if t.len() < 6 {
            return fail_with_line("Graphviz plain output 'edge' record is malformed: ", &line);
        }
        let n = match parse_count(t[3].as_slice()) {
            Some(n) => n,
            None => {
                let mut m: Vec<char> = Vec::new();
                push_str(&mut m, "invalid integer in Graphviz plain output: '");
                push_chars(&mut m, t[3].as_slice());
                push_str(&mut m, "'");
                return LineOut::Fail(m);
            },
        };
        let idx = match n.checked_mul(2) {
            Some(d) => d.checked_add(4),
            None => None,
        };
        let idx = match idx {
            Some(i) => i,
            None => {
                return fail_with_line("Graphviz plain output 'edge' record is missing points: ", &line);
            },
        };
        if t.len() < idx {
            return fail_with_line("Graphviz plain output 'edge' record is missing points: ", &line);
        }
        let coords = texts_between(&t, 4, idx);
        let label = if t.len() - idx >= 5 {
            let lx = t.len() - 4;
            let mut words: Vec<Vec<char>> = Vec::new();
            let mut k: usize = idx;
            while k < lx
                invariant
                    idx <= k <= lx <= t.len(),
                    char_views(words@) == char_views(t@).subrange(idx as int, k as int),
                decreases lx - k,
            {
                let ghost before = char_views(words@);
                words.push(copy_chars(t[k].as_slice()));
                assert(char_views(words@) =~= before.push(t@[k as int]@));
                assert(char_views(t@).subrange(idx as int, k + 1) =~= char_views(t@).subrange(idx as int, k as int).push(
                    t@[k as int]@,
                ));
                k = k + 1;
            }
            let text = join_words(&words);
            Some((to_text(&text), to_text(&t[lx]), to_text(&t[t.len() - 3])))
        } else {
            None
        };
        return LineOut::Record(PlainRecord::Edge { tail: to_text(&t[1]), head: to_text(&t[2]), coords, label });
    }
    if word_is(&t[0], "stop") {
        return LineOut::Stop;
    }
    LineOut::Skip
}

proof fn lemma_scan_lines_stops(lines: Seq<Seq<char>>, k: int, j: int)
    requires
        0 <= k <= j,
        scan_lines(lines, k).1 is Some || scan_lines(lines, k).2,
    ensures
        scan_lines(lines, j) == scan_lines(lines, k),
    decreases j - k,
{
    if j > k {
        lemma_scan_lines_stops(lines, k, j - 1);
    }
}

/// Reads the records of plain output; see [`plain_records_of`].
pub fn read_plain_output(contents: &str) -> (r: PlainRecords)
    ensures
        r.records@.map_values(|x: PlainRecord| record_view(x)) == plain_records_of(contents@).0,
        match plain_records_of(contents@).1 {
            Some(m) => r.failure matches Some(t) && t@ == m,
            None => r.failure is None,
        },
{
    let chars = chars_of(contents);
    let lines = split_lines(chars.as_slice());
    let ghost lv = char_views(lines@);
    let mut records: Vec<PlainRecord> = Vec::new();
    let mut has_size = false;
    let mut stopped = false;
    let mut k: usize = 0;
    assert(records@.map_values(|x: PlainRecord| record_view(x)) =~= Seq::<PlainLine>::empty());
    while k < lines.len() && !stopped
        invariant
            k <= lines.len(),
            lv == char_views(lines@),
            lv == text_lines(contents@),
            scan_lines(lv, k as int) == (records@.map_values(|x: PlainRecord| record_view(x)), None::<Seq<char>>, stopped),
            has_size == has_graph_size(records@.map_values(|x: PlainRecord| record_view(x))),
        decreases lines.len() - k,
    {
        let ghost before = records@.map_values(|x: PlainRecord| record_view(x));
        assert(lv[k as int] == lines@[k as int]@);
        match read_line(lines[k].as_slice()) {
            LineOut::Skip => {},
            LineOut::Stop => {
                stopped = true;
            },
            LineOut::Record(rec) => {
                let ghost rv = record_view(rec);
                let is_graph = match &rec {
                    PlainRecord::Graph { .. } => true,
                    _ => false,
                };
                records.push(rec);
                assert(records@.map_values(|x: PlainRecord| record_view(x)) =~= before.push(rv));
                proof {
                    let after = before.push(rv);
                    if has_graph_size(before) {
                        let i = choose|i: int| 0 <= i < before.len() && (#[trigger] before[i]) is Graph;
                        assert(after[i] == before[i]);
                    }
                    if is_graph {
                        assert(after[before.len() as int] is Graph);
                    }
                    if has_graph_size(after) {
                        let i = choose|i: int| 0 <= i < after.len() && (#[trigger] after[i]) is Graph;
                        if i < before.len() {
                            assert(after[i] == before[i]);
                        }
                    }
                }
                has_size = has_size || is_graph;
            },
            LineOut::Fail(m) => {
                proof {
                    lemma_scan_lines_stops(lv, k + 1, lv.len() as int);
                }
                return PlainRecords { records, failure: Some(string_from_chars(m.as_slice())) };
            },
        }
        k = k + 1;
    }
    proof {
        if stopped {
            lemma_scan_lines_stops(lv, k as int, lv.len() as int);
        }
    }
    if !has_size {
        let mut m: Vec<char> = Vec::new();
        push_str(&mut m, "Graphviz plain output missing graph width");
        return PlainRecords { records, failure: Some(string_from_chars(m.as_slice())) };
    }
    PlainRecords { records, failure: None }
}

} // verus!
