//! Rewrite of the list of available cards in a model configuration file.
//!
//! The file is edited as text, so that everything but the rewritten array keeps its bytes.
use vstd::prelude::*;

use crate::text::{chars_of, find_from, find_from_exec, lemma_find_from_found, push_chars, push_str, string_from_chars, sub_chars};

verus! {

/// The property that lists the available cards, by the name it has in the file.
#[derive(Debug, Clone, Copy, PartialEq, Eq, Structural)]
pub enum CardsKey {
    AvailableCards,
    AvailableIcons,
}

/// Why the list of available cards could not be rewritten.
#[derive(Debug, Clone, Copy, PartialEq, Eq, Structural)]
pub enum CardsError {
    /// Neither `"available_cards"` nor `"available_icons"` occurs in the file.
    MissingProperty,
    /// No `:` follows the property name.
    MissingColon(CardsKey),
    /// The value after the `:` does not start with `[`.
    MissingBracket(CardsKey),
    /// A `]` closes more brackets than were opened.
    MalformedArray(CardsKey),
    /// The file ends before the array is closed.
    UnterminatedArray(CardsKey),
}

/// How the search for the closing bracket of an array fails.
#[derive(Debug, Clone, Copy, PartialEq, Eq, Structural)]
pub enum BracketFault {
    Malformed,
    Unterminated,
}

/// The property name, without quotes.
pub open spec fn key_name(k: CardsKey) -> Seq<char> {
    match k {
        CardsKey::AvailableCards => "available_cards"@,
        CardsKey::AvailableIcons => "available_icons"@,
    }
}

/// The property name as it stands in the file, in double quotes.
pub open spec fn key_text(k: CardsKey) -> Seq<char> {
    seq!['"'] + key_name(k) + seq!['"']
}

/// The property to rewrite and where its quoted name first occurs: `"available_cards"` when it
/// occurs, else `"available_icons"`.
pub open spec fn locate_key(src: Seq<char>) -> Option<(CardsKey, int)> {
    match find_from(src, key_text(CardsKey::AvailableCards), 0) {
        Some(p) => Some((CardsKey::AvailableCards, p)),
        None => match find_from(src, key_text(CardsKey::AvailableIcons), 0) {
            Some(p) => Some((CardsKey::AvailableIcons, p)),
            None => None,
        },
    }
}

/// ASCII whitespace (`u8::is_ascii_whitespace`).
pub open spec fn is_ascii_ws(c: char) -> bool {
    c == ' ' || c == '\t' || c == '\n' || c == '\r' || c == '\x0C'
}

/// The first index at or after `i` that does not hold ASCII whitespace (the length when none).
pub open spec fn skip_ascii_ws(s: Seq<char>, i: int) -> int
    decreases s.len() - i,
{
    if i < 0 || i >= s.len() {
        i
    } else if is_ascii_ws(s[i]) {
        skip_ascii_ws(s, i + 1)
    } else {
        i
    }
}

/// The index of the `]` that closes the array, scanning from `i` with `depth` brackets open;
/// brackets inside string literals (with backslash escapes) do not count.
pub open spec fn closing_bracket(s: Seq<char>, i: int, in_string: bool, escaped: bool, depth: nat) -> Result<
    int,
    BracketFault,
>
    decreases s.len() - i,
{
    if i < 0 || i >= s.len() {
        Err(BracketFault::Unterminated)
    } else if in_string {
        if escaped {
            closing_bracket(s, i + 1, true, false, depth)
        } else if s[i] == '\\' {
            closing_bracket(s, i + 1, true, true, depth)
        } else if s[i] == '"' {
            closing_bracket(s, i + 1, false, false, depth)
        } else {
            closing_bracket(s, i + 1, true, false, depth)
        }
    } else if s[i] == '"' {
        closing_bracket(s, i + 1, true, false, depth)
    } else if s[i] == '[' {
        closing_bracket(s, i + 1, false, false, depth + 1)
    } else if s[i] == ']' {
        if depth == 0 {
            Err(BracketFault::Malformed)
        } else if depth == 1 {
            Ok(i)
        } else {
            closing_bracket(s, i + 1, false, false, (depth - 1) as nat)
        }
    } else {
        closing_bracket(s, i + 1, false, false, depth)
    }
}

/// The `i`-th line of the new array: the name in quotes, indented by two tabs, with a comma
/// unless it is the last.
pub open spec fn card_entry(names: Seq<Seq<char>>, i: int) -> Seq<char> {
    seq!['\t', '\t', '"'] + names[i] + seq!['"'] + (if i + 1 != names.len() {
        seq![',']
    } else {
        Seq::empty()
    }) + seq!['\n']
}

/// The first `k` lines of the new array.
pub open spec fn card_entries(names: Seq<Seq<char>>, k: int) -> Seq<char>
    decreases k,
{
    if k <= 0 {
        Seq::empty()
    } else {
        card_entries(names, k - 1) + card_entry(names, k - 1)
    }
}

/// The new array: one name per line between `[` and a tab-indented `]`.
pub open spec fn cards_array(names: Seq<Seq<char>>) -> Seq<char> {
    seq!['[', '\n'] + card_entries(names, names.len() as int) + seq!['\t', ']']
}

/// The file with the value of the available-cards property replaced by an array of `names`.
pub open spec fn replaced_cards(src: Seq<char>, names: Seq<Seq<char>>) -> Result<Seq<char>, CardsError> {
    match locate_key(src) {
        None => Err(CardsError::MissingProperty),
        Some((k, pos)) => match find_from(src, seq![':'], pos + key_text(k).len()) {
            None => Err(CardsError::MissingColon(k)),
            Some(colon) => {
                let start = skip_ascii_ws(src, colon + 1);
                if start >= src.len() || src[start] != '[' {
                    Err(CardsError::MissingBracket(k))
                } else {
                    match closing_bracket(src, start, false, false, 0) {
                        Err(BracketFault::Malformed) => Err(CardsError::MalformedArray(k)),
                        Err(BracketFault::Unterminated) => Err(CardsError::UnterminatedArray(k)),
                        Ok(end) => Ok(src.take(start) + cards_array(names) + src.skip(end + 1)),
                    }
                }
            }
        },
    }
}

/// The character views of a list of strings.
pub open spec fn string_views(v: Seq<String>) -> Seq<Seq<char>> {
    v.map_values(|s: String| s@)
}

fn key_chars(k: CardsKey) -> (r: Vec<char>)
    ensures
        r@ == key_text(k),
{
    let mut r: Vec<char> = Vec::new();
    r.push('"');
    match k {
        CardsKey::AvailableCards => push_str(&mut r, "available_cards"),
        CardsKey::AvailableIcons => push_str(&mut r, "available_icons"),
    }
    r.push('"');
    assert(r@ =~= key_text(k));
    r
}

fn is_ascii_ws_char(c: char) -> (r: bool)
    ensures
        r == is_ascii_ws(c),
{
    c == ' ' || c == '\t' || c == '\n' || c == '\r' || c == '\x0C'
}

/// The index of the `]` that closes the array opening at `start`.
pub fn find_matching_bracket(s: &[char], start: usize) -> (r: Result<usize, BracketFault>)
    ensures
        match closing_bracket(s@, start as int, false, false, 0) {
            Ok(e) => r == Ok::<usize, BracketFault>(e as usize) && start <= e < s.len(),
            Err(f) => r == Err::<usize, BracketFault>(f),
        },
{
    let mut in_string = false;
    let mut escaped = false;
    let mut depth: usize = 0;
    let mut i: usize = start;
    proof {
        lemma_closing_bracket_range(s@, start as int, false, false, 0);
    }
    while i < s.len()
        invariant
            start <= i,
            depth <= i,
            !in_string ==> !escaped,
            closing_bracket(s@, start as int, false, false, 0) == closing_bracket(s@, i as int, in_string, escaped, depth as nat),
            forall|e: int| closing_bracket(s@, i as int, in_string, escaped, depth as nat) == Ok::<int, BracketFault>(e) ==> i <= e < s.len(),
        decreases s.len() - i,
    {
        let c = s[i];
        proof {
            lemma_closing_bracket_range(s@, i as int + 1, in_string, escaped, depth as nat);
        }
        if in_string {
            if escaped {
                escaped = false;
            } else if c == '\\' {
                escaped = true;
            } else if c == '"' {
                in_string = false;
            }
        } else if c == '"' {
            in_string = true;
        } else if c == '[' {
            depth = depth + 1;
        } else if c == ']' {
            if depth == 0 {
                return Err(BracketFault::Malformed);
            }
            if depth == 1 {
                return Ok(i);
            }
            depth = depth - 1;
        }
        proof {
            lemma_closing_bracket_range(s@, i as int + 1, in_string, escaped, depth as nat);
        }
        i = i + 1;
    }
    Err(BracketFault::Unterminated)
}

/// The new array for `icon_names`, one name per line.
pub fn format_available_cards(icon_names: &[String]) -> (r: Vec<char>)
    ensures
        r@ == cards_array(string_views(icon_names@)),
{
    let ghost names = string_views(icon_names@);
    let mut out: Vec<char> = Vec::new();
    out.push('[');
    out.push('\n');
    let mut i: usize = 0;
    assert(out@ =~= seq!['[', '\n'] + card_entries(names, 0));
    while i < icon_names.len()
        invariant
            i <= icon_names.len(),
            names == string_views(icon_names@),
            out@ == seq!['[', '\n'] + card_entries(names, i as int),
        decreases icon_names.len() - i,
    {
        let ghost before = out@;
        out.push('\t');
        out.push('\t');
        out.push('"');
        push_str(&mut out, icon_names[i].as_str());
        out.push('"');
        if i + 1 != icon_names.len() {
            out.push(',');
        }
        out.push('\n');
        assert(names[i as int] == icon_names@[i as int]@);
        assert(out@ =~= before + card_entry(names, i as int));
        i = i + 1;
    }
    out.push('\t');
    out.push(']');
    assert(out@ =~= cards_array(names));
    out
}

/// The model configuration text `source` with the value of its available-cards property
/// (`"available_cards"`, else `"available_icons"`) replaced by an array of `icon_names`, one per
/// line; the rest of the text is kept as it is.
pub fn replace_available_cards_array(source: &str, icon_names: &[String]) -> (r: Result<String, CardsError>)
    ensures
        match replaced_cards(source@, string_views(icon_names@)) {
            Ok(t) => r matches Ok(out) && out@ == t,
            Err(e) => r == Err::<String, CardsError>(e),
        },
{
    let src = chars_of(source);
    let cards_key = key_chars(CardsKey::AvailableCards);
    let found = find_from_exec(&src, &cards_key, 0);
    let (k, pos) = match found {
        Some(p) => (CardsKey::AvailableCards, p),
        None => {
            let icons_key = key_chars(CardsKey::AvailableIcons);
            match find_from_exec(&src, &icons_key, 0) {
                Some(p) => (CardsKey::AvailableIcons, p),
                None => {
                    return Err(CardsError::MissingProperty);
                },
            }
        },
    };
    let key = key_chars(k);
    assert(locate_key(src@) == Some((k, pos as int)));
    assert(find_from(src@, key@, 0) == Some(pos as int));
    proof {
        lemma_find_from_found(src@, key@, 0);
    }
    assert(pos + key.len() <= src.len());
    let key_end = pos + key.len();
    let colon_pat: Vec<char> = vec![':'];
    assert(colon_pat@ =~= seq![':']);
    let colon = match find_from_exec(&src, &colon_pat, key_end) {
        Some(c) => c,
        None => {
            return Err(CardsError::MissingColon(k));
        },
    };
    proof {
        lemma_find_from_found(src@, seq![':'], key_end as int);
    }
    let mut start: usize = colon + 1;
    while start < src.len() && is_ascii_ws_char(src[start])
        invariant
            colon < src.len(),
            colon + 1 <= start <= src.len(),
            skip_ascii_ws(src@, colon + 1) == skip_ascii_ws(src@, start as int),
        decreases src.len() - start,
    {
        start = start + 1;
    }
    if start >= src.len() || src[start] != '[' {
        return Err(CardsError::MissingBracket(k));
    }
    assert(skip_ascii_ws(src@, colon + 1) == start);
    let end = match find_matching_bracket(&src, start) {
        Ok(e) => e,
        Err(BracketFault::Malformed) => {
            return Err(CardsError::MalformedArray(k));
        },
        Err(BracketFault::Unterminated) => {
            return Err(CardsError::UnterminatedArray(k));
        },
    };
    let mut out = sub_chars(&src, 0, start);
    let array = format_available_cards(icon_names);
    push_chars(&mut out, &array);
    let rest = sub_chars(&src, end + 1, src.len());
    push_chars(&mut out, &rest);
    assert(out@ =~= src@.take(start as int) + cards_array(string_views(icon_names@)) + src@.skip(end + 1));
    Ok(string_from_chars(&out))
}

proof fn lemma_closing_bracket_range(s: Seq<char>, i: int, in_string: bool, escaped: bool, depth: nat)
    ensures
        forall|e: int| closing_bracket(s, i, in_string, escaped, depth) == Ok::<int, BracketFault>(e) ==> i <= e < s.len(),
    decreases s.len() - i,
{
    if 0 <= i < s.len() {
        lemma_closing_bracket_range(s, i + 1, true, false, depth);
        lemma_closing_bracket_range(s, i + 1, true, true, depth);
        lemma_closing_bracket_range(s, i + 1, false, false, depth);
        lemma_closing_bracket_range(s, i + 1, false, false, depth + 1);
        if depth > 0 {
            lemma_closing_bracket_range(s, i + 1, false, false, (depth - 1) as nat);
        }
    }
}

} // verus!
