//! Character-sequence primitives shared by the renderers and validators.
//!
//! Text is handled as `Vec<char>` (viewed as `Seq<char>`); the spec functions here give the
//! meaning of the usual `str` operations (trim, find, replace, case folding) over sequences.
use vstd::prelude::*;

verus! {

/// Unicode `White_Space` characters, as recognised by `char::is_whitespace`.
pub open spec fn is_ws(c: char) -> bool {
    let u = c as u32;
    ||| 0x09 <= u <= 0x0D
    ||| u == 0x20
    ||| u == 0x85
    ||| u == 0xA0
    ||| u == 0x1680
    ||| 0x2000 <= u <= 0x200A
    ||| u == 0x2028
    ||| u == 0x2029
    ||| u == 0x202F
    ||| u == 0x205F
    ||| u == 0x3000
}

/// `s` with leading whitespace removed.
pub open spec fn trim_start(s: Seq<char>) -> Seq<char>
    decreases s.len(),
{
    if s.len() > 0 && is_ws(s[0]) {
        trim_start(s.drop_first())
    } else {
        s
    }
}

/// `s` with trailing whitespace removed.
pub open spec fn trim_end(s: Seq<char>) -> Seq<char>
    decreases s.len(),
{
    if s.len() > 0 && is_ws(s.last()) {
        trim_end(s.drop_last())
    } else {
        s
    }
}

/// `s` with whitespace removed at both ends.
pub open spec fn trim(s: Seq<char>) -> Seq<char> {
    trim_end(trim_start(s))
}

/// ASCII lower-casing of one character; other characters are unchanged.
pub open spec fn ascii_lower_char(c: char) -> char {
    if 'A' <= c && c <= 'Z' {
        ((c as u32) + 32) as char
    } else {
        c
    }
}

/// ASCII lower-casing of a sequence.
pub open spec fn ascii_lower(s: Seq<char>) -> Seq<char> {
    s.map_values(|c: char| ascii_lower_char(c))
}

/// `p` occurs in `s` starting at index `i`.
pub open spec fn matches_at(s: Seq<char>, p: Seq<char>, i: int) -> bool {
    0 <= i && i + p.len() <= s.len() && s.subrange(i, i + p.len()) == p
}

/// First index `j >= i` at which `p` occurs in `s`.
pub open spec fn find_from(s: Seq<char>, p: Seq<char>, i: int) -> Option<int>
    decreases s.len() + 1 - i,
{
    if i < 0 || i + p.len() > s.len() {
        None
    } else if matches_at(s, p, i) {
        Some(i)
    } else {
        find_from(s, p, i + 1)
    }
}

/// `p` occurs somewhere in `s`.
pub open spec fn contains_seq(s: Seq<char>, p: Seq<char>) -> bool {
    find_from(s, p, 0) is Some
}

/// Last index at which `p` occurs in `s`, searching the starts `0..=i`.
pub open spec fn rfind_upto(s: Seq<char>, p: Seq<char>, i: int) -> Option<int>
    decreases i + 1,
{
    if i < 0 {
        None
    } else if matches_at(s, p, i) {
        Some(i)
    } else {
        rfind_upto(s, p, i - 1)
    }
}

/// Last index at which `p` occurs in `s`.
pub open spec fn rfind(s: Seq<char>, p: Seq<char>) -> Option<int> {
    rfind_upto(s, p, s.len() - p.len())
}

/// Strict lexicographic order by code point (the order of `String` in Rust).
pub open spec fn seq_lt(a: Seq<char>, b: Seq<char>) -> bool
    decreases a.len(),
{
    if a.len() == 0 {
        b.len() > 0
    } else if b.len() == 0 {
        false
    } else if a[0] != b[0] {
        a[0] < b[0]
    } else {
        seq_lt(a.drop_first(), b.drop_first())
    }
}

/// Every occurrence of the character `c` replaced by `r`.
pub open spec fn replace_char(s: Seq<char>, c: char, r: Seq<char>) -> Seq<char>
    decreases s.len(),
{
    if s.len() == 0 {
        Seq::empty()
    } else {
        replace_char(s.drop_last(), c, r) + (if s.last() == c {
            r
        } else {
            seq![s.last()]
        })
    }
}

/// Left-to-right, non-overlapping replacement of `p` by `r`, scanning from index `i`.
pub open spec fn replace_from(s: Seq<char>, p: Seq<char>, r: Seq<char>, i: int) -> Seq<char>
    recommends
        p.len() > 0,
    decreases s.len() - i,
{
    if i < 0 || i > s.len() || p.len() == 0 {
        Seq::empty()
    } else {
        match find_from(s, p, i) {
            None => s.subrange(i, s.len() as int),
            Some(j) => if j + p.len() <= s.len() && j >= i {
                s.subrange(i, j) + r + replace_from(s, p, r, j + p.len())
            } else {
                Seq::empty()
            },
        }
    }
}

/// `str::replace(s, p, r)` for a non-empty pattern.
pub open spec fn replace_all(s: Seq<char>, p: Seq<char>, r: Seq<char>) -> Seq<char> {
    replace_from(s, p, r, 0)
}

/// Decimal digit character for `d < 10`.
pub open spec fn digit_char(d: int) -> char {
    (('0' as u32) + (d as u32)) as char
}

/// Decimal digits of a natural number, without leading zeros.
pub open spec fn nat_digits(n: nat) -> Seq<char>
    decreases n,
{
    if n < 10 {
        seq![digit_char(n as int)]
    } else {
        nat_digits((n / 10) as nat).push(digit_char((n % 10) as int))
    }
}

/// Decimal rendering of an integer, as `format!("{}", n)` prints it.
pub open spec fn int_text(n: int) -> Seq<char> {
    if n < 0 {
        seq!['-'] + nat_digits((-n) as nat)
    } else {
        nat_digits(n as nat)
    }
}

pub proof fn lemma_find_from_found(s: Seq<char>, p: Seq<char>, i: int)
    requires
        find_from(s, p, i) is Some,
    ensures
        i <= find_from(s, p, i)->0,
        matches_at(s, p, find_from(s, p, i)->0),
        forall|k: int| i <= k < find_from(s, p, i)->0 ==> !matches_at(s, p, k),
    decreases s.len() + 1 - i,
{
    if i < 0 || i + p.len() > s.len() {
    } else if matches_at(s, p, i) {
    } else {
        lemma_find_from_found(s, p, i + 1);
    }
}

pub proof fn lemma_find_from_none(s: Seq<char>, p: Seq<char>, i: int)
    requires
        0 <= i,
        find_from(s, p, i) is None,
    ensures
        forall|k: int| i <= k ==> !matches_at(s, p, k),
    decreases s.len() + 1 - i,
{
    if i + p.len() > s.len() {
    } else if matches_at(s, p, i) {
    } else {
        lemma_find_from_none(s, p, i + 1);
    }
}

/// A match at `j` with none in `i..j` is what `find_from` reports.
pub proof fn lemma_find_from_char(s: Seq<char>, p: Seq<char>, i: int, j: int)
    requires
        0 <= i <= j,
        matches_at(s, p, j),
        forall|k: int| i <= k < j ==> !matches_at(s, p, k),
    ensures
        find_from(s, p, i) == Some(j),
    decreases j - i,
{
    if i < j {
        lemma_find_from_char(s, p, i + 1, j);
    }
}

/// No match in `i..` means `find_from` reports none.
pub proof fn lemma_find_from_absent(s: Seq<char>, p: Seq<char>, i: int)
    requires
        0 <= i,
        forall|k: int| i <= k ==> !matches_at(s, p, k),
    ensures
        find_from(s, p, i) is None,
    decreases s.len() + 1 - i,
{
    if i + p.len() > s.len() {
    } else {
        lemma_find_from_absent(s, p, i + 1);
    }
}

pub proof fn lemma_rfind_upto(s: Seq<char>, p: Seq<char>, i: int)
    ensures
        rfind_upto(s, p, i) matches Some(j) ==> j <= i && matches_at(s, p, j) && forall|k: int|
            j < k <= i ==> !matches_at(s, p, k),
        rfind_upto(s, p, i) is None ==> forall|k: int| k <= i ==> !matches_at(s, p, k),
    decreases i + 1,
{
    if i >= 0 && !matches_at(s, p, i) {
        lemma_rfind_upto(s, p, i - 1);
    }
}

/// `char::is_whitespace`.
pub fn is_ws_char(c: char) -> (r: bool)
    ensures
        r == is_ws(c),
{
    let u = c as u32;
    (0x09 <= u && u <= 0x0D) || u == 0x20 || u == 0x85 || u == 0xA0 || u == 0x1680 || (0x2000
        <= u && u <= 0x200A) || u == 0x2028 || u == 0x2029 || u == 0x202F || u == 0x205F || u
        == 0x3000
}

/// The characters of a string slice.
pub fn chars_of(s: &str) -> (r: Vec<char>)
    ensures
        r@ == s@,
{
    let mut out: Vec<char> = Vec::new();
    for c in it: s.chars()
        invariant
            out@ == it.seq().take(it.index() as int),
    {
        out.push(c);
    }
    out
}

/// The string whose characters are `chars`.
///
/// Wraps `FromIterator<char> for String`; the contract claims that the collected string holds
/// exactly the given characters, in order.
#[verifier::external_body]
pub fn string_from_chars(chars: &[char]) -> (s: String)
    ensures
        s@ == chars@,
{
    chars.iter().collect()
}

/// A copy of a slice of characters.
pub fn copy_chars(s: &[char]) -> (r: Vec<char>)
    ensures
        r@ == s@,
{
    let mut out: Vec<char> = Vec::new();
    let mut i: usize = 0;
    while i < s.len()
        invariant
            i <= s.len(),
            out@ == s@.subrange(0, i as int),
        decreases s.len() - i,
    {
        out.push(s[i]);
        i = i + 1;
    }
    out
}

/// The characters `s[from..to]`.
pub fn sub_chars(s: &[char], from: usize, to: usize) -> (r: Vec<char>)
    requires
        from <= to <= s.len(),
    ensures
        r@ == s@.subrange(from as int, to as int),
{
    let mut out: Vec<char> = Vec::new();
    let mut i: usize = from;
    while i < to
        invariant
            from <= i <= to <= s.len(),
            out@ == s@.subrange(from as int, i as int),
        decreases to - i,
    {
        out.push(s[i]);
        i = i + 1;
    }
    out
}

/// Appends `s` to `out`.
pub fn push_chars(out: &mut Vec<char>, s: &[char])
    ensures
        final(out)@ == old(out)@ + s@,
{
    let ghost start = out@;
    let mut i: usize = 0;
    while i < s.len()
        invariant
            i <= s.len(),
            out@ == start + s@.subrange(0, i as int),
        decreases s.len() - i,
    {
        out.push(s[i]);
        i = i + 1;
    }
}

/// Appends the characters of a string slice to `out`.
pub fn push_str(out: &mut Vec<char>, s: &str)
    ensures
        final(out)@ == old(out)@ + s@,
{
    let v = chars_of(s);
    push_chars(out, v.as_slice());
}

/// Two character sequences are equal.
pub fn chars_eq(a: &[char], b: &[char]) -> (r: bool)
    ensures
        r == (a@ == b@),
{
    if a.len() != b.len() {
        return false;
    }
    let mut i: usize = 0;
    while i < a.len()
        invariant
            a.len() == b.len(),
            i <= a.len(),
            forall|k: int| 0 <= k < i ==> a@[k] == b@[k],
        decreases a.len() - i,
    {
        if a[i] != b[i] {
            return false;
        }
        i = i + 1;
    }
    assert(a@ =~= b@);
    true
}

/// `p` occurs in `s` at index `i`.
pub fn matches_at_exec(s: &[char], p: &[char], i: usize) -> (r: bool)
    ensures
        r == matches_at(s@, p@, i as int),
{
    if i > s.len() || p.len() > s.len() - i {
        return false;
    }
    let mut k: usize = 0;
    while k < p.len()
        invariant
            i + p.len() <= s.len(),
            k <= p.len(),
            forall|m: int| 0 <= m < k ==> s@[i + m] == p@[m],
        decreases p.len() - k,
    {
        if s[i + k] != p[k] {
            assert(s@.subrange(i as int, i + p.len())[k as int] != p@[k as int]);
            return false;
        }
        k = k + 1;
    }
    assert(s@.subrange(i as int, i + p.len()) =~= p@);
    true
}

/// First occurrence of `p` in `s` at or after `from`.
pub fn find_from_exec(s: &[char], p: &[char], from: usize) -> (r: Option<usize>)
    ensures
        r matches Some(j) ==> find_from(s@, p@, from as int) == Some(j as int),
        r is None ==> find_from(s@, p@, from as int) is None,
{
    if from > s.len() || p.len() > s.len() - from {
        return None;
    }
    if p.len() == 0 {
        assert(s@.subrange(from as int, from as int) =~= p@);
        return Some(from);
    }
    let mut i: usize = from;
    while i <= s.len() - p.len()
        invariant
            from <= i,
            p.len() > 0,
            from + p.len() <= s.len(),
            i <= s.len() - p.len() + 1,
            find_from(s@, p@, from as int) == find_from(s@, p@, i as int),
        decreases s.len() - i,
    {
        if matches_at_exec(s, p, i) {
            return Some(i);
        }
        i = i + 1;
    }
    None
}

/// Last occurrence of `p` in `s`.
pub fn rfind_exec(s: &[char], p: &[char]) -> (r: Option<usize>)
    ensures
        r matches Some(j) ==> rfind(s@, p@) == Some(j as int),
        r is None ==> rfind(s@, p@) is None,
{
    if p.len() > s.len() {
        return None;
    }
    if p.len() == 0 {
        assert(s@.subrange(s.len() as int, s.len() as int) =~= p@);
        return Some(s.len());
    }
    let mut i: usize = s.len() - p.len() + 1;
    while i > 0
        invariant
            i <= s.len() - p.len() + 1,
            rfind(s@, p@) == rfind_upto(s@, p@, i - 1),
        decreases i,
    {
        if matches_at_exec(s, p, i - 1) {
            return Some(i - 1);
        }
        i = i - 1;
    }
    None
}

/// `p` occurs in `s`.
pub fn contains_exec(s: &[char], p: &[char]) -> (r: bool)
    ensures
        r == contains_seq(s@, p@),
{
    find_from_exec(s, p, 0).is_some()
}

proof fn lemma_trim_start_step(s: Seq<char>, i: int)
    requires
        0 <= i < s.len(),
        is_ws(s[i]),
    ensures
        trim_start(s.subrange(i, s.len() as int)) == trim_start(s.subrange(i + 1, s.len() as int)),
{
    assert(s.subrange(i, s.len() as int).drop_first() =~= s.subrange(i + 1, s.len() as int));
}

proof fn lemma_trim_end_step(s: Seq<char>, j: int)
    requires
        0 < j <= s.len(),
        is_ws(s[j - 1]),
    ensures
        trim_end(s.subrange(0, j)) == trim_end(s.subrange(0, j - 1)),
{
    assert(s.subrange(0, j).drop_last() =~= s.subrange(0, j - 1));
}

/// Start of `trim_start(s)` within `s`.
pub fn trim_start_index(s: &[char]) -> (i: usize)
    ensures
        i <= s.len(),
        trim_start(s@) == s@.subrange(i as int, s.len() as int),
{
    let mut i: usize = 0;
    assert(s@.subrange(0, s.len() as int) =~= s@);
    while i < s.len() && is_ws_char(s[i])
        invariant
            i <= s.len(),
            trim_start(s@) == trim_start(s@.subrange(i as int, s.len() as int)),
        decreases s.len() - i,
    {
        proof {
            lemma_trim_start_step(s@, i as int);
        }
        i = i + 1;
    }
    i
}

/// End of `trim_end(s[..end])` within `s`.
pub fn trim_end_index(s: &[char], end: usize) -> (j: usize)
    requires
        end <= s.len(),
    ensures
        j <= end,
        trim_end(s@.subrange(0, end as int)) == s@.subrange(0, j as int),
{
    let mut j: usize = end;
    while j > 0 && is_ws_char(s[j - 1])
        invariant
            j <= end <= s.len(),
            trim_end(s@.subrange(0, end as int)) == trim_end(s@.subrange(0, j as int)),
        decreases j,
    {
        proof {
            lemma_trim_end_step(s@, j as int);
        }
        j = j - 1;
    }
    j
}

/// `s.trim()`.
pub fn trim_chars(s: &[char]) -> (r: Vec<char>)
    ensures
        r@ == trim(s@),
{
    let i = trim_start_index(s);
    let mut j: usize = s.len();
    let ghost t = s@.subrange(i as int, s.len() as int);
    assert(t.subrange(0, t.len() as int) =~= t);
    while j > i && is_ws_char(s[j - 1])
        invariant
            i <= j <= s.len(),
            t == s@.subrange(i as int, s.len() as int),
            trim_end(t) == trim_end(t.subrange(0, j - i)),
        decreases j,
    {
        proof {
            lemma_trim_end_step(t, j - i);
            assert(t.subrange(0, j - i - 1) =~= t.subrange(0, (j - 1 - i) as int));
        }
        j = j - 1;
    }
    assert(t.subrange(0, j - i) =~= s@.subrange(i as int, j as int));
    sub_chars(s, i, j)
}

/// `s.trim_end()`.
pub fn trim_end_chars(s: &[char]) -> (r: Vec<char>)
    ensures
        r@ == trim_end(s@),
{
    let j = trim_end_index(s, s.len());
    assert(s@.subrange(0, s.len() as int) =~= s@);
    sub_chars(s, 0, j)
}

/// `s.trim_start()`.
pub fn trim_start_chars(s: &[char]) -> (r: Vec<char>)
    ensures
        r@ == trim_start(s@),
{
    let i = trim_start_index(s);
    sub_chars(s, i, s.len())
}

/// `c.to_ascii_lowercase()`.
pub fn ascii_lower_char_exec(c: char) -> (r: char)
    ensures
        r == ascii_lower_char(c),
{
    if 'A' <= c && c <= 'Z' {
        let u = (c as u32) + 32;
        proof {
            assert(0x61 <= u <= 0x7A);
        }
        char_from_ascii(u)
    } else {
        c
    }
}

/// The character with ASCII code `u`.
fn char_from_ascii(u: u32) -> (r: char)
    requires
        u < 128,
    ensures
        r == u as char,
{
    let b: u8 = u as u8;
    b as char
}

/// `s.to_ascii_lowercase()`.
pub fn ascii_lower_chars(s: &[char]) -> (r: Vec<char>)
    ensures
        r@ == ascii_lower(s@),
{
    let mut out: Vec<char> = Vec::new();
    let mut i: usize = 0;
    while i < s.len()
        invariant
            i <= s.len(),
            out@ == ascii_lower(s@.subrange(0, i as int)),
        decreases s.len() - i,
    {
        out.push(ascii_lower_char_exec(s[i]));
        i = i + 1;
        assert(ascii_lower(s@.subrange(0, i as int)) =~= ascii_lower(
            s@.subrange(0, i - 1),
        ).push(ascii_lower_char(s@[i - 1])));
    }
    assert(s@.subrange(0, s.len() as int) =~= s@);
    out
}

/// `a.eq_ignore_ascii_case(b)`.
pub fn eq_ignore_ascii_case(a: &[char], b: &[char]) -> (r: bool)
    ensures
        r == (ascii_lower(a@) == ascii_lower(b@)),
{
    let la = ascii_lower_chars(a);
    let lb = ascii_lower_chars(b);
    chars_eq(la.as_slice(), lb.as_slice())
}

/// Strict lexicographic comparison `a < b`.
pub fn chars_lt(a: &[char], b: &[char]) -> (r: bool)
    ensures
        r == seq_lt(a@, b@),
{
    let mut i: usize = 0;
    assert(a@.subrange(0, a.len() as int) =~= a@);
    assert(b@.subrange(0, b.len() as int) =~= b@);
    while i < a.len() && i < b.len() && a[i] == b[i]
        invariant
            i <= a.len(),
            i <= b.len(),
            seq_lt(a@, b@) == seq_lt(a@.subrange(i as int, a.len() as int), b@.subrange(i as int, b.len() as int)),
        decreases a.len() - i,
    {
        proof {
            let sa = a@.subrange(i as int, a.len() as int);
            let sb = b@.subrange(i as int, b.len() as int);
            assert(sa.drop_first() =~= a@.subrange(i + 1, a.len() as int));
            assert(sb.drop_first() =~= b@.subrange(i + 1, b.len() as int));
        }
        i = i + 1;
    }
    if i == a.len() {
        i < b.len()
    } else if i == b.len() {
        false
    } else {
        a[i] < b[i]
    }
}

pub proof fn lemma_seq_lt_irreflexive(a: Seq<char>)
    ensures
        !seq_lt(a, a),
    decreases a.len(),
{
    if a.len() > 0 {
        lemma_seq_lt_irreflexive(a.drop_first());
    }
}

pub proof fn lemma_seq_lt_transitive(a: Seq<char>, b: Seq<char>, c: Seq<char>)
    requires
        seq_lt(a, b),
        seq_lt(b, c),
    ensures
        seq_lt(a, c),
    decreases a.len(),
{
    if a.len() > 0 && b.len() > 0 && c.len() > 0 && a[0] == b[0] && b[0] == c[0] {
        lemma_seq_lt_transitive(a.drop_first(), b.drop_first(), c.drop_first());
    }
}

pub proof fn lemma_seq_lt_total(a: Seq<char>, b: Seq<char>)
    ensures
        seq_lt(a, b) || seq_lt(b, a) || a == b,
    decreases a.len(),
{
    if a.len() > 0 && b.len() > 0 {
        if a[0] == b[0] {
            lemma_seq_lt_total(a.drop_first(), b.drop_first());
            if a.drop_first() == b.drop_first() {
                assert(a =~= seq![a[0]] + a.drop_first());
                assert(b =~= seq![b[0]] + b.drop_first());
            }
        }
    } else if a.len() == 0 && b.len() == 0 {
        assert(a =~= b);
    }
}

pub proof fn lemma_seq_lt_asymmetric(a: Seq<char>, b: Seq<char>)
    requires
        seq_lt(a, b),
    ensures
        !seq_lt(b, a),
{
    if seq_lt(b, a) {
        lemma_seq_lt_transitive(a, b, a);
        lemma_seq_lt_irreflexive(a);
    }
}

/// Appends `s` with every `c` replaced by `r`.
pub fn replace_char_exec(s: &[char], c: char, r: &[char]) -> (out: Vec<char>)
    ensures
        out@ == replace_char(s@, c, r@),
{
    let mut out: Vec<char> = Vec::new();
    let mut i: usize = 0;
    while i < s.len()
        invariant
            i <= s.len(),
            out@ == replace_char(s@.subrange(0, i as int), c, r@),
        decreases s.len() - i,
    {
        proof {
            assert(s@.subrange(0, i + 1).drop_last() =~= s@.subrange(0, i as int));
        }
        if s[i] == c {
            push_chars(&mut out, r);
        } else {
            out.push(s[i]);
        }
        i = i + 1;
    }
    assert(s@.subrange(0, s.len() as int) =~= s@);
    out
}

/// `s.replace(p, r)` for a non-empty pattern `p`.
pub fn replace_all_exec(s: &[char], p: &[char], r: &[char]) -> (out: Vec<char>)
    requires
        p.len() > 0,
    ensures
        out@ == replace_all(s@, p@, r@),
{
    let mut out: Vec<char> = Vec::new();
    let mut cursor: usize = 0;
    loop
        invariant
            p.len() > 0,
            cursor <= s.len(),
            out@ + replace_from(s@, p@, r@, cursor as int) == replace_all(s@, p@, r@),
        decreases s.len() - cursor,
    {
        match find_from_exec(s, p, cursor) {
            None => {
                let tail = sub_chars(s, cursor, s.len());
                push_chars(&mut out, tail.as_slice());
                return out;
            },
            Some(j) => {
                proof {
                    lemma_find_from_found(s@, p@, cursor as int);
                }
                let head = sub_chars(s, cursor, j);
                push_chars(&mut out, head.as_slice());
                push_chars(&mut out, r);
                proof {
                    assert(out@ + replace_from(s@, p@, r@, j + p.len()) =~= (out@.subrange(
                        0,
                        out@.len() - head@.len() - r@.len(),
                    ) + (head@ + r@ + replace_from(s@, p@, r@, j + p.len()))));
                }
                cursor = j + p.len();
            },
        }
    }
}

/// Appends the decimal digits of `n`.
pub fn push_nat(out: &mut Vec<char>, n: u64)
    ensures
        final(out)@ == old(out)@ + nat_digits(n as nat),
    decreases n,
{
    if n < 10 {
        out.push(digit_exec(n));
    } else {
        push_nat(out, n / 10);
        out.push(digit_exec(n % 10));
    }
}

pub fn digit_exec(d: u64) -> (c: char)
    requires
        d < 10,
    ensures
        c == digit_char(d as int),
{
    let u: u32 = 48 + (d as u32);
    char_from_ascii(u)
}

/// Appends the decimal rendering of `n`.
pub fn push_int(out: &mut Vec<char>, n: i64)
    ensures
        final(out)@ == old(out)@ + int_text(n as int),
{
    if n < 0 {
        out.push('-');
        let m: u64 = if n == i64::MIN {
            9223372036854775808u64
        } else {
            (-n) as u64
        };
        let ghost mid = out@;
        push_nat(out, m);
        assert(out@ =~= old(out)@ + int_text(n as int));
    } else {
        push_nat(out, n as u64);
    }
}

/// `s` without leading copies of `c`.
pub open spec fn strip_start_char(s: Seq<char>, c: char) -> Seq<char>
    decreases s.len(),
{
    if s.len() > 0 && s[0] == c {
        strip_start_char(s.drop_first(), c)
    } else {
        s
    }
}

/// `s` without trailing copies of `c`.
pub open spec fn strip_end_char(s: Seq<char>, c: char) -> Seq<char>
    decreases s.len(),
{
    if s.len() > 0 && s.last() == c {
        strip_end_char(s.drop_last(), c)
    } else {
        s
    }
}

/// `str::trim_matches(c)`: `s` without leading and trailing copies of `c`.
pub open spec fn trim_matches(s: Seq<char>, c: char) -> Seq<char> {
    strip_end_char(strip_start_char(s, c), c)
}

/// `s.trim_matches(c)`.
pub fn trim_matches_chars(s: &[char], c: char) -> (r: Vec<char>)
    ensures
        r@ == trim_matches(s@, c),
{
    let mut i: usize = 0;
    assert(s@.subrange(0, s.len() as int) =~= s@);
    while i < s.len() && s[i] == c
        invariant
            i <= s.len(),
            strip_start_char(s@, c) == strip_start_char(s@.subrange(i as int, s.len() as int), c),
        decreases s.len() - i,
    {
        proof {
            assert(s@.subrange(i as int, s.len() as int).drop_first() =~= s@.subrange(i + 1, s.len() as int));
        }
        i = i + 1;
    }
    let mut j: usize = s.len();
    let ghost t = s@.subrange(i as int, s.len() as int);
    assert(t =~= s@.subrange(i as int, j as int));
    while j > i && s[j - 1] == c
        invariant
            i <= j <= s.len(),
            t == s@.subrange(i as int, s.len() as int),
            strip_end_char(t, c) == strip_end_char(s@.subrange(i as int, j as int), c),
        decreases j,
    {
        proof {
            assert(s@.subrange(i as int, j as int).drop_last() =~= s@.subrange(i as int, j - 1));
        }
        j = j - 1;
    }
    sub_chars(s, i, j)
}

/// Index of the first `c` in `s`.
pub open spec fn index_of_char(s: Seq<char>, c: char) -> Option<int>
    decreases s.len(),
{
    if s.len() == 0 {
        None
    } else {
        match index_of_char(s.drop_last(), c) {
            Some(i) => Some(i),
            None => if s.last() == c {
                Some(s.len() - 1)
            } else {
                None
            },
        }
    }
}

/// First index of `c` in `s`.
pub fn find_char(s: &[char], c: char) -> (r: Option<usize>)
    ensures
        match r {
            Some(i) => index_of_char(s@, c) == Some(i as int) && i < s@.len(),
            None => index_of_char(s@, c) is None,
        },
{
    let mut i: usize = 0;
    while i < s.len()
        invariant
            i <= s.len(),
            index_of_char(s@.subrange(0, i as int), c) is None,
        decreases s.len() - i,
    {
        proof {
            assert(s@.subrange(0, i + 1).drop_last() =~= s@.subrange(0, i as int));
        }
        if s[i] == c {
            proof {
                lemma_index_of_char_prefix(s@, c, i as int + 1);
            }
            return Some(i);
        }
        i = i + 1;
    }
    proof {
        assert(s@.subrange(0, s.len() as int) =~= s@);
    }
    None
}

/// The first `c` of a prefix that holds one is the first `c` of the whole sequence.
pub proof fn lemma_index_of_char_prefix(s: Seq<char>, c: char, k: int)
    requires
        0 < k <= s.len(),
        index_of_char(s.subrange(0, k), c) is Some,
    ensures
        index_of_char(s, c) == index_of_char(s.subrange(0, k), c),
    decreases s.len() - k,
{
    if k < s.len() {
        assert(s.subrange(0, k + 1).drop_last() =~= s.subrange(0, k));
        lemma_index_of_char_prefix(s, c, k + 1);
    } else {
        assert(s.subrange(0, k) =~= s);
    }
}

/// Length of the run of non-whitespace characters that starts `s`.
pub open spec fn word_len(s: Seq<char>) -> nat
    decreases s.len(),
{
    if s.len() == 0 || is_ws(s[0]) {
        0
    } else {
        1 + word_len(s.drop_first())
    }
}

pub proof fn lemma_word_len_bound(s: Seq<char>)
    ensures
        word_len(s) <= s.len(),
    decreases s.len(),
{
    if s.len() > 0 && !is_ws(s[0]) {
        lemma_word_len_bound(s.drop_first());
    }
}

/// The words of `s`: its maximal runs of non-whitespace characters, in order
/// (`str::split_whitespace`).
pub open spec fn words(s: Seq<char>) -> Seq<Seq<char>>
    decreases s.len(),
{
    if s.len() == 0 {
        Seq::empty()
    } else if is_ws(s[0]) {
        words(s.drop_first())
    } else {
        proof {
            lemma_word_len_bound(s);
        }
        let k = word_len(s) as int;
        seq![s.take(k)] + words(s.skip(k))
    }
}

/// The words of `s`.
pub fn split_words(s: &[char]) -> (r: Vec<Vec<char>>)
    ensures
        r.len() == words(s@).len(),
        forall|i: int| 0 <= i < r.len() ==> #[trigger] r[i]@ == words(s@)[i],
{
    let mut out: Vec<Vec<char>> = Vec::new();
    let ghost mut acc: Seq<Seq<char>> = Seq::empty();
    let mut i: usize = 0;
    assert(s@.skip(0) =~= s@);
    while i < s.len()
        invariant
            i <= s.len(),
            out.len() == acc.len(),
            forall|k: int| 0 <= k < out.len() ==> #[trigger] out[k]@ == acc[k],
            words(s@) == acc + words(s@.skip(i as int)),
        decreases s.len() - i,
    {
        if is_ws_char(s[i]) {
            assert(s@.skip(i as int).drop_first() =~= s@.skip(i + 1));
            i = i + 1;
        } else {
            let start = i;
            assert(s@.skip(start as int)[0] == s@[start as int]);
            i = i + 1;
            assert(s@.skip(start as int).drop_first() =~= s@.skip(i as int));
            while i < s.len() && !is_ws_char(s[i])
                invariant
                    start < i <= s.len(),
                    word_len(s@.skip(start as int)) == (i - start) + word_len(s@.skip(i as int)),
                decreases s.len() - i,
            {
                assert(s@.skip(i as int)[0] == s@[i as int]);
                assert(s@.skip(i as int).drop_first() =~= s@.skip(i + 1));
                i = i + 1;
            }
            proof {
                if i < s.len() {
                    assert(s@.skip(i as int)[0] == s@[i as int]);
                }
                assert(word_len(s@.skip(i as int)) == 0);
            }
            let w = sub_chars(s, start, i);
            proof {
                let t = s@.skip(start as int);
                assert(t.take(i - start) =~= s@.subrange(start as int, i as int));
                assert(t.skip(i - start) =~= s@.skip(i as int));
                assert(words(t) == seq![t.take(i - start)] + words(t.skip(i - start)));
                assert(acc + words(t) =~= acc.push(w@) + words(s@.skip(i as int)));
                acc = acc.push(w@);
            }
            out.push(w);
        }
    }
    assert(s@.skip(s.len() as int) =~= Seq::<char>::empty());
    assert(acc + Seq::<Seq<char>>::empty() =~= acc);
    out
}

} // verus!
