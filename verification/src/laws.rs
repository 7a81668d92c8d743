//! Laws that relate what the library's operations produce to what they are for, stated over
//! the spec functions of their contracts.
use vstd::prelude::*;

use crate::layout::graphviz::{dot_input, dot_quoted, edge_lines, EngineSpec};
use crate::render::focused_graph::slot_at;
use crate::render::router::{count_all, count_in, junction_text, junctions_of, junctions_upto};
use crate::render::router_geom::PointI;
use crate::render::types::LayoutFamily;
use crate::model::Card;
use crate::render::svg::{inches_text, thousandths_of_inch};
use crate::text::{ascii_lower, digit_char, matches_at, nat_digits, trim};
use crate::validation::{deleted, owned, secret_asset, secret_diags, validation_diags, DiagView, DiagnosticSeverity, Registry};

verus! {

/// The columns of a row of `count` cards strictly increase from left to right, so no two cards
/// of a row share a column. Without a reserved center they are consecutive and centered: the
/// first is `-((count - 1) / 2)`. With a reserved center none is 0, and they are consecutive
/// apart from the step over 0.
pub proof fn law_row_slots(count: int, reserve_zero: bool)
    requires
        count >= 0,
    ensures
        forall|i: int, j: int| 0 <= i < j < count ==> #[trigger] slot_at(count, reserve_zero, i) < #[trigger] slot_at(count, reserve_zero, j),
        !reserve_zero && count > 0 ==> slot_at(count, false, 0) == -((count - 1) / 2),
        !reserve_zero ==> forall|i: int| 0 <= i && i + 1 < count ==> #[trigger] slot_at(count, false, i + 1) == slot_at(count, false, i) + 1,
        reserve_zero ==> forall|i: int| 0 <= i < count ==> #[trigger] slot_at(count, true, i) != 0,
        reserve_zero ==> forall|i: int|
            0 <= i && i + 1 < count && slot_at(count, true, i) != -1 ==> #[trigger] slot_at(count, true, i + 1) == slot_at(count, true, i) + 1,
        reserve_zero && count > 0 ==> slot_at(count, true, 0) == if count / 2 > 0 { -(count / 2) } else { 1 },
{
}

/// The DOT text of a statement `"a" -> "b";` for a link from `a` to `b`.
pub open spec fn edge_statement(a: Seq<char>, b: Seq<char>) -> Seq<char> {
    "  "@ + dot_quoted(a) + " -> "@ + dot_quoted(b) + ";\n"@
}

/// `p` occurs somewhere in `s`.
pub open spec fn occurs(s: Seq<char>, p: Seq<char>) -> bool {
    exists|i: int| matches_at(s, p, i)
}

proof fn lemma_edge_lines_prefix(ids: Seq<Seq<char>>, edges: Seq<(usize, usize)>, j: int, m: int)
    requires
        0 <= j <= m,
    ensures
        edge_lines(ids, edges, j).len() <= edge_lines(ids, edges, m).len(),
        edge_lines(ids, edges, m).subrange(0, edge_lines(ids, edges, j).len() as int) == edge_lines(ids, edges, j),
    decreases m - j,
{
    if j < m {
        lemma_edge_lines_prefix(ids, edges, j, m - 1);
        let a = edge_lines(ids, edges, j);
        let b = edge_lines(ids, edges, m - 1);
        let c = edge_lines(ids, edges, m);
        assert(c.subrange(0, b.len() as int) =~= b);
        assert(c.subrange(0, a.len() as int) =~= b.subrange(0, a.len() as int));
    } else {
        assert(edge_lines(ids, edges, m).subrange(0, edge_lines(ids, edges, m).len() as int) =~= edge_lines(ids, edges, m));
    }
}

/// Every link of a layout graph appears in its DOT input, in its own direction: from the id of
/// its source to the id of its target.
pub proof fn law_dot_keeps_edge_direction(
    ids: Seq<Seq<char>>,
    edges: Seq<(usize, usize)>,
    spec: EngineSpec,
    family: LayoutFamily,
    k: int,
)
    requires
        0 <= k < edges.len(),
    ensures
        occurs(dot_input(ids, edges, spec, family), edge_statement(ids[edges[k].0 as int], ids[edges[k].1 as int])),
{
    let n = edges.len() as int;
    let stmt = edge_statement(ids[edges[k].0 as int], ids[edges[k].1 as int]);
    let ek = edge_lines(ids, edges, k);
    let ek1 = edge_lines(ids, edges, k + 1);
    let en = edge_lines(ids, edges, n);
    assert(ek1 =~= ek + stmt);
    lemma_edge_lines_prefix(ids, edges, k + 1, n);
    let s = dot_input(ids, edges, spec, family);
    let head = s.subrange(0, s.len() - en.len() - "}\n"@.len());
    assert(s =~= head + en + "}\n"@);
    let i: int = head.len() as int + ek.len() as int;
    assert(s.subrange(i, i + stmt.len() as int) =~= en.subrange(ek.len() as int, ek1.len() as int));
    assert(en.subrange(ek.len() as int, ek1.len() as int) =~= ek1.subrange(ek.len() as int, ek1.len() as int));
    assert(ek1.subrange(ek.len() as int, ek1.len() as int) =~= stmt);
    assert(matches_at(s, stmt, i));
}

/// Point `p` stands at two different places of the polylines `all`.
pub open spec fn shared_point(all: Seq<Seq<PointI>>, p: PointI) -> bool {
    exists|r1: int, i1: int, r2: int, i2: int|
        0 <= r1 < all.len() && 0 <= i1 < all[r1].len() && 0 <= r2 < all.len() && 0 <= i2 < all[r2].len() && (r1 != r2 || i1
            != i2) && #[trigger] all[r1][i1] == p && #[trigger] all[r2][i2] == p
}

/// Text `t` is the junction id of an inner point of `pts` (before index `e`) that is shared.
pub open spec fn shared_inner_junction(pts: Seq<PointI>, all: Seq<Seq<PointI>>, e: int, t: Seq<char>) -> bool {
    exists|k: int| 1 <= k < e && k < pts.len() && t == junction_text(#[trigger] pts[k]) && shared_point(all, pts[k])
}

proof fn lemma_count_in_place(s: Seq<PointI>, p: PointI)
    ensures
        count_in(s, p) >= 1 ==> exists|i: int| 0 <= i < s.len() && s[i] == p,
        count_in(s, p) >= 2 ==> exists|i: int, j: int| 0 <= i < j < s.len() && s[i] == p && s[j] == p,
    decreases s.len(),
{
    if s.len() > 0 {
        let t = s.drop_last();
        lemma_count_in_place(t, p);
        if count_in(t, p) >= 1 {
            let i = choose|i: int| 0 <= i < t.len() && t[i] == p;
            assert(s[i] == p);
            if s.last() == p {
                assert(s[s.len() - 1] == p);
            }
        }
        if count_in(t, p) >= 2 {
            let (i, j) = choose|i: int, j: int| 0 <= i < j < t.len() && t[i] == p && t[j] == p;
            assert(s[i] == p && s[j] == p);
        }
        if s.last() == p {
            assert(s[s.len() - 1] == p);
        }
    }
}

proof fn lemma_count_all_place(all: Seq<Seq<PointI>>, p: PointI)
    ensures
        count_all(all, p) >= 1 ==> exists|r: int, i: int| 0 <= r < all.len() && 0 <= i < all[r].len() && all[r][i] == p,
        count_all(all, p) >= 2 ==> shared_point(all, p),
    decreases all.len(),
{
    if all.len() > 0 {
        let rest = all.drop_last();
        let last = all.last();
        let lr = all.len() - 1;
        lemma_count_all_place(rest, p);
        lemma_count_in_place(last, p);
        assert(all[lr] == last);
        if count_all(rest, p) >= 1 {
            let (r, i) = choose|r: int, i: int| 0 <= r < rest.len() && 0 <= i < rest[r].len() && rest[r][i] == p;
            assert(all[r] == rest[r]);
            assert(all[r][i] == p);
        }
        if count_in(last, p) >= 1 {
            let i = choose|i: int| 0 <= i < last.len() && last[i] == p;
            assert(all[lr][i] == p);
        }
        if count_all(all, p) >= 2 {
            if count_in(last, p) >= 2 {
                let (i, j) = choose|i: int, j: int| 0 <= i < j < last.len() && last[i] == p && last[j] == p;
                assert(all[lr][i] == p && all[lr][j] == p);
            } else if count_in(last, p) == 1 {
                let i = choose|i: int| 0 <= i < last.len() && last[i] == p;
                let (r, i0) = choose|r: int, i0: int| 0 <= r < rest.len() && 0 <= i0 < rest[r].len() && rest[r][i0] == p;
                assert(all[r] == rest[r]);
                assert(all[r][i0] == p && all[lr][i] == p);
            } else {
                let (r1, i1, r2, i2) = choose|r1: int, i1: int, r2: int, i2: int|
                    0 <= r1 < rest.len() && 0 <= i1 < rest[r1].len() && 0 <= r2 < rest.len() && 0 <= i2 < rest[r2].len() && (r1
                        != r2 || i1 != i2) && #[trigger] rest[r1][i1] == p && #[trigger] rest[r2][i2] == p;
                assert(all[r1] == rest[r1] && all[r2] == rest[r2]);
                assert(all[r1][i1] == p && all[r2][i2] == p);
            }
        }
    }
}

proof fn lemma_junctions_upto_shared(pts: Seq<PointI>, all: Seq<Seq<PointI>>, e: int)
    requires
        e <= pts.len(),
    ensures
        forall|n: int| 0 <= n < junctions_upto(pts, all, e).len() ==> shared_inner_junction(pts, all, e, #[trigger] junctions_upto(pts, all, e)[n]),
    decreases e,
{
    if e > 1 {
        lemma_junctions_upto_shared(pts, all, e - 1);
        let prev = junctions_upto(pts, all, e - 1);
        let cur = junctions_upto(pts, all, e);
        assert forall|n: int| 0 <= n < cur.len() implies shared_inner_junction(pts, all, e, #[trigger] cur[n]) by {
            if n < prev.len() {
                assert(cur[n] == prev[n]);
                assert(shared_inner_junction(pts, all, e - 1, prev[n]));
                let k = choose|k: int| 1 <= k < e - 1 && k < pts.len() && prev[n] == junction_text(#[trigger] pts[k]) && shared_point(all, pts[k]);
                assert(1 <= k < e && prev[n] == junction_text(pts[k]));
            } else {
                lemma_count_all_place(all, pts[e - 1]);
                assert(cur[n] == junction_text(pts[e - 1]));
                assert(shared_point(all, pts[e - 1]));
            }
        }
    }
}

/// Every junction id of a route names an inner point of the route that stands at two different
/// places of the polylines of all routes. So a point used by no other route (nor twice by its
/// own) gets no junction id, and among polylines that share no point there are none at all.
pub proof fn law_junctions_only_at_shared_points(pts: Seq<PointI>, all: Seq<Seq<PointI>>)
    ensures
        forall|n: int|
            0 <= n < junctions_of(pts, all).len() ==> shared_inner_junction(pts, all, pts.len() - 1, #[trigger] junctions_of(pts, all)[n]),
        (forall|p: PointI| !shared_point(all, p)) ==> junctions_of(pts, all).len() == 0,
{
    if pts.len() >= 1 {
        lemma_junctions_upto_shared(pts, all, pts.len() - 1);
    }
    if (forall|p: PointI| !shared_point(all, p)) && junctions_of(pts, all).len() > 0 {
        assert(shared_inner_junction(pts, all, pts.len() - 1, junctions_of(pts, all)[0]));
    }
}

/// A status marks a card deleted exactly when, trimmed, it reads `deleted` in any ASCII case.
pub open spec fn status_deleted(status: Option<String>) -> bool {
    match status {
        Some(s) => ascii_lower(trim(s@)) == "deleted"@,
        None => false,
    }
}

/// The diagnostic for a secret asset without an owner.
pub open spec fn missing_owner_diag(id: Seq<char>) -> DiagView {
    (
        DiagnosticSeverity::Error,
        "SECRET_MISSING_OWNER"@,
        "Secret assets must be owned via an incoming 'owns' relationship"@,
        Some(id),
        None,
    )
}

/// A card counts as deleted exactly when its trimmed status is `Deleted` ignoring ASCII case;
/// any other status, `Active` among them, leaves it in the checks.
pub proof fn law_deleted_means_status_deleted(card: Card)
    ensures
        deleted(card) <==> status_deleted(card.status),
{
    reveal_strlit("Deleted");
    reveal_strlit("deleted");
    assert(ascii_lower("Deleted"@) =~= "deleted"@);
}

proof fn lemma_secret_diags_report(prefix: Seq<Card>, all: Seq<Card>, k: int)
    requires
        0 <= k < prefix.len(),
        secret_asset(prefix[k]),
        !owned(all, prefix[k].id@, false),
        !status_deleted(prefix[k].status),
    ensures
        secret_diags(prefix, all).contains(missing_owner_diag(prefix[k].id@)),
    decreases prefix.len(),
{
    let c = prefix.last();
    let rest = secret_diags(prefix.drop_last(), all);
    law_deleted_means_status_deleted(c);
    if k == prefix.len() - 1 {
        assert(!deleted(c));
        let d = secret_diags(prefix, all);
        assert(d == rest.push(missing_owner_diag(c.id@)));
        assert(d[rest.len() as int] == missing_owner_diag(c.id@));
    } else {
        assert(prefix.drop_last()[k] == prefix[k]);
        lemma_secret_diags_report(prefix.drop_last(), all, k);
        let i = choose|i: int| 0 <= i < rest.len() && rest[i] == missing_owner_diag(prefix[k].id@);
        let d = secret_diags(prefix, all);
        assert(d[i] == rest[i]);
    }
}

/// Validation reports every secret asset that no card owns through an `owns` link, unless its
/// status marks it deleted: a secret asset with status `Active` and no owner always gets
/// `SECRET_MISSING_OWNER`.
pub proof fn law_unowned_secret_reported(cards: Seq<Card>, reg: Registry, k: int)
    requires
        0 <= k < cards.len(),
        secret_asset(cards[k]),
        !owned(cards, cards[k].id@, false),
        !status_deleted(cards[k].status),
    ensures
        validation_diags(cards, reg).contains(missing_owner_diag(cards[k].id@)),
{
    lemma_secret_diags_report(cards, cards, k);
    let sd = secret_diags(cards, cards);
    let i = choose|i: int| 0 <= i < sd.len() && sd[i] == missing_owner_diag(cards[k].id@);
    let v = validation_diags(cards, reg);
    let before = v.subrange(0, v.len() - sd.len() - crate::validation::matrix_diags(cards, reg).len());
    assert(v =~= before + sd + crate::validation::matrix_diags(cards, reg));
    assert(v[before.len() + i] == sd[i]);
}

/// The value of a decimal digit character.
pub open spec fn digit_value(c: char) -> int {
    c as int - '0' as int
}

/// `c` is a decimal digit.
pub open spec fn is_digit(c: char) -> bool {
    '0' <= c <= '9'
}

/// The number a string of decimal digits denotes.
pub open spec fn digits_value(s: Seq<char>) -> int
    decreases s.len(),
{
    if s.len() == 0 {
        0
    } else {
        digits_value(s.drop_last()) * 10 + digit_value(s.last())
    }
}

proof fn lemma_digit_char(d: int)
    requires
        0 <= d < 10,
    ensures
        is_digit(digit_char(d)),
        digit_value(digit_char(d)) == d,
        d != 0 ==> digit_char(d) != '0',
{
    let u = ('0' as u32) + (d as u32);
    assert(u == 48 + d);
    assert((u as u32) as char as int == u);
}

proof fn lemma_nat_digits_value(n: nat)
    ensures
        nat_digits(n).len() >= 1,
        forall|i: int| 0 <= i < nat_digits(n).len() ==> is_digit(#[trigger] nat_digits(n)[i]),
        digits_value(nat_digits(n)) == n,
    decreases n,
{
    let s = nat_digits(n);
    if n < 10 {
        lemma_digit_char(n as int);
        assert(s.drop_last() =~= Seq::<char>::empty());
        assert(digits_value(s) == digits_value(s.drop_last()) * 10 + digit_value(s.last()));
    } else {
        let m = (n / 10) as nat;
        lemma_nat_digits_value(m);
        lemma_digit_char((n % 10) as int);
        assert(s.drop_last() =~= nat_digits(m));
        assert(s.last() == digit_char((n % 10) as int));
        assert(digits_value(s) == m * 10 + (n % 10));
        assert(m * 10 + (n % 10) == n);
        assert forall|i: int| 0 <= i < s.len() implies is_digit(#[trigger] s[i]) by {
            if i < s.len() - 1 {
                assert(s[i] == nat_digits(m)[i]);
            }
        }
    }
}

/// The number of thousandths that a decimal with fraction digits `frac` adds.
pub open spec fn fraction_thousandths(frac: Seq<char>) -> int {
    digits_value(frac) * if frac.len() == 1 {
        100int
    } else if frac.len() == 2 {
        10int
    } else {
        1int
    }
}

/// `text` is `whole`, then `.` and `frac` when there is a fraction, then `in`: digits only,
/// at most three of them after the point, and no trailing zero there.
pub open spec fn inches_reading(text: Seq<char>, whole: Seq<char>, frac: Seq<char>) -> bool {
    &&& whole.len() >= 1
    &&& forall|i: int| 0 <= i < whole.len() ==> is_digit(#[trigger] whole[i])
    &&& forall|i: int| 0 <= i < frac.len() ==> is_digit(#[trigger] frac[i])
    &&& frac.len() <= 3
    &&& frac.len() > 0 ==> frac.last() != '0'
    &&& text == whole + (if frac.len() == 0 { Seq::<char>::empty() } else { seq!['.'] + frac }) + "in"@
}

/// `text` reads as a length in inches of `t` thousandths.
pub open spec fn reads_as_thousandths(text: Seq<char>, t: int) -> bool {
    exists|whole: Seq<char>, frac: Seq<char>|
        #[trigger] inches_reading(text, whole, frac) && digits_value(whole) * 1000 + fraction_thousandths(frac) == t
}

/// The fraction digits of `f` thousandths: three digits with trailing zeros dropped.
proof fn fraction_digits(f: int) -> (frac: Seq<char>)
    requires
        0 <= f < 1000,
    ensures
        forall|i: int| 0 <= i < frac.len() ==> is_digit(#[trigger] frac[i]),
        frac.len() <= 3,
        frac.len() > 0 ==> frac.last() != '0',
        fraction_thousandths(frac) == f,
        frac == (if f == 0 {
            Seq::<char>::empty()
        } else if f % 100 == 0 {
            seq![digit_char(f / 100)]
        } else if f % 10 == 0 {
            seq![digit_char(f / 100), digit_char((f / 10) % 10)]
        } else {
            seq![digit_char(f / 100), digit_char((f / 10) % 10), digit_char(f % 10)]
        }),
{
    lemma_digit_char(f / 100);
    lemma_digit_char((f / 10) % 10);
    lemma_digit_char(f % 10);
    let a = digit_char(f / 100);
    let b = digit_char((f / 10) % 10);
    let c = digit_char(f % 10);
    let e = Seq::<char>::empty();
    lemma_digits_push(e, a);
    lemma_digits_push(e.push(a), b);
    lemma_digits_push(e.push(a).push(b), c);
    assert(digits_value(e) == 0);
    assert(e.push(a) =~= seq![a]);
    assert(e.push(a).push(b) =~= seq![a, b]);
    assert(e.push(a).push(b).push(c) =~= seq![a, b, c]);
    if f == 0 {
        e
    } else if f % 100 == 0 {
        assert(f / 100 != 0);
        assert(fraction_thousandths(seq![a]) == (f / 100) * 100);
        seq![a]
    } else if f % 10 == 0 {
        assert((f / 10) % 10 != 0);
        assert(fraction_thousandths(seq![a, b]) == ((f / 100) * 10 + (f / 10) % 10) * 10);
        seq![a, b]
    } else {
        assert(digits_value(seq![a, b, c]) == ((f / 100) * 10 + (f / 10) % 10) * 10 + f % 10);
        seq![a, b, c]
    }
}

proof fn lemma_digits_push(s: Seq<char>, c: char)
    ensures
        digits_value(s.push(c)) == digits_value(s) * 10 + digit_value(c),
{
    assert(s.push(c).drop_last() =~= s);
}

/// The inches attribute of a pixel length, read as a decimal number of inches, is exactly the
/// length's thousandths of an inch: whole inches, then at most three fraction digits with
/// leading zeros kept and only trailing zeros dropped.
pub proof fn law_inches_text_value(pixels: int)
    ensures
        reads_as_thousandths(inches_text(pixels), thousandths_of_inch(pixels)),
{
    let t = thousandths_of_inch(pixels);
    assert(t >= 0) by {
        assert(crate::render::svg::max_int(pixels, 1) >= 1);
    }
    let tn = t as nat;
    let whole = nat_digits(tn / 1000);
    lemma_nat_digits_value(tn / 1000);
    let f = (tn % 1000) as int;
    let frac = fraction_digits(f);
    assert(digits_value(whole) * 1000 + f == t);
    let text = inches_text(pixels);
    assert(text =~= whole + (if frac.len() == 0 { Seq::<char>::empty() } else { seq!['.'] + frac }) + "in"@);
    assert(inches_reading(text, whole, frac));
}

} // verus!
