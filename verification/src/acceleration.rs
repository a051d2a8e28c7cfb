//! Query acceleration: whether a sliced query is worth rewriting, which
//! columns the rewritten query carries, and the `UNION ALL` over the tiers
//! and the base table that replaces the scanned table.
use vstd::prelude::*;
use crate::catalog::OffsetColumn;
use crate::hooks::{map_agg_inner, map_agg_inner_spec, reconstruction_expr, reconstruction_expr_spec};
use crate::planner::Segment;
use crate::rollup::{quoted, strings_view};
use crate::text::{
    chars_eq, chars_eq_str, chars_of, double_char, int_text, join_chars, join_spec, push_chars,
    push_doubled, push_i64, push_str, seqs_view, string_from_chars,
};

verus! {

/// Code-point lexicographic order on character sequences (the order of
/// `String`s, whose UTF-8 bytes compare the same way).
pub open spec fn lex_lt(a: Seq<char>, b: Seq<char>) -> bool
    decreases a.len(),
{
    if a.len() == 0 {
        b.len() > 0
    } else if b.len() == 0 {
        false
    } else if a[0] != b[0] {
        (a[0] as int) < (b[0] as int)
    } else {
        lex_lt(a.skip(1), b.skip(1))
    }
}

proof fn lemma_lex_irreflexive(a: Seq<char>)
    ensures
        !lex_lt(a, a),
    decreases a.len(),
{
    if a.len() > 0 {
        lemma_lex_irreflexive(a.skip(1));
    }
}

proof fn lemma_lex_total(a: Seq<char>, b: Seq<char>)
    requires
        a != b,
    ensures
        lex_lt(a, b) || lex_lt(b, a),
    decreases a.len(),
{
    if a.len() > 0 && b.len() > 0 && a[0] == b[0] {
        if a.skip(1) == b.skip(1) {
            assert(a =~= seq![a[0]] + a.skip(1));
            assert(b =~= seq![b[0]] + b.skip(1));
        }
        lemma_lex_total(a.skip(1), b.skip(1));
    } else if a.len() == 0 && b.len() == 0 {
        assert(a =~= b);
    }
}

proof fn lemma_lex_asymmetric(a: Seq<char>, b: Seq<char>)
    requires
        lex_lt(a, b),
    ensures
        !lex_lt(b, a),
    decreases a.len(),
{
    if a.len() > 0 && b.len() > 0 && a[0] == b[0] {
        lemma_lex_asymmetric(a.skip(1), b.skip(1));
    }
}

proof fn lemma_lex_transitive(a: Seq<char>, b: Seq<char>, c: Seq<char>)
    requires
        lex_lt(a, b),
        lex_lt(b, c),
    ensures
        lex_lt(a, c),
    decreases a.len(),
{
    if a.len() > 0 && b.len() > 0 && c.len() > 0 && a[0] == b[0] && b[0] == c[0] {
        lemma_lex_transitive(a.skip(1), b.skip(1), c.skip(1));
    }
}

/// Compares two character sequences in code-point lexicographic order.
fn lex_less(a: &Vec<char>, b: &Vec<char>) -> (r: bool)
    ensures
        r == lex_lt(a@, b@),
{
    let n = a.len();
    let m = b.len();
    let mut i: usize = 0;
    proof {
        assert(a@.skip(0) =~= a@);
        assert(b@.skip(0) =~= b@);
    }
    while i < n && i < m && a[i] == b[i]
        invariant
            n == a@.len(),
            m == b@.len(),
            i <= n,
            i <= m,
            lex_lt(a@, b@) == lex_lt(a@.skip(i as int), b@.skip(i as int)),
        decreases n - i,
    {
        proof {
            assert(a@.skip(i as int).skip(1) =~= a@.skip(i + 1));
            assert(b@.skip(i as int).skip(1) =~= b@.skip(i + 1));
            assert(a@.skip(i as int)[0] == a@[i as int]);
            assert(b@.skip(i as int)[0] == b@[i as int]);
        }
        i = i + 1;
    }
    proof {
        if i < n && i < m {
            assert(a@.skip(i as int)[0] == a@[i as int]);
            assert(b@.skip(i as int)[0] == b@[i as int]);
        }
    }
    if i == n {
        proof {
            assert(a@.skip(i as int).len() == 0);
        }
        i < m
    } else if i == m {
        proof {
            assert(b@.skip(i as int).len() == 0);
        }
        false
    } else {
        let x = a[i];
        let y = b[i];
        proof {
            assert(a@.skip(i as int)[0] == x);
            assert(b@.skip(i as int)[0] == y);
            assert(x != y);
        }
        x < y
    }
}

/// The bucket of the first entry named `name`, if any.
pub open spec fn frame_lookup(name: Seq<char>, frames: Seq<(Seq<char>, i32)>) -> Option<i32>
    decreases frames.len(),
{
    if frames.len() == 0 {
        None
    } else {
        match frame_lookup(name, frames.drop_last()) {
            Some(f) => Some(f),
            None => if frames.last().0 == name {
                Some(frames.last().1)
            } else {
                None
            },
        }
    }
}

/// The bucket of a segment's source: 0 for the base table, else the
/// tier's.
pub open spec fn source_frame(base: Seq<char>, name: Seq<char>, frames: Seq<(Seq<char>, i32)>) -> int {
    if name == base {
        0
    } else {
        match frame_lookup(name, frames) {
            Some(f) => f as int,
            None => 0,
        }
    }
}

/// `a` comes before `b` in a rewritten query: coarser buckets first, then
/// by name.
pub open spec fn source_before(base: Seq<char>, frames: Seq<(Seq<char>, i32)>, a: Seq<char>, b: Seq<char>) -> bool {
    let fa = source_frame(base, a, frames);
    let fb = source_frame(base, b, frames);
    fa > fb || (fa == fb && lex_lt(a, b))
}

/// `r` lists the names, each once, coarsest bucket first and by name
/// among equal buckets.
pub open spec fn source_order_ok(
    r: Seq<Seq<char>>,
    base: Seq<char>,
    frames: Seq<(Seq<char>, i32)>,
    names: Seq<Seq<char>>,
) -> bool {
    &&& forall|i: int, j: int| 0 <= i < j < r.len() ==> source_before(base, frames, #[trigger] r[i], #[trigger] r[j])
    &&& forall|x: Seq<char>| r.contains(x) <==> names.contains(x)
}

/// Every source other than the base table has a bucket.
pub open spec fn frames_known(base: Seq<char>, names: Seq<Seq<char>>, frames: Seq<(Seq<char>, i32)>) -> bool {
    forall|i: int| 0 <= i < names.len() && #[trigger] names[i] != base ==> frame_lookup(names[i], frames).is_some()
}

proof fn lemma_before_transitive(base: Seq<char>, frames: Seq<(Seq<char>, i32)>, a: Seq<char>, b: Seq<char>, c: Seq<char>)
    requires
        source_before(base, frames, a, b),
        source_before(base, frames, b, c),
    ensures
        source_before(base, frames, a, c),
{
    if source_frame(base, a, frames) == source_frame(base, b, frames) && source_frame(base, b, frames) == source_frame(
        base,
        c,
        frames,
    ) {
        lemma_lex_transitive(a, b, c);
    }
}

proof fn lemma_before_total(base: Seq<char>, frames: Seq<(Seq<char>, i32)>, a: Seq<char>, b: Seq<char>)
    requires
        a != b,
    ensures
        source_before(base, frames, a, b) || source_before(base, frames, b, a),
{
    lemma_lex_total(a, b);
}

fn frame_of(base: &str, name: &String, frames: &Vec<(String, i32)>) -> (r: i32)
    requires
        name@ != base@ ==> frame_lookup(name@, crate::server::views_view(frames@)).is_some(),
    ensures
        r as int == source_frame(base@, name@, crate::server::views_view(frames@)),
{
    let ghost fv = crate::server::views_view(frames@);
    if chars_eq_str(&chars_of(name.as_str()), base) {
        return 0;
    }
    let n = frames.len();
    let mut i: usize = 0;
    proof {
        assert(fv.take(0) =~= Seq::<(Seq<char>, i32)>::empty());
    }
    while i < n
        invariant
            n == frames@.len(),
            fv == crate::server::views_view(frames@),
            name@ != base@,
            i <= n,
            frame_lookup(name@, fv.take(i as int)).is_none(),
        decreases n - i,
    {
        proof {
            assert(fv.take(i + 1).drop_last() =~= fv.take(i as int));
            assert(fv[i as int] == (frames@[i as int].0@, frames@[i as int].1));
        }
        if frames[i].0 == *name {
            proof {
                assert(frame_lookup(name@, fv.take(i + 1)) == Some(frames@[i as int].1));
                lemma_lookup_prefix(name@, fv, i + 1);
            }
            return frames[i].1;
        }
        i = i + 1;
    }
    proof {
        assert(fv.take(n as int) =~= fv);
    }
    0
}

proof fn lemma_lookup_prefix(name: Seq<char>, v: Seq<(Seq<char>, i32)>, k: int)
    requires
        0 <= k <= v.len(),
        frame_lookup(name, v.take(k)).is_some(),
    ensures
        frame_lookup(name, v) == frame_lookup(name, v.take(k)),
    decreases v.len() - k,
{
    if k < v.len() {
        assert(v.take(k + 1).drop_last() =~= v.take(k));
        lemma_lookup_prefix(name, v, k + 1);
    } else {
        assert(v.take(k) =~= v);
    }
}

fn before_exec(a: &String, fa: i32, b: &String, fb: i32) -> (r: bool)
    ensures
        r == (fa > fb || (fa == fb && lex_lt(a@, b@))),
{
    if fa != fb {
        fa > fb
    } else {
        lex_less(&chars_of(a.as_str()), &chars_of(b.as_str()))
    }
}

/// The distinct names, coarsest bucket first and by name among equal
/// buckets (see `source_order_ok`), each with its bucket.
pub fn order_sources(base: &str, names: &Vec<String>, frames: &Vec<(String, i32)>) -> (r: Vec<(String, i32)>)
    requires
        frames_known(base@, strings_view(names@), crate::server::views_view(frames@)),
    ensures
        source_order_ok(crate::server::views_view(r@).map_values(|p: (Seq<char>, i32)| p.0), base@, crate::server::views_view(frames@), strings_view(names@)),
        forall|i: int| 0 <= i < r@.len() ==> (#[trigger] r@[i]).1 as int == source_frame(base@, r@[i].0@, crate::server::views_view(frames@)),
{
    let ghost fv = crate::server::views_view(frames@);
    let ghost nv = strings_view(names@);
    let mut out: Vec<(String, i32)> = Vec::new();
    let n = names.len();
    let mut i: usize = 0;
    while i < n
        invariant
            n == names@.len(),
            nv == strings_view(names@),
            fv == crate::server::views_view(frames@),
            frames_known(base@, nv, fv),
            i <= n,
            forall|p: int, q: int| 0 <= p < q < out@.len() ==> source_before(base@, fv, #[trigger] out@[p].0@, #[trigger] out@[q].0@),
            forall|p: int| 0 <= p < out@.len() ==> (#[trigger] out@[p]).1 as int == source_frame(base@, out@[p].0@, fv),
            forall|x: Seq<char>| (exists|p: int| 0 <= p < out@.len() && #[trigger] out@[p].0@ == x) <==> #[trigger] nv.take(i as int).contains(x),
        decreases n - i,
    {
        let name = &names[i];
        proof {
            assert(nv[i as int] == name@);
            assert(nv.take(i + 1) =~= nv.take(i as int).push(name@));
        }
        let m = out.len();
        let mut j: usize = 0;
        while j < m && out[j].0 != *name
            invariant
                m == out@.len(),
                j <= m,
                forall|k: int| 0 <= k < j ==> (#[trigger] out@[k]).0@ != name@,
            decreases m - j,
        {
            j = j + 1;
        }
        if j < m {
            proof {
                assert forall|x: Seq<char>| (exists|p: int| 0 <= p < out@.len() && #[trigger] out@[p].0@ == x) <==> #[trigger] nv.take(
                    i + 1,
                ).contains(x) by {
                    if x == name@ {
                        assert(out@[j as int].0@ == x);
                        assert(nv.take(i + 1)[i as int] == x);
                    } else {
                        if nv.take(i + 1).contains(x) {
                            let k = choose|k: int| 0 <= k < nv.take(i + 1).len() && #[trigger] nv.take(i + 1)[k] == x;
                            assert(nv.take(i as int)[k] == x);
                        }
                        if nv.take(i as int).contains(x) {
                            let k = choose|k: int| 0 <= k < nv.take(i as int).len() && #[trigger] nv.take(i as int)[k] == x;
                            assert(nv.take(i + 1)[k] == x);
                        }
                    }
                }
            }
        } else {
            proof {
                if name@ != base@ {
                    assert(nv[i as int] != base@);
                }
            }
            let f = frame_of(base, name, frames);
            let mut pos: usize = 0;
            while pos < m && !before_exec(name, f, &out[pos].0, out[pos].1)
                invariant
                    m == out@.len(),
                    pos <= m,
                    f as int == source_frame(base@, name@, fv),
                    forall|p: int| 0 <= p < out@.len() ==> (#[trigger] out@[p]).1 as int == source_frame(base@, out@[p].0@, fv),
                    forall|k: int| 0 <= k < pos ==> !source_before(base@, fv, name@, #[trigger] out@[k].0@),
                decreases m - pos,
            {
                pos = pos + 1;
            }
            let ghost before = out@;
            let entry = (name.clone(), f);
            out.insert(pos, entry);
            proof {
                assert(out@ == before.insert(pos as int, entry));
                assert forall|k: int| 0 <= k < pos implies source_before(base@, fv, #[trigger] before[k].0@, name@) by {
                    assert(before[k].0@ != name@);
                    lemma_before_total(base@, fv, before[k].0@, name@);
                }
                if pos < m {
                    assert(source_before(base@, fv, name@, before[pos as int].0@));
                }
                assert forall|p: int, q: int| 0 <= p < q < out@.len() implies source_before(
                    base@,
                    fv,
                    #[trigger] out@[p].0@,
                    #[trigger] out@[q].0@,
                ) by {
                    if q < pos {
                        assert(out@[p] == before[p] && out@[q] == before[q]);
                    } else if q == pos {
                        assert(out@[p] == before[p] && out@[q] == entry);
                    } else if p == pos {
                        assert(out@[p] == entry && out@[q] == before[q - 1]);
                        if q - 1 > pos {
                            assert(source_before(base@, fv, before[pos as int].0@, before[q - 1].0@));
                            lemma_before_transitive(base@, fv, name@, before[pos as int].0@, before[q - 1].0@);
                        }
                    } else if p < pos {
                        assert(out@[p] == before[p] && out@[q] == before[q - 1]);
                    } else {
                        assert(out@[p] == before[p - 1] && out@[q] == before[q - 1]);
                    }
                }
                assert forall|p: int| 0 <= p < out@.len() implies (#[trigger] out@[p]).1 as int == source_frame(
                    base@,
                    out@[p].0@,
                    fv,
                ) by {
                    if p < pos {
                        assert(out@[p] == before[p]);
                    } else if p > pos {
                        assert(out@[p] == before[p - 1]);
                    }
                }
                assert forall|x: Seq<char>| (exists|p: int| 0 <= p < out@.len() && #[trigger] out@[p].0@ == x) <==> #[trigger] nv.take(
                    i + 1,
                ).contains(x) by {
                    if x == name@ {
                        assert(out@[pos as int].0@ == x);
                        assert(nv.take(i + 1)[i as int] == x);
                    } else {
                        if exists|p: int| 0 <= p < out@.len() && #[trigger] out@[p].0@ == x {
                            let p = choose|p: int| 0 <= p < out@.len() && #[trigger] out@[p].0@ == x;
                            let pb = if p < pos {
                                p
                            } else {
                                p - 1
                            };
                            assert(before[pb].0@ == x);
                            assert(exists|q: int| 0 <= q < before.len() && #[trigger] before[q].0@ == x);
                            assert(nv.take(i as int).contains(x));
                            let k = choose|k: int| 0 <= k < nv.take(i as int).len() && #[trigger] nv.take(i as int)[k] == x;
                            assert(nv.take(i + 1)[k] == x);
                        }
                        if nv.take(i + 1).contains(x) {
                            let k = choose|k: int| 0 <= k < nv.take(i + 1).len() && #[trigger] nv.take(i + 1)[k] == x;
                            assert(nv.take(i as int)[k] == x);
                            assert(nv.take(i as int).contains(x));
                            assert(exists|q: int| 0 <= q < before.len() && #[trigger] before[q].0@ == x);
                            let p = choose|p: int| 0 <= p < before.len() && #[trigger] before[p].0@ == x;
                            if p < pos {
                                assert(out@[p] == before[p]);
                            } else {
                                assert(out@[p + 1] == before[p]);
                            }
                        }
                    }
                }
            }
        }
        i = i + 1;
    }
    proof {
        assert(nv.take(n as int) =~= nv);
        let rv = crate::server::views_view(out@).map_values(|p: (Seq<char>, i32)| p.0);
        assert forall|p: int| 0 <= p < out@.len() implies rv[p] == (#[trigger] out@[p]).0@ by {}
        assert forall|x: Seq<char>| #[trigger] rv.contains(x) <==> nv.contains(x) by {
            if rv.contains(x) {
                let p = choose|p: int| 0 <= p < rv.len() && #[trigger] rv[p] == x;
                assert(out@[p].0@ == x);
            }
            if nv.contains(x) {
                let p = choose|p: int| 0 <= p < out@.len() && #[trigger] out@[p].0@ == x;
                assert(rv[p] == x);
            }
        }
        assert forall|p: int, q: int| 0 <= p < q < rv.len() implies source_before(base@, fv, #[trigger] rv[p], #[trigger] rv[q]) by {
            assert(rv[p] == out@[p].0@ && rv[q] == out@[q].0@);
        }
    }
    out
}

/// The `(formula, materialised column)` a tier stores a base column as: the
/// first catalog row of that tier and column, else no formula and the
/// column itself.
pub open spec fn source_mapping(
    src: Seq<char>,
    col: Seq<char>,
    rows: Seq<(Seq<char>, Seq<char>, Seq<char>, Seq<char>)>,
) -> (Seq<char>, Seq<char>)
    decreases rows.len(),
{
    if rows.len() == 0 {
        (Seq::empty(), col)
    } else if rows[0].0 == src && rows[0].1 == col {
        (rows[0].2, rows[0].3)
    } else {
        source_mapping(src, col, rows.skip(1))
    }
}

/// The formula of the first offset column stored as `col`, if any.
pub open spec fn offset_formula(col: Seq<char>, offsets: Seq<(Seq<char>, Seq<char>)>) -> Option<Seq<char>>
    decreases offsets.len(),
{
    if offsets.len() == 0 {
        None
    } else if offsets[0].0 == col {
        Some(offsets[0].1)
    } else {
        offset_formula(col, offsets.skip(1))
    }
}

/// How a rewritten query reads one column from `src`: offset columns are
/// turned back into times, aggregated columns are read through their
/// state, others as they are.
pub open spec fn column_expr(
    base: Seq<char>,
    src: Seq<char>,
    col: Seq<char>,
    agg: Option<Seq<char>>,
    rows: Seq<(Seq<char>, Seq<char>, Seq<char>, Seq<char>)>,
    offsets: Seq<(Seq<char>, Seq<char>)>,
) -> Seq<char> {
    let rollup = src != base;
    let m = if rollup {
        source_mapping(src, col, rows)
    } else {
        (Seq::empty(), col)
    };
    match offset_formula(col, offsets) {
        Some(f) => reconstruction_expr_spec(m.1, f, rollup),
        None => match agg {
            Some(a) => map_agg_inner_spec(a, m.1, rollup, m.0),
            None => quoted(m.1),
        },
    }
}

/// The select list of one source: its time, then each column under the
/// alias `spiral_col_<i>`.
pub open spec fn select_items(
    base: Seq<char>,
    src: Seq<char>,
    cols: Seq<(Seq<char>, Option<Seq<char>>)>,
    rows: Seq<(Seq<char>, Seq<char>, Seq<char>, Seq<char>)>,
    offsets: Seq<(Seq<char>, Seq<char>)>,
) -> Seq<Seq<char>>
    decreases cols.len(),
{
    if cols.len() == 0 {
        seq!["t::timestamptz"@]
    } else {
        let i = cols.len() - 1;
        select_items(base, src, cols.drop_last(), rows, offsets).push(
            column_expr(base, src, cols[i].0, cols[i].1, rows, offsets) + " AS spiral_col_"@ + int_text(i),
        )
    }
}

/// The `(start, end)` texts of the segments read from `src`, in order.
pub open spec fn source_times(timed: Seq<(Seq<char>, Seq<char>, Seq<char>)>, src: Seq<char>) -> Seq<(Seq<char>, Seq<char>)>
    decreases timed.len(),
{
    if timed.len() == 0 {
        Seq::empty()
    } else {
        let p = source_times(timed.drop_last(), src);
        if timed.last().0 == src {
            p.push((timed.last().1, timed.last().2))
        } else {
            p
        }
    }
}

/// The ranges of a multirange literal.
pub open spec fn range_items(ts: Seq<(Seq<char>, Seq<char>)>) -> Seq<Seq<char>>
    decreases ts.len(),
{
    if ts.len() == 0 {
        Seq::empty()
    } else {
        range_items(ts.drop_last()).push("[\""@ + ts.last().0 + "\", \""@ + ts.last().1 + "\")"@)
    }
}

/// The time predicate of a source read over the given ranges.
pub open spec fn time_predicate(ts: Seq<(Seq<char>, Seq<char>)>) -> Seq<char> {
    if ts.len() == 1 {
        "t >= '"@ + ts[0].0 + "'::timestamptz AND t < '"@ + ts[0].1 + "'::timestamptz"@
    } else {
        "t <@ '{ "@ + join_spec(range_items(ts), ", "@) + " }'::tstzmultirange"@
    }
}

/// The scope predicate: ` AND "col" = 'value'` for each pinned scope value.
pub open spec fn scope_predicate(vals: Seq<(Seq<char>, Seq<char>)>) -> Seq<char>
    decreases vals.len(),
{
    if vals.len() == 0 {
        Seq::empty()
    } else {
        scope_predicate(vals.drop_last()) + " AND \""@ + vals.last().0 + "\" = '"@ + double_char(vals.last().1, '\'') + "'"@
    }
}

/// The select of one source.
pub open spec fn source_select(
    base: Seq<char>,
    src: Seq<char>,
    cols: Seq<(Seq<char>, Option<Seq<char>>)>,
    rows: Seq<(Seq<char>, Seq<char>, Seq<char>, Seq<char>)>,
    offsets: Seq<(Seq<char>, Seq<char>)>,
    timed: Seq<(Seq<char>, Seq<char>, Seq<char>)>,
    vals: Seq<(Seq<char>, Seq<char>)>,
) -> Seq<char> {
    "SELECT "@ + join_spec(select_items(base, src, cols, rows, offsets), ", "@) + " FROM \""@ + src + "\" WHERE "@
        + time_predicate(source_times(timed, src)) + scope_predicate(vals)
}

/// The selects of the ordered sources that read any segment.
pub open spec fn union_parts(
    order: Seq<Seq<char>>,
    base: Seq<char>,
    cols: Seq<(Seq<char>, Option<Seq<char>>)>,
    rows: Seq<(Seq<char>, Seq<char>, Seq<char>, Seq<char>)>,
    offsets: Seq<(Seq<char>, Seq<char>)>,
    timed: Seq<(Seq<char>, Seq<char>, Seq<char>)>,
    vals: Seq<(Seq<char>, Seq<char>)>,
) -> Seq<Seq<char>>
    decreases order.len(),
{
    if order.len() == 0 {
        Seq::empty()
    } else {
        let p = union_parts(order.drop_last(), base, cols, rows, offsets, timed, vals);
        if source_times(timed, order.last()).len() == 0 {
            p
        } else {
            p.push(source_select(base, order.last(), cols, rows, offsets, timed, vals))
        }
    }
}

/// The views of catalog rows `(view_name, base_column, formula, mat_column)`.
pub open spec fn rows_view(v: Seq<(String, String, String, String)>) -> Seq<(Seq<char>, Seq<char>, Seq<char>, Seq<char>)> {
    v.map_values(|r: (String, String, String, String)| (r.0@, r.1@, r.2@, r.3@))
}

/// The views of offset columns.
pub open spec fn offsets_view(v: Seq<OffsetColumn>) -> Seq<(Seq<char>, Seq<char>)> {
    v.map_values(|o: OffsetColumn| (o.mat_column@, o.formula@))
}

/// The views of query columns `(name, aggregate)`.
pub open spec fn cols_view(v: Seq<(String, Option<String>)>) -> Seq<(Seq<char>, Option<Seq<char>>)> {
    v.map_values(|c: (String, Option<String>)| (c.0@, crate::rollup::opt_text(c.1)))
}

/// The views of string pairs.
pub open spec fn pairs_view(v: Seq<(String, String)>) -> Seq<(Seq<char>, Seq<char>)> {
    v.map_values(|c: (String, String)| (c.0@, c.1@))
}

/// The segments' sources with the texts of their start and end times.
pub open spec fn timed_view(segs: Seq<Segment>, times: Seq<(String, String)>) -> Seq<(Seq<char>, Seq<char>, Seq<char>)> {
    Seq::new(segs.len(), |i: int| (segs[i].source@, times[i].0@, times[i].1@))
}

/// The segments' sources, in order.
pub open spec fn segment_sources(segs: Seq<Segment>) -> Seq<Seq<char>> {
    segs.map_values(|s: Segment| s.source@)
}

fn source_mapping_exec(src: &String, col: &String, rows: &Vec<(String, String, String, String)>) -> (r: (String, String))
    ensures
        (r.0@, r.1@) == source_mapping(src@, col@, rows_view(rows@)),
{
    let ghost rv = rows_view(rows@);
    let n = rows.len();
    let mut i: usize = 0;
    proof {
        assert(rv.skip(0) =~= rv);
    }
    while i < n
        invariant
            n == rows@.len(),
            rv == rows_view(rows@),
            i <= n,
            source_mapping(src@, col@, rv) == source_mapping(src@, col@, rv.skip(i as int)),
        decreases n - i,
    {
        proof {
            assert(rv.skip(i as int)[0] == rv[i as int]);
            assert(rv.skip(i as int).skip(1) =~= rv.skip(i + 1));
            assert(rv[i as int] == (rows@[i as int].0@, rows@[i as int].1@, rows@[i as int].2@, rows@[i as int].3@));
        }
        if rows[i].0 == *src && rows[i].1 == *col {
            return (rows[i].2.clone(), rows[i].3.clone());
        }
        i = i + 1;
    }
    (String::new(), col.clone())
}

fn offset_formula_exec(col: &String, offsets: &Vec<OffsetColumn>) -> (r: Option<String>)
    ensures
        crate::rollup::opt_text(r) == offset_formula(col@, offsets_view(offsets@)),
{
    let ghost ov = offsets_view(offsets@);
    let n = offsets.len();
    let mut i: usize = 0;
    proof {
        assert(ov.skip(0) =~= ov);
    }
    while i < n
        invariant
            n == offsets@.len(),
            ov == offsets_view(offsets@),
            i <= n,
            offset_formula(col@, ov) == offset_formula(col@, ov.skip(i as int)),
        decreases n - i,
    {
        proof {
            assert(ov.skip(i as int)[0] == ov[i as int]);
            assert(ov.skip(i as int).skip(1) =~= ov.skip(i + 1));
            assert(ov[i as int] == (offsets@[i as int].mat_column@, offsets@[i as int].formula@));
        }
        if offsets[i].mat_column == *col {
            return Some(offsets[i].formula.clone());
        }
        i = i + 1;
    }
    None
}

fn column_expr_exec(
    base: &str,
    src: &String,
    col: &String,
    agg: &Option<String>,
    rows: &Vec<(String, String, String, String)>,
    offsets: &Vec<OffsetColumn>,
) -> (r: String)
    ensures
        r@ == column_expr(base@, src@, col@, crate::rollup::opt_text(*agg), rows_view(rows@), offsets_view(offsets@)),
{
    let rollup = !chars_eq_str(&chars_of(src.as_str()), base);
    let (formula, mapped) = if rollup {
        source_mapping_exec(src, col, rows)
    } else {
        (String::new(), col.clone())
    };
    match offset_formula_exec(col, offsets) {
        Some(f) => reconstruction_expr(mapped.as_str(), f.as_str(), rollup),
        None => match agg {
            Some(a) => map_agg_inner(a.as_str(), mapped.as_str(), rollup, formula.as_str()),
            None => {
                let mut q = chars_of("\"");
                push_str(&mut q, mapped.as_str());
                push_str(&mut q, "\"");
                proof {
                    assert(q@ =~= quoted(mapped@));
                }
                string_from_chars(&q)
            },
        },
    }
}

fn select_items_exec(
    base: &str,
    src: &String,
    cols: &Vec<(String, Option<String>)>,
    rows: &Vec<(String, String, String, String)>,
    offsets: &Vec<OffsetColumn>,
) -> (r: Vec<Vec<char>>)
    requires
        cols@.len() < 0x1000_0000,
    ensures
        seqs_view(r@) == select_items(base@, src@, cols_view(cols@), rows_view(rows@), offsets_view(offsets@)),
{
    let ghost cv = cols_view(cols@);
    let mut out: Vec<Vec<char>> = Vec::new();
    out.push(chars_of("t::timestamptz"));
    let n = cols.len();
    let mut i: usize = 0;
    proof {
        assert(cv.take(0) =~= Seq::<(Seq<char>, Option<Seq<char>>)>::empty());
        assert(seqs_view(out@) =~= seq!["t::timestamptz"@]);
    }
    while i < n
        invariant
            n == cols@.len(),
            n < 0x1000_0000,
            cv == cols_view(cols@),
            i <= n,
            seqs_view(out@) == select_items(base@, src@, cv.take(i as int), rows_view(rows@), offsets_view(offsets@)),
        decreases n - i,
    {
        let e = column_expr_exec(base, src, &cols[i].0, &cols[i].1, rows, offsets);
        let mut item = chars_of(e.as_str());
        push_str(&mut item, " AS spiral_col_");
        push_i64(&mut item, i as i64);
        proof {
            assert(cv[i as int] == (cols@[i as int].0@, crate::rollup::opt_text(cols@[i as int].1)));
            assert(cv.take(i + 1).drop_last() =~= cv.take(i as int));
            assert(cv.take(i + 1)[i as int] == cv[i as int]);
            crate::rollup::lemma_seqs_view_push(out@, item);
        }
        out.push(item);
        i = i + 1;
    }
    proof {
        assert(cv.take(n as int) =~= cv);
    }
    out
}

fn source_times_exec(segments: &Vec<Segment>, times: &Vec<(String, String)>, src: &String) -> (r: Vec<(String, String)>)
    requires
        times@.len() == segments@.len(),
    ensures
        pairs_view(r@) == source_times(timed_view(segments@, times@), src@),
{
    let ghost tv = timed_view(segments@, times@);
    let n = segments.len();
    let mut out: Vec<(String, String)> = Vec::new();
    let mut i: usize = 0;
    proof {
        assert(tv.take(0) =~= Seq::<(Seq<char>, Seq<char>, Seq<char>)>::empty());
        assert(pairs_view(out@) =~= Seq::<(Seq<char>, Seq<char>)>::empty());
    }
    while i < n
        invariant
            n == segments@.len(),
            times@.len() == n,
            tv == timed_view(segments@, times@),
            i <= n,
            pairs_view(out@) == source_times(tv.take(i as int), src@),
        decreases n - i,
    {
        proof {
            assert(tv.take(i + 1).drop_last() =~= tv.take(i as int));
            assert(tv.take(i + 1).last() == (segments@[i as int].source@, times@[i as int].0@, times@[i as int].1@));
        }
        if segments[i].source == *src {
            let p = (times[i].0.clone(), times[i].1.clone());
            proof {
                assert(pairs_view(out@.push(p)) =~= pairs_view(out@).push((p.0@, p.1@)));
            }
            out.push(p);
        }
        i = i + 1;
    }
    proof {
        assert(tv.take(n as int) =~= tv);
    }
    out
}

fn time_predicate_exec(ts: &Vec<(String, String)>) -> (r: Vec<char>)
    ensures
        r@ == time_predicate(pairs_view(ts@)),
{
    let ghost pv = pairs_view(ts@);
    if ts.len() == 1 {
        proof {
            assert(pv[0] == (ts@[0].0@, ts@[0].1@));
        }
        let mut v = chars_of("t >= '");
        push_str(&mut v, ts[0].0.as_str());
        push_str(&mut v, "'::timestamptz AND t < '");
        push_str(&mut v, ts[0].1.as_str());
        push_str(&mut v, "'::timestamptz");
        v
    } else {
        let mut items: Vec<Vec<char>> = Vec::new();
        let n = ts.len();
        let mut i: usize = 0;
        proof {
            assert(pv.take(0) =~= Seq::<(Seq<char>, Seq<char>)>::empty());
            assert(seqs_view(items@) =~= Seq::<Seq<char>>::empty());
        }
        while i < n
            invariant
                n == ts@.len(),
                pv == pairs_view(ts@),
                i <= n,
                seqs_view(items@) == range_items(pv.take(i as int)),
            decreases n - i,
        {
            let mut it = chars_of("[\"");
            push_str(&mut it, ts[i].0.as_str());
            push_str(&mut it, "\", \"");
            push_str(&mut it, ts[i].1.as_str());
            push_str(&mut it, "\")");
            proof {
                assert(pv.take(i + 1).drop_last() =~= pv.take(i as int));
                assert(pv.take(i + 1).last() == (ts@[i as int].0@, ts@[i as int].1@));
                crate::rollup::lemma_seqs_view_push(items@, it);
            }
            items.push(it);
            i = i + 1;
        }
        proof {
            assert(pv.take(n as int) =~= pv);
        }
        let mut v = chars_of("t <@ '{ ");
        push_chars(&mut v, &join_chars(&items, ", "));
        push_str(&mut v, " }'::tstzmultirange");
        v
    }
}

fn scope_predicate_exec(vals: &Vec<(String, String)>) -> (r: Vec<char>)
    ensures
        r@ == scope_predicate(pairs_view(vals@)),
{
    let ghost pv = pairs_view(vals@);
    let mut v: Vec<char> = Vec::new();
    let n = vals.len();
    let mut i: usize = 0;
    proof {
        assert(pv.take(0) =~= Seq::<(Seq<char>, Seq<char>)>::empty());
    }
    while i < n
        invariant
            n == vals@.len(),
            pv == pairs_view(vals@),
            i <= n,
            v@ == scope_predicate(pv.take(i as int)),
        decreases n - i,
    {
        proof {
            assert(pv.take(i + 1).drop_last() =~= pv.take(i as int));
            assert(pv.take(i + 1).last() == (vals@[i as int].0@, vals@[i as int].1@));
        }
        push_str(&mut v, " AND \"");
        push_str(&mut v, vals[i].0.as_str());
        push_str(&mut v, "\" = '");
        push_doubled(&mut v, &chars_of(vals[i].1.as_str()), '\'');
        push_str(&mut v, "'");
        i = i + 1;
    }
    proof {
        assert(pv.take(n as int) =~= pv);
    }
    v
}

fn segment_source_names(segments: &Vec<Segment>) -> (r: Vec<String>)
    ensures
        strings_view(r@) == segment_sources(segments@),
{
    let n = segments.len();
    let mut out: Vec<String> = Vec::new();
    let mut i: usize = 0;
    while i < n
        invariant
            n == segments@.len(),
            i <= n,
            strings_view(out@) == segment_sources(segments@.take(i as int)),
        decreases n - i,
    {
        let s = segments[i].source.clone();
        proof {
            assert(s@ == segments@[i as int].source@);
            assert(segment_sources(segments@.take(i + 1)) =~= segment_sources(segments@.take(i as int)).push(s@));
            assert(strings_view(out@.push(s)) =~= strings_view(out@).push(s@));
        }
        out.push(s);
        i = i + 1;
    }
    proof {
        assert(segments@.take(n as int) =~= segments@);
    }
    out
}

/// The query that replaces a scan of `base` over the sliced segments: one
/// select per source that serves a segment, coarsest bucket first (then by
/// name), each reading its time and the columns `cols` over the times it
/// serves and the pinned scope values, joined with `UNION ALL`. `times`
/// holds the text of each segment's start and end; `rows` the catalog's
/// `(tier, base column, formula, stored column)` rows; `frames` each tier's
/// bucket. Also returns the sources in the order they are read.
pub fn union_sql(
    base: &str,
    segments: &Vec<Segment>,
    times: &Vec<(String, String)>,
    cols: &Vec<(String, Option<String>)>,
    offsets: &Vec<OffsetColumn>,
    rows: &Vec<(String, String, String, String)>,
    scope_vals: &Vec<(String, String)>,
    frames: &Vec<(String, i32)>,
) -> (r: (String, Vec<(String, i32)>))
    requires
        times@.len() == segments@.len(),
        cols@.len() < 0x1000_0000,
        frames_known(base@, segment_sources(segments@), crate::server::views_view(frames@)),
    ensures
        ({
            let order = crate::server::views_view(r.1@).map_values(|p: (Seq<char>, i32)| p.0);
            &&& source_order_ok(order, base@, crate::server::views_view(frames@), segment_sources(segments@))
            &&& r.0@ == join_spec(
                union_parts(
                    order,
                    base@,
                    cols_view(cols@),
                    rows_view(rows@),
                    offsets_view(offsets@),
                    timed_view(segments@, times@),
                    pairs_view(scope_vals@),
                ),
                " UNION ALL "@,
            )
        }),
{
    let names = segment_source_names(segments);
    let order = order_sources(base, &names, frames);
    let ghost ov = crate::server::views_view(order@).map_values(|p: (Seq<char>, i32)| p.0);
    let ghost cv = cols_view(cols@);
    let ghost rv = rows_view(rows@);
    let ghost offv = offsets_view(offsets@);
    let ghost tv = timed_view(segments@, times@);
    let ghost sv = pairs_view(scope_vals@);
    let spred = scope_predicate_exec(scope_vals);
    let mut parts: Vec<Vec<char>> = Vec::new();
    let n = order.len();
    let mut i: usize = 0;
    proof {
        assert(ov.take(0) =~= Seq::<Seq<char>>::empty());
        assert(seqs_view(parts@) =~= Seq::<Seq<char>>::empty());
    }
    while i < n
        invariant
            n == order@.len(),
            ov == crate::server::views_view(order@).map_values(|p: (Seq<char>, i32)| p.0),
            times@.len() == segments@.len(),
            cols@.len() < 0x1000_0000,
            cv == cols_view(cols@),
            rv == rows_view(rows@),
            offv == offsets_view(offsets@),
            tv == timed_view(segments@, times@),
            sv == pairs_view(scope_vals@),
            spred@ == scope_predicate(sv),
            i <= n,
            seqs_view(parts@) == union_parts(ov.take(i as int), base@, cv, rv, offv, tv, sv),
        decreases n - i,
    {
        let src = &order[i].0;
        proof {
            assert(ov[i as int] == src@);
            assert(ov.take(i + 1).drop_last() =~= ov.take(i as int));
            assert(ov.take(i + 1).last() == src@);
        }
        let ts = source_times_exec(segments, times, src);
        if ts.len() > 0 {
            let items = select_items_exec(base, src, cols, rows, offsets);
            let mut part = chars_of("SELECT ");
            push_chars(&mut part, &join_chars(&items, ", "));
            push_str(&mut part, " FROM \"");
            push_str(&mut part, src.as_str());
            push_str(&mut part, "\" WHERE ");
            push_chars(&mut part, &time_predicate_exec(&ts));
            push_chars(&mut part, &spred);
            proof {
                assert(part@ == source_select(base@, src@, cv, rv, offv, tv, sv));
                crate::rollup::lemma_seqs_view_push(parts@, part);
            }
            parts.push(part);
        }
        i = i + 1;
    }
    proof {
        assert(ov.take(n as int) =~= ov);
    }
    (string_from_chars(&join_chars(&parts, " UNION ALL ")), order)
}

/// The most segments a rewritten query may have.
pub const MAX_REWRITE_SEGMENTS: usize = 100;

/// Whether a sliced query over `base` is rewritten: it reads some tier
/// (more than one segment, or one that is not the base table) and has at
/// most `MAX_REWRITE_SEGMENTS` segments.
pub fn should_rewrite(base: &str, segments: &Vec<Segment>) -> (r: bool)
    ensures
        r == (segments@.len() > 0 && (segments@.len() > 1 || segments@[0].source@ != base@) && segments@.len()
            <= MAX_REWRITE_SEGMENTS),
{
    let n = segments.len();
    if n == 0 || n > MAX_REWRITE_SEGMENTS {
        return false;
    }
    n > 1 || !chars_eq_str(&chars_of(segments[0].source.as_str()), base)
}

/// The base table's columns other than `t`, each without an aggregate.
pub open spec fn plain_columns(names: Seq<Seq<char>>) -> Seq<(Seq<char>, Option<Seq<char>>)>
    decreases names.len(),
{
    if names.len() == 0 {
        Seq::empty()
    } else {
        let p = plain_columns(names.drop_last());
        if names.last() == "t"@ {
            p
        } else {
            p.push((names.last(), None))
        }
    }
}

/// `acc` with each aggregated query column added that it does not hold yet.
pub open spec fn with_aggregates(
    acc: Seq<(Seq<char>, Option<Seq<char>>)>,
    qc: Seq<(Seq<char>, Option<Seq<char>>)>,
) -> Seq<(Seq<char>, Option<Seq<char>>)>
    decreases qc.len(),
{
    if qc.len() == 0 {
        acc
    } else {
        let p = with_aggregates(acc, qc.drop_last());
        let x = qc.last();
        if x.1.is_some() && !p.contains(x) {
            p.push(x)
        } else {
            p
        }
    }
}

fn same_column(a: &(String, Option<String>), b: &(String, Option<String>)) -> (r: bool)
    ensures
        r == ((a.0@, crate::rollup::opt_text(a.1)) == (b.0@, crate::rollup::opt_text(b.1))),
{
    if a.0 != b.0 {
        return false;
    }
    match (&a.1, &b.1) {
        (Some(x), Some(y)) => *x == *y,
        (None, None) => true,
        _ => false,
    }
}

fn copy_column(c: &(String, Option<String>)) -> (r: (String, Option<String>))
    ensures
        (r.0@, crate::rollup::opt_text(r.1)) == (c.0@, crate::rollup::opt_text(c.1)),
{
    (
        c.0.clone(),
        match &c.1 {
            Some(a) => Some(a.clone()),
            None => None,
        },
    )
}

/// The columns a rewritten query carries: the base table's columns other
/// than `t`, then each aggregated column of the query (when its columns
/// could be read) that is not among them yet.
pub fn query_columns(base_columns: &Vec<String>, query_cols: Option<&Vec<(String, Option<String>)>>) -> (r: Vec<(String, Option<String>)>)
    ensures
        cols_view(r@) == match query_cols {
            Some(q) => with_aggregates(plain_columns(strings_view(base_columns@)), cols_view(q@)),
            None => plain_columns(strings_view(base_columns@)),
        },
{
    let ghost bv = strings_view(base_columns@);
    let mut out: Vec<(String, Option<String>)> = Vec::new();
    let n = base_columns.len();
    let mut i: usize = 0;
    proof {
        assert(bv.take(0) =~= Seq::<Seq<char>>::empty());
        assert(cols_view(out@) =~= Seq::<(Seq<char>, Option<Seq<char>>)>::empty());
    }
    while i < n
        invariant
            n == base_columns@.len(),
            bv == strings_view(base_columns@),
            i <= n,
            cols_view(out@) == plain_columns(bv.take(i as int)),
        decreases n - i,
    {
        proof {
            assert(bv.take(i + 1).drop_last() =~= bv.take(i as int));
            assert(bv.take(i + 1).last() == base_columns@[i as int]@);
        }
        if !chars_eq_str(&chars_of(base_columns[i].as_str()), "t") {
            let c = (base_columns[i].clone(), None);
            proof {
                assert(cols_view(out@.push(c)) =~= cols_view(out@).push((c.0@, None)));
            }
            out.push(c);
        }
        i = i + 1;
    }
    proof {
        assert(bv.take(n as int) =~= bv);
    }
    match query_cols {
        None => out,
        Some(q) => {
            let ghost acc = cols_view(out@);
            let ghost qv = cols_view(q@);
            let m = q.len();
            let mut k: usize = 0;
            proof {
                assert(qv.take(0) =~= Seq::<(Seq<char>, Option<Seq<char>>)>::empty());
            }
            while k < m
                invariant
                    m == q@.len(),
                    qv == cols_view(q@),
                    k <= m,
                    cols_view(out@) == with_aggregates(acc, qv.take(k as int)),
                decreases m - k,
            {
                let x = &q[k];
                proof {
                    assert(qv.take(k + 1).drop_last() =~= qv.take(k as int));
                    assert(qv.take(k + 1).last() == (x.0@, crate::rollup::opt_text(x.1)));
                }
                if x.1.is_some() {
                    let ov = out.len();
                    let mut j: usize = 0;
                    while j < ov && !same_column(&out[j], x)
                        invariant
                            ov == out@.len(),
                            j <= ov,
                            forall|p: int| 0 <= p < j ==> (#[trigger] cols_view(out@)[p]) != (x.0@, crate::rollup::opt_text(x.1)),
                        decreases ov - j,
                    {
                        j = j + 1;
                    }
                    if j == ov {
                        let c = copy_column(x);
                        proof {
                            assert(!cols_view(out@).contains((x.0@, crate::rollup::opt_text(x.1))));
                            assert(cols_view(out@.push(c)) =~= cols_view(out@).push((c.0@, crate::rollup::opt_text(c.1))));
                        }
                        out.push(c);
                    } else {
                        proof {
                            assert(cols_view(out@)[j as int] == (x.0@, crate::rollup::opt_text(x.1)));
                        }
                    }
                }
                k = k + 1;
            }
            proof {
                assert(qv.take(m as int) =~= qv);
            }
            out
        },
    }
}

} // verus!
