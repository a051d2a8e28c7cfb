//! Validation of a rollup tier against its base table: the paired queries
//! that aggregate both over the same time window, and how their rows are
//! matched up.
use vstd::prelude::*;
use crate::rollup::{quoted, strings_view};
use crate::text::{
    chars_eq_str, chars_of, double_char, join_chars, join_spec, push_chars, push_doubled, push_str,
    seqs_view, string_from_chars,
};

verus! {

/// How a validated column compares: numerically, or not at all (a state).
#[derive(Clone, Copy, PartialEq, Eq, Structural, Debug)]
pub enum ColumnKind {
    Numeric,
    Complex,
}

/// What validating a tier comes to.
pub enum ValidationPlan {
    /// The tier has no source definitions.
    NoSources,
    /// None of its formulas can be compared.
    NothingToValidate,
    /// Aggregate the base table and the tier the same way and compare the
    /// listed result columns, in order, after the scope columns.
    Queries { base_sql: String, rollup_sql: String, columns: Vec<(String, ColumnKind)> },
}

/// The aggregates that check one source: over the base table, over the
/// tier, and the result column with its kind; `None` for formulas that are
/// not checked.
pub open spec fn check_of(base: Seq<char>, formula: Seq<char>, mat: Seq<char>) -> Option<(Seq<char>, Seq<char>, Seq<char>, ColumnKind)> {
    if formula == "sum"@ || formula == "count"@ {
        Some(("sum("@ + quoted(base) + ") as "@ + quoted(mat), "sum("@ + quoted(mat) + ") as "@ + quoted(mat), mat, ColumnKind::Numeric))
    } else if formula == "stats"@ {
        Some((
            "spiral_stats("@ + quoted(base) + ") as "@ + quoted(mat),
            "spiral_stats_merge("@ + quoted(mat) + ") as "@ + quoted(mat),
            mat,
            ColumnKind::Complex,
        ))
    } else if formula == "sketch"@ {
        Some((
            "spiral_sketch("@ + quoted(base) + ") as "@ + quoted(mat),
            "spiral_sketch_merge("@ + quoted(mat) + ") as "@ + quoted(mat),
            mat,
            ColumnKind::Complex,
        ))
    } else if formula == "tdigest"@ {
        Some((
            "spiral_tdigest("@ + quoted(base) + ") as "@ + quoted(mat),
            "spiral_tdigest_merge("@ + quoted(mat) + ") as "@ + quoted(mat),
            mat,
            ColumnKind::Complex,
        ))
    } else if formula == "ohlcv"@ {
        let v = mat + "_v"@;
        Some(("sum("@ + quoted(base) + ") as "@ + quoted(v), "sum("@ + quoted(v) + ") as "@ + quoted(v), v, ColumnKind::Numeric))
    } else {
        None
    }
}

/// The base-table aggregates of the checked sources, in order.
pub open spec fn base_aggs_of(sources: Seq<(Seq<char>, Seq<char>, Seq<char>)>) -> Seq<Seq<char>>
    decreases sources.len(),
{
    if sources.len() == 0 {
        Seq::empty()
    } else {
        let prev = base_aggs_of(sources.drop_last());
        let s = sources.last();
        match check_of(s.0, s.1, s.2) {
            Some(c) => prev.push(c.0),
            None => prev,
        }
    }
}

/// The tier aggregates of the checked sources, in order.
pub open spec fn rollup_aggs_of(sources: Seq<(Seq<char>, Seq<char>, Seq<char>)>) -> Seq<Seq<char>>
    decreases sources.len(),
{
    if sources.len() == 0 {
        Seq::empty()
    } else {
        let prev = rollup_aggs_of(sources.drop_last());
        let s = sources.last();
        match check_of(s.0, s.1, s.2) {
            Some(c) => prev.push(c.1),
            None => prev,
        }
    }
}

/// The compared result columns of the checked sources, in order.
pub open spec fn columns_of(sources: Seq<(Seq<char>, Seq<char>, Seq<char>)>) -> Seq<(Seq<char>, ColumnKind)>
    decreases sources.len(),
{
    if sources.len() == 0 {
        Seq::empty()
    } else {
        let prev = columns_of(sources.drop_last());
        let s = sources.last();
        match check_of(s.0, s.1, s.2) {
            Some(c) => prev.push((c.2, c.3)),
            None => prev,
        }
    }
}

/// One aggregate query over `[t_start, t_end)` of a table, grouped by the
/// scope columns when there are any.
pub open spec fn window_query(scope: Seq<Seq<char>>, aggs: Seq<Seq<char>>, table: Seq<char>, t_start: Seq<char>, t_end: Seq<char>) -> Seq<char> {
    let scope_str = join_spec(crate::rollup::quoted_list(scope, false), ", "@);
    let select_scopes = if scope.len() == 0 {
        Seq::empty()
    } else {
        scope_str + ", "@
    };
    let group_by = if scope.len() == 0 {
        Seq::empty()
    } else {
        " GROUP BY "@ + scope_str
    };
    "SELECT "@ + select_scopes + " "@ + join_spec(aggs, ", "@) + " FROM \""@ + double_char(table, '"') + "\" WHERE t >= '"@ + t_start
        + "' AND t < '"@ + t_end + "' "@ + group_by
}

/// The views of the source triples.
pub open spec fn triples_view(v: Seq<(String, String, String)>) -> Seq<(Seq<char>, Seq<char>, Seq<char>)> {
    v.map_values(|t: (String, String, String)| (t.0@, t.1@, t.2@))
}

fn push_q(out: &mut Vec<char>, x: &Vec<char>)
    ensures
        final(out)@ == old(out)@ + quoted(x@),
{
    push_str(out, "\"");
    push_chars(out, x);
    push_str(out, "\"");
    proof {
        assert(final(out)@ =~= old(out)@ + quoted(x@));
    }
}

fn agg_expr(func: &str, arg: &Vec<char>, alias: &Vec<char>) -> (r: Vec<char>)
    ensures
        r@ == func@ + quoted(arg@) + ") as "@ + quoted(alias@),
{
    let mut out: Vec<char> = Vec::new();
    push_str(&mut out, func);
    push_q(&mut out, arg);
    push_str(&mut out, ") as ");
    push_q(&mut out, alias);
    proof {
        assert(out@ =~= func@ + quoted(arg@) + ") as "@ + quoted(alias@));
    }
    out
}

fn dup(v: &Vec<char>) -> (r: Vec<char>)
    ensures
        r@ == v@,
{
    let r = crate::text::slice_chars(v, 0, v.len());
    proof {
        assert(r@ =~= v@);
    }
    r
}

fn check_exec(base: &Vec<char>, formula: &Vec<char>, mat: &Vec<char>) -> (r: Option<(Vec<char>, Vec<char>, Vec<char>, ColumnKind)>)
    ensures
        match r {
            Some(c) => check_of(base@, formula@, mat@) == Some((c.0@, c.1@, c.2@, c.3)),
            None => check_of(base@, formula@, mat@).is_none(),
        },
{
    if chars_eq_str(formula, "sum") || chars_eq_str(formula, "count") {
        Some((agg_expr("sum(", base, mat), agg_expr("sum(", mat, mat), dup(mat), ColumnKind::Numeric))
    } else if chars_eq_str(formula, "stats") {
        Some((agg_expr("spiral_stats(", base, mat), agg_expr("spiral_stats_merge(", mat, mat), dup(mat), ColumnKind::Complex))
    } else if chars_eq_str(formula, "sketch") {
        Some((agg_expr("spiral_sketch(", base, mat), agg_expr("spiral_sketch_merge(", mat, mat), dup(mat), ColumnKind::Complex))
    } else if chars_eq_str(formula, "tdigest") {
        Some((agg_expr("spiral_tdigest(", base, mat), agg_expr("spiral_tdigest_merge(", mat, mat), dup(mat), ColumnKind::Complex))
    } else if chars_eq_str(formula, "ohlcv") {
        let mut v = dup(mat);
        push_str(&mut v, "_v");
        Some((agg_expr("sum(", base, &v), agg_expr("sum(", &v, &v), v, ColumnKind::Numeric))
    } else {
        None
    }
}

/// The view of a list of compared columns.
pub open spec fn columns_view(v: Seq<(String, ColumnKind)>) -> Seq<(Seq<char>, ColumnKind)> {
    v.map_values(|c: (String, ColumnKind)| (c.0@, c.1))
}

fn window_query_exec(scope: &Vec<String>, aggs: &Vec<Vec<char>>, table: &str, t_start: &str, t_end: &str) -> (r: String)
    ensures
        r@ == window_query(strings_view(scope@), seqs_view(aggs@), table@, t_start@, t_end@),
{
    let mut qs: Vec<Vec<char>> = Vec::new();
    crate::rollup::quoted_all(&mut qs, scope, false);
    proof {
        assert(seqs_view(qs@) =~= crate::rollup::quoted_list(strings_view(scope@), false));
    }
    let scope_str = join_chars(&qs, ", ");
    let mut out: Vec<char> = Vec::new();
    push_str(&mut out, "SELECT ");
    if scope.len() > 0 {
        push_chars(&mut out, &scope_str);
        push_str(&mut out, ", ");
    }
    push_str(&mut out, " ");
    let aggs_str = join_chars(aggs, ", ");
    push_chars(&mut out, &aggs_str);
    push_str(&mut out, " FROM \"");
    let tc = chars_of(table);
    push_doubled(&mut out, &tc, '"');
    push_str(&mut out, "\" WHERE t >= '");
    push_str(&mut out, t_start);
    push_str(&mut out, "' AND t < '");
    push_str(&mut out, t_end);
    push_str(&mut out, "' ");
    if scope.len() > 0 {
        push_str(&mut out, " GROUP BY ");
        push_chars(&mut out, &scope_str);
    }
    proof {
        assert(out@ =~= window_query(strings_view(scope@), seqs_view(aggs@), table@, t_start@, t_end@));
    }
    string_from_chars(&out)
}

/// Plans the validation of tier `rollup_view` of `base_view` over the
/// window from `t_start` to `t_end` (timestamps in ISO form), given the
/// tier's scope columns and its `(base column, formula, materialised
/// column)` sources: `sum`/`count` and `ohlcv` volumes compare as numbers,
/// state formulas only as present; other formulas are not checked.
pub fn validation_plan(
    rollup_view: &str,
    base_view: &str,
    scope_columns: &Vec<String>,
    sources: &Vec<(String, String, String)>,
    t_start: &str,
    t_end: &str,
) -> (r: ValidationPlan)
    ensures
        ({
            let sv = triples_view(sources@);
            let scope = strings_view(scope_columns@);
            match r {
                ValidationPlan::NoSources => sv.len() == 0,
                ValidationPlan::NothingToValidate => sv.len() > 0 && base_aggs_of(sv).len() == 0,
                ValidationPlan::Queries { base_sql, rollup_sql, columns } => sv.len() > 0 && base_aggs_of(sv).len() > 0
                    && base_sql@ == window_query(scope, base_aggs_of(sv), base_view@, t_start@, t_end@)
                    && rollup_sql@ == window_query(scope, rollup_aggs_of(sv), rollup_view@, t_start@, t_end@)
                    && columns_view(columns@) == columns_of(sv),
            }
        }),
{
    let ghost sv = triples_view(sources@);
    if sources.len() == 0 {
        return ValidationPlan::NoSources;
    }
    let mut base_aggs: Vec<Vec<char>> = Vec::new();
    let mut rollup_aggs: Vec<Vec<char>> = Vec::new();
    let mut columns: Vec<(String, ColumnKind)> = Vec::new();
    let n = sources.len();
    let mut i: usize = 0;
    proof {
        assert(sv.take(0) =~= Seq::<(Seq<char>, Seq<char>, Seq<char>)>::empty());
        assert(seqs_view(base_aggs@) =~= base_aggs_of(sv.take(0)));
        assert(seqs_view(rollup_aggs@) =~= rollup_aggs_of(sv.take(0)));
        assert(columns_view(columns@) =~= columns_of(sv.take(0)));
    }
    while i < n
        invariant
            n == sources@.len(),
            sv == triples_view(sources@),
            i <= n,
            seqs_view(base_aggs@) == base_aggs_of(sv.take(i as int)),
            seqs_view(rollup_aggs@) == rollup_aggs_of(sv.take(i as int)),
            columns_view(columns@) == columns_of(sv.take(i as int)),
        decreases n - i,
    {
        let b = chars_of(sources[i].0.as_str());
        let f = chars_of(sources[i].1.as_str());
        let m = chars_of(sources[i].2.as_str());
        proof {
            assert(sv.take(i + 1).drop_last() =~= sv.take(i as int));
            assert(sv.take(i + 1).last() == sv[i as int]);
            assert(sv[i as int] == (b@, f@, m@));
        }
        match check_exec(&b, &f, &m) {
            Some((ba, ra, col, kind)) => {
                let c = (string_from_chars(&col), kind);
                proof {
                    assert(seqs_view(base_aggs@.push(ba)) =~= seqs_view(base_aggs@).push(ba@));
                    assert(seqs_view(rollup_aggs@.push(ra)) =~= seqs_view(rollup_aggs@).push(ra@));
                    assert(columns_view(columns@.push(c)) =~= columns_view(columns@).push((col@, kind)));
                }
                base_aggs.push(ba);
                rollup_aggs.push(ra);
                columns.push(c);
            },
            None => {},
        }
        i = i + 1;
    }
    proof {
        assert(sv.take(n as int) =~= sv);
    }
    if base_aggs.len() == 0 {
        return ValidationPlan::NothingToValidate;
    }
    let base_sql = window_query_exec(scope_columns, &base_aggs, base_view, t_start, t_end);
    let rollup_sql = window_query_exec(scope_columns, &rollup_aggs, rollup_view, t_start, t_end);
    ValidationPlan::Queries { base_sql, rollup_sql, columns }
}

/// A scope value as it appears in a row key: the value, or `NULL`.
pub open spec fn key_part(v: Option<Seq<char>>) -> Seq<char> {
    match v {
        Some(s) => s,
        None => "NULL"@,
    }
}

/// The key parts of a row's scope values, in order.
pub open spec fn key_parts(values: Seq<Option<Seq<char>>>) -> Seq<Seq<char>>
    decreases values.len(),
{
    if values.len() == 0 {
        Seq::empty()
    } else {
        key_parts(values.drop_last()).push(key_part(values.last()))
    }
}

/// The key a result row is matched by: `TOTAL` without scope columns, else
/// the scope values joined with `|` (a NULL value reading `NULL`).
pub open spec fn row_key_spec(values: Seq<Option<Seq<char>>>) -> Seq<char> {
    if values.len() == 0 {
        "TOTAL"@
    } else {
        join_spec(key_parts(values), "|"@)
    }
}

/// The views of optional scope values.
pub open spec fn opt_texts(v: Seq<Option<String>>) -> Seq<Option<Seq<char>>> {
    v.map_values(|x: Option<String>| crate::rollup::opt_text(x))
}

/// Builds the key a result row is matched by.
pub fn row_key(values: &Vec<Option<String>>) -> (r: String)
    ensures
        r@ == row_key_spec(opt_texts(values@)),
{
    let ghost vv = opt_texts(values@);
    if values.len() == 0 {
        return string_from_chars(&chars_of("TOTAL"));
    }
    let mut parts: Vec<Vec<char>> = Vec::new();
    let n = values.len();
    let mut i: usize = 0;
    proof {
        assert(vv.take(0) =~= Seq::<Option<Seq<char>>>::empty());
        assert(seqs_view(parts@) =~= key_parts(vv.take(0)));
    }
    while i < n
        invariant
            n == values@.len(),
            vv == opt_texts(values@),
            i <= n,
            seqs_view(parts@) == key_parts(vv.take(i as int)),
        decreases n - i,
    {
        let p = match &values[i] {
            Some(s) => chars_of(s.as_str()),
            None => chars_of("NULL"),
        };
        proof {
            assert(vv[i as int] == crate::rollup::opt_text(values@[i as int]));
            assert(vv.take(i + 1).drop_last() =~= vv.take(i as int));
            assert(seqs_view(parts@.push(p)) =~= seqs_view(parts@).push(p@));
        }
        parts.push(p);
        i = i + 1;
    }
    proof {
        assert(vv.take(n as int) =~= vv);
    }
    string_from_chars(&join_chars(&parts, "|"))
}

/// The keys of `base` that `rollup` lacks, in order: the base rows that
/// report `missing_in_rollup`.
pub open spec fn missing_keys_spec(base: Seq<Seq<char>>, rollup: Seq<Seq<char>>) -> Seq<Seq<char>>
    decreases base.len(),
{
    if base.len() == 0 {
        Seq::empty()
    } else {
        let p = missing_keys_spec(base.drop_last(), rollup);
        if rollup.contains(base.last()) {
            p
        } else {
            p.push(base.last())
        }
    }
}

fn contains_key(keys: &Vec<String>, key: &String) -> (r: bool)
    ensures
        r == strings_view(keys@).contains(key@),
{
    let n = keys.len();
    let mut i: usize = 0;
    while i < n
        invariant
            n == keys@.len(),
            i <= n,
            forall|j: int| 0 <= j < i ==> (#[trigger] keys@[j])@ != key@,
        decreases n - i,
    {
        if keys[i] == *key {
            proof {
                assert(strings_view(keys@)[i as int] == key@);
            }
            return true;
        }
        i = i + 1;
    }
    proof {
        if strings_view(keys@).contains(key@) {
            let j = choose|j: int| 0 <= j < strings_view(keys@).len() && strings_view(keys@)[j] == key@;
            assert(keys@[j]@ == key@);
        }
    }
    false
}

/// The keys of the base-table rows that have no tier row, in the base
/// rows' order.
pub fn missing_keys(base: &Vec<String>, rollup: &Vec<String>) -> (r: Vec<String>)
    ensures
        strings_view(r@) == missing_keys_spec(strings_view(base@), strings_view(rollup@)),
{
    let ghost bv = strings_view(base@);
    let ghost rv = strings_view(rollup@);
    let n = base.len();
    let mut out: Vec<String> = Vec::new();
    let mut i: usize = 0;
    proof {
        assert(bv.take(0) =~= Seq::<Seq<char>>::empty());
        assert(strings_view(out@) =~= Seq::<Seq<char>>::empty());
    }
    while i < n
        invariant
            n == base@.len(),
            bv == strings_view(base@),
            rv == strings_view(rollup@),
            i <= n,
            strings_view(out@) == missing_keys_spec(bv.take(i as int), rv),
        decreases n - i,
    {
        proof {
            assert(bv.take(i + 1).drop_last() =~= bv.take(i as int));
            assert(bv.take(i + 1).last() == base@[i as int]@);
        }
        if !contains_key(rollup, &base[i]) {
            let k = base[i].clone();
            proof {
                assert(strings_view(out@.push(k)) =~= strings_view(out@).push(k@));
            }
            out.push(k);
        }
        i = i + 1;
    }
    proof {
        assert(bv.take(n as int) =~= bv);
    }
    out
}

} // verus!
