//! Decisions of the DDL and planner hooks: the magic comments that declare
//! rollup formulas, which aggregates a rollup can answer and how they read
//! a tier's columns, the type checks of formulas, and the SQL of changelog
//! triggers and reconstruction views.
use vstd::prelude::*;
use crate::rollup::quoted;
use crate::text::{
    chars_eq_str, chars_of, int_text, join_chars, join_spec, parse_i64, parse_i64_spec,
    push_chars, push_i64, push_str, seqs_view, split_spec, string_from_chars, trim_chars,
    trim_spec,
};

verus! {

/// What `str::to_lowercase` returns for a text (Unicode lower-casing).
pub uninterp spec fn lowercase_of(s: Seq<char>) -> Seq<char>;

/// `str::to_lowercase`.
#[verifier::external_body]
pub(crate) fn to_lower(s: &str) -> (r: String)
    ensures
        r@ == lowercase_of(s@),
{
    s.to_lowercase()
}

/// The aggregates a rollup tier can answer, by lower-cased name.
pub open spec fn rollup_aggregate_name(a: Seq<char>) -> bool {
    a == "sum"@ || a == "min"@ || a == "max"@ || a == "count"@ || a == "avg"@ || a == "first"@ || a
        == "last"@ || a == "spiral_stats"@ || a == "spiral_tdigest"@ || a == "spiral_sketch"@ || a
        == "spiral_stats_merge"@ || a == "spiral_tdigest_merge"@ || a == "spiral_sketch_merge"@
}

/// Tests whether a rollup tier can answer the aggregate whose lower-cased
/// name is `lowered`.
pub fn is_rollup_aggregate_name(lowered: &str) -> (r: bool)
    ensures
        r == rollup_aggregate_name(lowered@),
{
    let a = chars_of(lowered);
    chars_eq_str(&a, "sum") || chars_eq_str(&a, "min") || chars_eq_str(&a, "max") || chars_eq_str(&a, "count")
        || chars_eq_str(&a, "avg") || chars_eq_str(&a, "first") || chars_eq_str(&a, "last") || chars_eq_str(
        &a,
        "spiral_stats",
    ) || chars_eq_str(&a, "spiral_tdigest") || chars_eq_str(&a, "spiral_sketch") || chars_eq_str(
        &a,
        "spiral_stats_merge",
    ) || chars_eq_str(&a, "spiral_tdigest_merge") || chars_eq_str(&a, "spiral_sketch_merge")
}

/// Tests whether a rollup tier can answer the aggregate `agg` (any case).
pub fn is_supported_rollup_aggregate(agg: &str) -> (r: bool)
    ensures
        r == rollup_aggregate_name(lowercase_of(agg@)),
{
    let a = to_lower(agg);
    is_rollup_aggregate_name(a.as_str())
}

/// The accumulator of a state formula, if `formula` is one.
pub open spec fn accumulator_of(formula: Seq<char>) -> Option<Seq<char>> {
    if formula == "stats"@ {
        Some("spiral_stats_accum"@)
    } else if formula == "ohlcv"@ {
        Some("spiral_ohlcv_accum"@)
    } else if formula == "tdigest"@ {
        Some("spiral_tdigest_accum"@)
    } else if formula == "sketch"@ {
        Some("spiral_sketch_accum"@)
    } else {
        None
    }
}

/// The state-building aggregates that can be fed raw rows.
pub open spec fn state_aggregate(a: Seq<char>) -> bool {
    a == "spiral_stats"@ || a == "spiral_tdigest"@ || a == "spiral_sketch"@ || a == "spiral_ohlcv"@
}

/// A field of a JSON state, cast: `("col"->>'key')::cast`.
pub open spec fn json_field(col: Seq<char>, key: Seq<char>, cast: Seq<char>) -> Seq<char> {
    "("@ + quoted(col) + "->>'"@ + key + "')::"@ + cast
}

/// The expression an aggregate argument reads in a segment: from raw rows,
/// the state formula's accumulator over the single row (the lower-cased
/// state aggregate's own accumulator when the formula is none), else the
/// column; from a tier, the field of an OHLCV or stats state that the
/// aggregate wants (by the state's field names: `volume`, `high`, `low`,
/// `open`, `close`, `min`, `max`), else the tier's column.
pub open spec fn map_agg_inner_spec(agg: Seq<char>, col: Seq<char>, rollup: bool, formula: Seq<char>) -> Seq<char> {
    map_agg_lowered_spec(lowercase_of(agg), col, rollup, formula)
}

/// The expression an aggregate argument reads in a segment (see
/// `map_agg_inner_spec`), given the aggregate's lower-cased name `a`.
pub open spec fn map_agg_lowered_spec(a: Seq<char>, col: Seq<char>, rollup: bool, formula: Seq<char>) -> Seq<char> {
    if !rollup {
        match accumulator_of(formula) {
            Some(f) => if formula == "ohlcv"@ {
                f + "(NULL, "@ + quoted(col) + ", spiral(t))"@
            } else {
                f + "(NULL, "@ + quoted(col) + ")"@
            },
            None => if state_aggregate(a) {
                a + "_accum(NULL, "@ + quoted(col) + ")"@
            } else {
                quoted(col)
            },
        }
    } else if formula == "ohlcv"@ && a == "sum"@ {
        json_field(col, "volume"@, "float8"@)
    } else if formula == "ohlcv"@ && a == "max"@ {
        json_field(col, "high"@, "float8"@)
    } else if formula == "ohlcv"@ && a == "min"@ {
        json_field(col, "low"@, "float8"@)
    } else if formula == "ohlcv"@ && a == "first"@ {
        json_field(col, "open"@, "float8"@)
    } else if formula == "ohlcv"@ && a == "last"@ {
        json_field(col, "close"@, "float8"@)
    } else if formula == "stats"@ && a == "min"@ {
        json_field(col, "min"@, "numeric"@)
    } else if formula == "stats"@ && a == "max"@ {
        json_field(col, "max"@, "numeric"@)
    } else {
        quoted(col)
    }
}

fn push_quoted_str(out: &mut Vec<char>, x: &str)
    ensures
        final(out)@ == old(out)@ + quoted(x@),
{
    push_str(out, "\"");
    push_str(out, x);
    push_str(out, "\"");
    proof {
        assert(final(out)@ =~= old(out)@ + quoted(x@));
    }
}

fn json_field_exec(col: &str, key: &str, cast: &str) -> (r: String)
    ensures
        r@ == json_field(col@, key@, cast@),
{
    let mut out: Vec<char> = Vec::new();
    push_str(&mut out, "(");
    push_quoted_str(&mut out, col);
    push_str(&mut out, "->>'");
    push_str(&mut out, key);
    push_str(&mut out, "')::");
    push_str(&mut out, cast);
    proof {
        assert(out@ =~= json_field(col@, key@, cast@));
    }
    string_from_chars(&out)
}

/// Builds the expression an aggregate argument reads in a segment.
pub fn map_agg_inner(agg: &str, col: &str, rollup: bool, formula: &str) -> (r: String)
    ensures
        r@ == map_agg_inner_spec(agg@, col@, rollup, formula@),
{
    let a = to_lower(agg);
    map_agg_lowered(a.as_str(), col, rollup, formula)
}

/// Builds the expression an aggregate argument reads in a segment, given the
/// aggregate's lower-cased name.
pub fn map_agg_lowered(lowered: &str, col: &str, rollup: bool, formula: &str) -> (r: String)
    ensures
        r@ == map_agg_lowered_spec(lowered@, col@, rollup, formula@),
{
    let ac = chars_of(lowered);
    let fc = chars_of(formula);
    let mut out: Vec<char> = Vec::new();
    if !rollup {
        let f: Option<&str> = if chars_eq_str(&fc, "stats") {
            Some("spiral_stats_accum")
        } else if chars_eq_str(&fc, "ohlcv") {
            Some("spiral_ohlcv_accum")
        } else if chars_eq_str(&fc, "tdigest") {
            Some("spiral_tdigest_accum")
        } else if chars_eq_str(&fc, "sketch") {
            Some("spiral_sketch_accum")
        } else {
            None
        };
        match f {
            Some(name) => {
                push_str(&mut out, name);
                push_str(&mut out, "(NULL, ");
                push_quoted_str(&mut out, col);
                if chars_eq_str(&fc, "ohlcv") {
                    push_str(&mut out, ", spiral(t))");
                } else {
                    push_str(&mut out, ")");
                }
            },
            None => {
                if chars_eq_str(&ac, "spiral_stats") || chars_eq_str(&ac, "spiral_tdigest")
                    || chars_eq_str(&ac, "spiral_sketch") || chars_eq_str(&ac, "spiral_ohlcv") {
                    push_chars(&mut out, &ac);
                    push_str(&mut out, "_accum(NULL, ");
                    push_quoted_str(&mut out, col);
                    push_str(&mut out, ")");
                } else {
                    push_quoted_str(&mut out, col);
                }
            },
        }
        proof {
            assert(out@ =~= map_agg_lowered_spec(lowered@, col@, rollup, formula@));
        }
        return string_from_chars(&out);
    }
    let ohlcv = chars_eq_str(&fc, "ohlcv");
    let stats = chars_eq_str(&fc, "stats");
    if ohlcv && chars_eq_str(&ac, "sum") {
        json_field_exec(col, "volume", "float8")
    } else if ohlcv && chars_eq_str(&ac, "max") {
        json_field_exec(col, "high", "float8")
    } else if ohlcv && chars_eq_str(&ac, "min") {
        json_field_exec(col, "low", "float8")
    } else if ohlcv && chars_eq_str(&ac, "first") {
        json_field_exec(col, "open", "float8")
    } else if ohlcv && chars_eq_str(&ac, "last") {
        json_field_exec(col, "close", "float8")
    } else if stats && chars_eq_str(&ac, "min") {
        json_field_exec(col, "min", "numeric")
    } else if stats && chars_eq_str(&ac, "max") {
        json_field_exec(col, "max", "numeric")
    } else {
        push_quoted_str(&mut out, col);
        string_from_chars(&out)
    }
}

/// How a column reads in the union of segments: from a tier, an offset
/// column (`range_max_end`, `range_merge`) turns back into a timestamp;
/// every other column is read as itself.
pub open spec fn reconstruction_expr_spec(col: Seq<char>, f: Seq<char>, rollup: bool) -> Seq<char> {
    if rollup && (f == "range_max_end"@ || f == "range_merge"@) {
        "t + make_interval(secs => "@ + quoted(col) + "::double precision) AS "@ + quoted(col)
    } else {
        quoted(col)
    }
}

/// Builds the expression a column reads as in the union of segments.
pub fn reconstruction_expr(col: &str, f: &str, rollup: bool) -> (r: String)
    ensures
        r@ == reconstruction_expr_spec(col@, f@, rollup),
{
    let fc = chars_of(f);
    let mut out: Vec<char> = Vec::new();
    if rollup && (chars_eq_str(&fc, "range_max_end") || chars_eq_str(&fc, "range_merge")) {
        push_str(&mut out, "t + make_interval(secs => ");
        push_quoted_str(&mut out, col);
        push_str(&mut out, "::double precision) AS ");
        push_quoted_str(&mut out, col);
    } else {
        push_quoted_str(&mut out, col);
    }
    proof {
        assert(out@ =~= reconstruction_expr_spec(col@, f@, rollup));
    }
    string_from_chars(&out)
}

/// The index of the first `c` in `s`, if any.
pub open spec fn first_index_of(s: Seq<char>, c: char) -> Option<int>
    decreases s.len(),
{
    if s.len() == 0 {
        None
    } else if s[0] == c {
        Some(0)
    } else {
        match first_index_of(s.skip(1), c) {
            Some(i) => Some(i + 1),
            None => None,
        }
    }
}

pub(crate) fn find_char(v: &Vec<char>, c: char) -> (r: Option<usize>)
    ensures
        match r {
            Some(i) => i < v@.len() && first_index_of(v@, c) == Some(i as int),
            None => first_index_of(v@, c).is_none(),
        },
{
    let n = v.len();
    let mut i: usize = 0;
    proof {
        assert(v@.skip(0) =~= v@);
    }
    while i < n
        invariant
            n == v@.len(),
            i <= n,
            forall|j: int| 0 <= j < i ==> v@[j] != c,
            first_index_of(v@, c) == match first_index_of(v@.skip(i as int), c) {
                Some(k) => Some(k + i),
                None => None,
            },
        decreases n - i,
    {
        if v[i] == c {
            proof {
                assert(v@.skip(i as int)[0] == c);
            }
            return Some(i);
        }
        proof {
            assert(v@.skip(i as int).skip(1) =~= v@.skip(i + 1));
        }
        i = i + 1;
    }
    proof {
        assert(v@.skip(n as int) =~= Seq::<char>::empty());
    }
    None
}

/// A predicate `column = integer` read from a where-clause fragment: the
/// text is trimmed and cut at its first `=`; both sides are trimmed and the
/// right one must parse as an `i64`.
pub open spec fn scope_predicate_spec(wc: Seq<char>) -> Option<(Seq<char>, i64)> {
    let s = trim_spec(wc);
    match first_index_of(s, '=') {
        Some(i) => match parse_i64_spec(trim_spec(s.skip(i + 1))) {
            Some(v) => Some((trim_spec(s.take(i)), v)),
            None => None,
        },
        None => None,
    }
}

/// Reads a `column = integer` predicate.
pub fn parse_scope_predicate(wc: &str) -> (r: Option<(String, i64)>)
    ensures
        match r {
            Some((c, v)) => scope_predicate_spec(wc@) == Some((c@, v)),
            None => scope_predicate_spec(wc@).is_none(),
        },
{
    let s = trim_chars(&chars_of(wc));
    let n = s.len();
    match find_char(&s, '=') {
        Some(i) => {
            let left = crate::text::slice_chars(&s, 0, i);
            let right = crate::text::slice_chars(&s, i + 1, n);
            proof {
                assert(left@ =~= s@.take(i as int));
                assert(right@ =~= s@.skip(i + 1));
            }
            match parse_i64(&trim_chars(&right)) {
                Some(v) => Some((string_from_chars(&trim_chars(&left)), v)),
                None => None,
            }
        },
        None => None,
    }
}

/// The changelog filter for a scope column pinned to a value: only columns
/// that are scope columns of the table get one.
pub open spec fn changelog_scope_filter_spec(col: Seq<char>, val: int, scopes: Seq<Seq<char>>) -> Option<Seq<char>> {
    if scopes.contains(col) {
        Some("AND scope_values @> '{\""@ + col + "\": "@ + int_text(val) + "}'::jsonb"@)
    } else {
        None
    }
}

/// Builds the changelog filter for a scope column pinned to a value.
pub fn build_changelog_scope_filter(col: &str, val: i64, scopes: &Vec<String>) -> (r: Option<String>)
    ensures
        crate::rollup::opt_text(r) == changelog_scope_filter_spec(col@, val as int, crate::rollup::strings_view(scopes@)),
{
    let n = scopes.len();
    let mut i: usize = 0;
    let mut found = false;
    let cc = chars_of(col);
    while i < n
        invariant
            n == scopes@.len(),
            i <= n,
            cc@ == col@,
            found ==> crate::rollup::strings_view(scopes@).contains(col@),
            !found ==> forall|j: int| 0 <= j < i ==> crate::rollup::strings_view(scopes@)[j] != col@,
        decreases n - i,
    {
        let sc = chars_of(scopes[i].as_str());
        if crate::text::chars_eq(&sc, &cc) {
            proof {
                assert(crate::rollup::strings_view(scopes@)[i as int] == col@);
            }
            found = true;
        }
        i = i + 1;
    }
    if !found {
        return None;
    }
    let mut out: Vec<char> = Vec::new();
    push_str(&mut out, "AND scope_values @> '{\"");
    push_str(&mut out, col);
    push_str(&mut out, "\": ");
    push_i64(&mut out, val);
    push_str(&mut out, "}'::jsonb");
    proof {
        assert(out@ =~= "AND scope_values @> '{\""@ + col@ + "\": "@ + int_text(val as int) + "}'::jsonb"@);
    }
    Some(string_from_chars(&out))
}

/// The bucket, in seconds, of a `date_trunc` field a query groups by.
pub open spec fn trunc_field_seconds(field: Option<Seq<char>>) -> Option<i64> {
    match field {
        Some(f) => if f == "second"@ {
            Some(1)
        } else if f == "minute"@ {
            Some(60)
        } else if f == "hour"@ {
            Some(3600)
        } else if f == "day"@ {
            Some(86400)
        } else {
            None
        },
        None => None,
    }
}

/// The bucket of a `date_trunc` field, for the granularity a query groups by.
pub fn date_trunc_granularity_secs(field: Option<&str>) -> (r: Option<i64>)
    ensures
        r == trunc_field_seconds(crate::rollup::opt_str(field)),
{
    match field {
        Some(f) => {
            let c = chars_of(f);
            if chars_eq_str(&c, "second") {
                Some(1)
            } else if chars_eq_str(&c, "minute") {
                Some(60)
            } else if chars_eq_str(&c, "hour") {
                Some(3600)
            } else if chars_eq_str(&c, "day") {
                Some(86400)
            } else {
                None
            }
        },
        None => None,
    }
}

/// The type ids of `int2`, `int4`, `int8`, `float4`, `float8` and `numeric`.
pub open spec fn numeric_type(oid: u32) -> bool {
    oid == 21 || oid == 23 || oid == 20 || oid == 700 || oid == 701 || oid == 1700
}

/// The type id of `timestamptz`.
pub const TIMESTAMPTZ_OID: u32 = 1184;

/// The error a magic comment's formula raises on a column of the given
/// type: aggregating formulas need a numeric column, range formulas a
/// `timestamptz` one (formulas compared in lower case).
pub open spec fn formula_type_error_spec(col: Seq<char>, formula: Seq<char>, type_oid: u32) -> Option<Seq<char>> {
    formula_error_lowered(col, formula, lowercase_of(formula), type_oid)
}

/// The error a formula raises (see `formula_type_error_spec`), given the
/// formula as written and its lower-cased form `f`.
pub open spec fn formula_error_lowered(col: Seq<char>, formula: Seq<char>, f: Seq<char>, type_oid: u32) -> Option<Seq<char>> {
    if (f == "sum"@ || f == "stats"@ || f == "ohlcv"@ || f == "tdigest"@ || f == "sketch"@) && !numeric_type(type_oid) {
        Some("Spiral: formula '"@ + formula + "' on column '"@ + col + "' requires numeric"@)
    } else if (f == "range_max_end"@ || f == "range_merge"@) && type_oid != TIMESTAMPTZ_OID {
        Some("Spiral: formula '"@ + formula + "' on column '"@ + col + "' requires timestamptz"@)
    } else {
        None
    }
}

/// Checks a magic comment's formula against its column's type, returning
/// the error it raises.
pub fn validate_formula_column_type(col: &str, formula: &str, type_oid: u32) -> (r: Option<String>)
    ensures
        crate::rollup::opt_text(r) == formula_type_error_spec(col@, formula@, type_oid),
{
    let f = to_lower(formula);
    formula_type_error(col, formula, f.as_str(), type_oid)
}

/// The error a formula raises on a column of the given type, given the
/// formula as written and in lower case.
pub fn formula_type_error(col: &str, formula: &str, lowered: &str, type_oid: u32) -> (r: Option<String>)
    ensures
        crate::rollup::opt_text(r) == formula_error_lowered(col@, formula@, lowered@, type_oid),
{
    let fc = chars_of(lowered);
    let numeric = type_oid == 21 || type_oid == 23 || type_oid == 20 || type_oid == 700 || type_oid == 701
        || type_oid == 1700;
    let mut out: Vec<char> = Vec::new();
    if (chars_eq_str(&fc, "sum") || chars_eq_str(&fc, "stats") || chars_eq_str(&fc, "ohlcv")
        || chars_eq_str(&fc, "tdigest") || chars_eq_str(&fc, "sketch")) && !numeric {
        push_str(&mut out, "Spiral: formula '");
        push_str(&mut out, formula);
        push_str(&mut out, "' on column '");
        push_str(&mut out, col);
        push_str(&mut out, "' requires numeric");
        proof {
            assert(out@ =~= "Spiral: formula '"@ + formula@ + "' on column '"@ + col@ + "' requires numeric"@);
        }
        return Some(string_from_chars(&out));
    }
    if (chars_eq_str(&fc, "range_max_end") || chars_eq_str(&fc, "range_merge")) && type_oid != TIMESTAMPTZ_OID {
        push_str(&mut out, "Spiral: formula '");
        push_str(&mut out, formula);
        push_str(&mut out, "' on column '");
        push_str(&mut out, col);
        push_str(&mut out, "' requires timestamptz");
        proof {
            assert(out@ =~= "Spiral: formula '"@ + formula@ + "' on column '"@ + col@ + "' requires timestamptz"@);
        }
        return Some(string_from_chars(&out));
    }
    None
}

// ---------------------------------------------------------------------------
// Magic comments
// ---------------------------------------------------------------------------

/// What `regex::Regex::new(pattern)` followed by `captures_iter(text)`
/// gives: `None` when the pattern does not compile, else the successive
/// non-overlapping matches, each as the text of its capture groups 1 and 2
/// (`None` for a group that did not take part in the match).
pub uninterp spec fn regex_group_pairs(pattern: Seq<char>, text: Seq<char>) -> Option<Seq<(Option<Seq<char>>, Option<Seq<char>>)>>;

/// The view of an optional string pair list.
pub open spec fn pairs_view(v: Seq<(Option<String>, Option<String>)>) -> Seq<(Option<Seq<char>>, Option<Seq<char>>)> {
    v.map_values(|p: (Option<String>, Option<String>)| (crate::rollup::opt_text(p.0), crate::rollup::opt_text(p.1)))
}

/// Compiles `pattern` with the `regex` crate and collects capture groups 1
/// and 2 of every match in `text`, in order. The contract names the result
/// only; what the regular expression matches is the crate's.
#[verifier::external_body]
fn regex_captures_1_2(pattern: &str, text: &str) -> (r: Option<Vec<(Option<String>, Option<String>)>>)
    ensures
        match r {
            Some(v) => regex_group_pairs(pattern@, text@) == Some(pairs_view(v@)),
            None => regex_group_pairs(pattern@, text@).is_none(),
        },
{
    let re = regex::Regex::new(pattern).ok()?;
    Some(
        re.captures_iter(text).map(
            |c| (c.get(1).map(|m| m.as_str().to_string()), c.get(2).map(|m| m.as_str().to_string())),
        ).collect(),
    )
}

/// A column definition followed by a `-- Spiral: ...` comment on its line:
/// group 1 is the column's name, group 2 the comment's formulas.
pub const MAGIC_COMMENT_PATTERN: &'static str = "(\\w+)\\s+[\\w\\(\\) ]+,?[ \\t]*--\\s*Spiral:\\s*([^\\n\\r]+)";

/// The first index at which `pat` occurs in `s`.
pub open spec fn find_sub(s: Seq<char>, pat: Seq<char>) -> Option<int>
    decreases s.len(),
{
    if pat.len() <= s.len() && s.take(pat.len() as int) == pat {
        Some(0)
    } else if s.len() == 0 {
        None
    } else {
        match find_sub(s.skip(1), pat) {
            Some(i) => Some(i + 1),
            None => None,
        }
    }
}

pub(crate) fn find_sub_exec(s: &Vec<char>, pat: &str) -> (r: Option<usize>)
    ensures
        match r {
            Some(i) => i + pat@.len() <= s@.len() && find_sub(s@, pat@) == Some(i as int),
            None => find_sub(s@, pat@).is_none(),
        },
{
    let p = chars_of(pat);
    let n = s.len();
    let m = p.len();
    let mut i: usize = 0;
    proof {
        assert(s@.skip(0) =~= s@);
    }
    while i <= n
        invariant
            n == s@.len(),
            m == p@.len(),
            p@ == pat@,
            i <= n,
            find_sub(s@, pat@) == match find_sub(s@.skip(i as int), pat@) {
                Some(k) => Some(k + i),
                None => None,
            },
        decreases n + 1 - i,
    {
        let ghost rest = s@.skip(i as int);
        if m <= n - i {
            let mut j: usize = 0;
            while j < m && s[i + j] == p[j]
                invariant
                    n == s@.len(),
                    m == p@.len(),
                    i + m <= n,
                    j <= m,
                    forall|k: int| 0 <= k < j ==> s@[i + k] == p@[k],
                decreases m - j,
            {
                j = j + 1;
            }
            if j == m {
                proof {
                    assert(rest.take(m as int) =~= p@);
                }
                return Some(i);
            }
            proof {
                assert(rest.take(m as int) != p@) by {
                    assert(rest.take(m as int)[j as int] == s@[i + j]);
                }
            }
        }
        if i == n {
            proof {
                assert(rest.len() == 0);
            }
            return None;
        }
        proof {
            assert(rest.skip(1) =~= s@.skip(i + 1));
        }
        i = i + 1;
    }
    None
}

/// `str::split_whitespace().count() > 1`: two runs of non-white-space
/// characters separated by white space.
pub open spec fn several_words(s: Seq<char>) -> bool {
    exists|i: int, j: int, k: int|
        0 <= i < j < k < s.len() && !crate::text::is_white_space(#[trigger] s[i])
            && crate::text::is_white_space(#[trigger] s[j]) && !crate::text::is_white_space(#[trigger] s[k])
}

fn has_several_words(v: &Vec<char>) -> (r: bool)
    ensures
        r == several_words(v@),
{
    let n = v.len();
    let mut seen_word = false;
    let mut seen_gap = false;
    let mut i: usize = 0;
    let ghost mut wi: int = 0;
    let ghost mut gj: int = 0;
    while i < n
        invariant
            n == v@.len(),
            i <= n,
            seen_word ==> 0 <= wi < i && !crate::text::is_white_space(v@[wi]),
            seen_gap ==> seen_word && wi < gj < i && crate::text::is_white_space(v@[gj]),
            !seen_word ==> forall|a: int| 0 <= a < i ==> crate::text::is_white_space(#[trigger] v@[a]),
            seen_word && !seen_gap ==> forall|a: int| wi <= a < i ==> !crate::text::is_white_space(#[trigger] v@[a]),
            seen_word && !seen_gap ==> forall|a: int| 0 <= a < wi ==> crate::text::is_white_space(#[trigger] v@[a]),
            seen_gap ==> forall|a: int| gj < a < i ==> crate::text::is_white_space(#[trigger] v@[a]),
            !several_words(v@.take(i as int)),
        decreases n - i,
    {
        let ws = crate::text::white_space(v[i]);
        if !ws {
            if seen_gap {
                proof {
                    assert(several_words(v@)) by {
                        assert(!crate::text::is_white_space(v@[wi]) && crate::text::is_white_space(v@[gj]) && !crate::text::is_white_space(v@[i as int]));
                    }
                }
                return true;
            }
            if !seen_word {
                proof {
                    wi = i as int;
                }
            }
            seen_word = true;
        } else if seen_word && !seen_gap {
            seen_gap = true;
            proof {
                gj = i as int;
            }
        }
        proof {
            let t = v@.take(i + 1);
            if several_words(t) {
                let (a, b, c) = choose|a: int, b: int, c: int|
                    0 <= a < b < c < t.len() && !crate::text::is_white_space(#[trigger] t[a])
                        && crate::text::is_white_space(#[trigger] t[b]) && !crate::text::is_white_space(#[trigger] t[c]);
                if c < i {
                    assert(several_words(v@.take(i as int))) by {
                        let u = v@.take(i as int);
                        assert(u[a] == t[a] && u[b] == t[b] && u[c] == t[c]);
                    }
                } else {
                    assert(t[a] == v@[a] && t[b] == v@[b]);
                }
            }
        }
        i = i + 1;
    }
    proof {
        assert(v@.take(n as int) =~= v@);
    }
    false
}

/// The formula and alias of a trimmed comment piece: `f as alias` (or
/// `AS`) names the materialised column.
pub open spec fn piece_parts(p: Seq<char>) -> (Seq<char>, Option<Seq<char>>) {
    match find_sub(p, " as "@) {
        Some(i) => (trim_spec(p.take(i)), Some(trim_spec(p.skip(i + 4)))),
        None => match find_sub(p, " AS "@) {
            Some(i) => (trim_spec(p.take(i)), Some(trim_spec(p.skip(i + 4)))),
            None => (p, None),
        },
    }
}

/// One comma-separated piece of a magic comment, already trimmed: empty
/// pieces and formulas of several words give no entry (the latter are
/// errors, see `piece_error`).
pub open spec fn magic_piece(col: Seq<char>, p: Seq<char>) -> Option<(Seq<char>, Seq<char>, Option<Seq<char>>)> {
    if p.len() == 0 || several_words(piece_parts(p).0) {
        None
    } else {
        Some((col, piece_parts(p).0, piece_parts(p).1))
    }
}

/// The formula of a trimmed piece that is refused: one of several words.
pub open spec fn piece_error(p: Seq<char>) -> Option<Seq<char>> {
    if p.len() > 0 && several_words(piece_parts(p).0) {
        Some(piece_parts(p).0)
    } else {
        None
    }
}

/// The first refused formula among the pieces (each trimmed), if any.
pub open spec fn pieces_error(pieces: Seq<Seq<char>>) -> Option<Seq<char>>
    decreases pieces.len(),
{
    if pieces.len() == 0 {
        None
    } else {
        match pieces_error(pieces.drop_last()) {
            Some(f) => Some(f),
            None => piece_error(trim_spec(pieces.last())),
        }
    }
}

/// The first refused directive of the matched comments, as `(column,
/// formula)`: a piece of a counted match whose formula has several words.
pub open spec fn magic_error(
    caps: Seq<(Option<Seq<char>>, Option<Seq<char>>)>,
    known: Seq<Seq<char>>,
) -> Option<(Seq<char>, Seq<char>)>
    decreases caps.len(),
{
    if caps.len() == 0 {
        None
    } else {
        match magic_error(caps.drop_last(), known) {
            Some(e) => Some(e),
            None => match caps.last() {
                (Some(col), Some(part)) => if known.contains(col) {
                    match pieces_error(split_spec(trim_spec(part), ',')) {
                        Some(f) => Some((col, f)),
                        None => None,
                    }
                } else {
                    None
                },
                _ => None,
            },
        }
    }
}

/// The error raised for a refused directive.
pub open spec fn magic_error_message(col: Seq<char>, formula: Seq<char>) -> Seq<char> {
    "Spiral: formula '"@ + formula + "' on column '"@ + col + "' must be a single word"@
}

/// The entries of the comment pieces, in order.
pub open spec fn magic_pieces(col: Seq<char>, pieces: Seq<Seq<char>>) -> Seq<(Seq<char>, Seq<char>, Option<Seq<char>>)>
    decreases pieces.len(),
{
    if pieces.len() == 0 {
        Seq::empty()
    } else {
        let prev = magic_pieces(col, pieces.drop_last());
        match magic_piece(col, trim_spec(pieces.last())) {
            Some(e) => prev.push(e),
            None => prev,
        }
    }
}

/// The entries of the matched comments, in order: a match counts when both
/// its groups took part and its column is one of the table's.
pub open spec fn magic_entries(
    caps: Seq<(Option<Seq<char>>, Option<Seq<char>>)>,
    known: Seq<Seq<char>>,
) -> Seq<(Seq<char>, Seq<char>, Option<Seq<char>>)>
    decreases caps.len(),
{
    if caps.len() == 0 {
        Seq::empty()
    } else {
        let prev = magic_entries(caps.drop_last(), known);
        match caps.last() {
            (Some(col), Some(part)) => if known.contains(col) {
                prev + magic_pieces(col, split_spec(trim_spec(part), ','))
            } else {
                prev
            },
            _ => prev,
        }
    }
}

/// The view of a list of magic-comment entries.
pub open spec fn entries_view(v: Seq<(String, String, Option<String>)>) -> Seq<(Seq<char>, Seq<char>, Option<Seq<char>>)> {
    v.map_values(|e: (String, String, Option<String>)| (e.0@, e.1@, crate::rollup::opt_text(e.2)))
}

proof fn lemma_entries_view_push(v: Seq<(String, String, Option<String>)>, e: (String, String, Option<String>))
    ensures
        entries_view(v.push(e)) == entries_view(v).push((e.0@, e.1@, crate::rollup::opt_text(e.2))),
{
    assert(entries_view(v.push(e)) =~= entries_view(v).push((e.0@, e.1@, crate::rollup::opt_text(e.2))));
}

/// The view of an optional character vector.
pub open spec fn opt_chars(o: Option<Vec<char>>) -> Option<Seq<char>> {
    match o {
        Some(v) => Some(v@),
        None => None,
    }
}

fn piece_parts_exec(p: &Vec<char>) -> (r: (Vec<char>, Option<Vec<char>>))
    ensures
        r.0@ == piece_parts(p@).0,
        opt_chars(r.1) == piece_parts(p@).1,
{
    proof {
        reveal_strlit(" as ");
        reveal_strlit(" AS ");
    }
    let n = p.len();
    match find_sub_exec(p, " as ") {
        Some(i) => {
            let f = crate::text::slice_chars(p, 0, i);
            let a = crate::text::slice_chars(p, i + 4, n);
            proof {
                assert(f@ =~= p@.take(i as int));
                assert(a@ =~= p@.skip(i + 4));
            }
            (trim_chars(&f), Some(trim_chars(&a)))
        },
        None => match find_sub_exec(p, " AS ") {
            Some(i) => {
                let f = crate::text::slice_chars(p, 0, i);
                let a = crate::text::slice_chars(p, i + 4, n);
                proof {
                    assert(f@ =~= p@.take(i as int));
                    assert(a@ =~= p@.skip(i + 4));
                }
                (trim_chars(&f), Some(trim_chars(&a)))
            },
            None => {
                let f = crate::text::slice_chars(p, 0, n);
                proof {
                    assert(f@ =~= p@);
                }
                (f, None)
            },
        },
    }
}

/// A piece's entry, `Ok(None)` for an empty piece, or `Err` with the
/// refused formula.
fn magic_piece_exec(col: &String, p: &Vec<char>) -> (r: Result<Option<(String, String, Option<String>)>, Vec<char>>)
    ensures
        match r {
            Ok(Some(e)) => piece_error(p@).is_none() && magic_piece(col@, p@) == Some(
                (e.0@, e.1@, crate::rollup::opt_text(e.2)),
            ),
            Ok(None) => piece_error(p@).is_none() && magic_piece(col@, p@).is_none(),
            Err(f) => piece_error(p@) == Some(f@) && magic_piece(col@, p@).is_none(),
        },
{
    if p.len() == 0 {
        return Ok(None);
    }
    let (formula, alias) = piece_parts_exec(p);
    if has_several_words(&formula) {
        return Err(formula);
    }
    let alias_s = match alias {
        Some(a) => Some(string_from_chars(&a)),
        None => None,
    };
    Ok(Some((col.clone(), string_from_chars(&formula), alias_s)))
}

/// Reads the entries of matched magic comments: for each match whose
/// groups both took part and whose column is one of the table's, the
/// comment is trimmed and split at commas, and each trimmed piece that is
/// not empty gives `(column, formula, alias)`. A piece whose formula has
/// several words is refused: the result is then the first such directive
/// as `Err((column, formula))`.
pub fn magic_from_captures(captures: &Vec<(Option<String>, Option<String>)>, known_columns: &Vec<String>) -> (r: Result<
    Vec<(String, String, Option<String>)>,
    (String, String),
>)
    ensures
        match r {
            Ok(v) => magic_error(pairs_view(captures@), crate::rollup::strings_view(known_columns@)).is_none()
                && entries_view(v@) == magic_entries(pairs_view(captures@), crate::rollup::strings_view(known_columns@)),
            Err((c, f)) => magic_error(pairs_view(captures@), crate::rollup::strings_view(known_columns@)) == Some(
                (c@, f@),
            ),
        },
{
    let ghost cv = pairs_view(captures@);
    let ghost known = crate::rollup::strings_view(known_columns@);
    let mut out: Vec<(String, String, Option<String>)> = Vec::new();
    let n = captures.len();
    let mut i: usize = 0;
    proof {
        assert(cv.take(0) =~= Seq::<(Option<Seq<char>>, Option<Seq<char>>)>::empty());
        assert(entries_view(out@) =~= magic_entries(cv.take(0), known));
    }
    while i < n
        invariant
            n == captures@.len(),
            cv == pairs_view(captures@),
            known == crate::rollup::strings_view(known_columns@),
            i <= n,
            magic_error(cv.take(i as int), known).is_none(),
            entries_view(out@) == magic_entries(cv.take(i as int), known),
        decreases n - i,
    {
        proof {
            assert(cv.take(i + 1).drop_last() =~= cv.take(i as int));
            assert(cv.take(i + 1).last() == cv[i as int]);
        }
        match &captures[i] {
            (Some(col), Some(part)) => {
                let mut known_col = false;
                let nk = known_columns.len();
                let mut k: usize = 0;
                while k < nk
                    invariant
                        nk == known_columns@.len(),
                        known == crate::rollup::strings_view(known_columns@),
                        k <= nk,
                        known_col ==> known.contains(col@),
                        !known_col ==> forall|j: int| 0 <= j < k ==> known[j] != col@,
                    decreases nk - k,
                {
                    if known_columns[k] == *col {
                        proof {
                            assert(known[k as int] == col@);
                        }
                        known_col = true;
                    }
                    k = k + 1;
                }
                if known_col {
                    let pc = trim_chars(&chars_of(part.as_str()));
                    let pieces = crate::text::split_chars(&pc, ',');
                    let ghost ps = seqs_view(pieces@);
                    let ghost before = entries_view(out@);
                    let np = pieces.len();
                    let mut j: usize = 0;
                    proof {
                        assert(ps.take(0) =~= Seq::<Seq<char>>::empty());
                        assert(entries_view(out@) =~= before + magic_pieces(col@, ps.take(0)));
                        assert(cv[i as int] == (Some(col@), Some(part@)));
                    }
                    while j < np
                        invariant
                            np == pieces@.len(),
                            ps == seqs_view(pieces@),
                            ps == split_spec(trim_spec(part@), ','),
                            i < n,
                            cv.len() == n,
                            cv == pairs_view(captures@),
                            known == crate::rollup::strings_view(known_columns@),
                            cv.take(i + 1).drop_last() == cv.take(i as int),
                            cv.take(i + 1).last() == (Some(col@), Some(part@)),
                            known.contains(col@),
                            magic_error(cv.take(i as int), known).is_none(),
                            j <= np,
                            pieces_error(ps.take(j as int)).is_none(),
                            entries_view(out@) == before + magic_pieces(col@, ps.take(j as int)),
                        decreases np - j,
                    {
                        let t = trim_chars(&pieces[j]);
                        proof {
                            assert(ps.take(j + 1).drop_last() =~= ps.take(j as int));
                            assert(ps.take(j + 1).last() == pieces@[j as int]@);
                        }
                        match magic_piece_exec(col, &t) {
                            Ok(Some(e)) => {
                                proof {
                                    lemma_entries_view_push(out@, e);
                                }
                                out.push(e);
                            },
                            Ok(None) => {},
                            Err(f) => {
                                proof {
                                    assert(pieces_error(ps.take(j + 1)) == Some(f@));
                                    lemma_pieces_error_prefix(ps, j + 1);
                                    assert(magic_error(cv.take(i + 1), known) == Some((col@, f@)));
                                    lemma_magic_error_prefix(cv, known, i + 1);
                                }
                                return Err((col.clone(), string_from_chars(&f)));
                            },
                        }
                        j = j + 1;
                    }
                    proof {
                        assert(ps.take(np as int) =~= ps);
                        assert(ps =~= split_spec(trim_spec(part@), ','));
                    }
                }
            },
            _ => {},
        }
        i = i + 1;
    }
    proof {
        assert(cv.take(n as int) =~= cv);
    }
    Ok(out)
}

/// The first refused piece of a prefix is the first of the whole.
proof fn lemma_pieces_error_prefix(ps: Seq<Seq<char>>, k: int)
    requires
        0 <= k <= ps.len(),
        pieces_error(ps.take(k)).is_some(),
    ensures
        pieces_error(ps) == pieces_error(ps.take(k)),
    decreases ps.len() - k,
{
    if k < ps.len() {
        assert(ps.take(k + 1).drop_last() =~= ps.take(k));
        lemma_pieces_error_prefix(ps, k + 1);
    } else {
        assert(ps.take(k) =~= ps);
    }
}

/// The first refused directive of a prefix is the first of the whole.
proof fn lemma_magic_error_prefix(cv: Seq<(Option<Seq<char>>, Option<Seq<char>>)>, known: Seq<Seq<char>>, k: int)
    requires
        0 <= k <= cv.len(),
        magic_error(cv.take(k), known).is_some(),
    ensures
        magic_error(cv, known) == magic_error(cv.take(k), known),
    decreases cv.len() - k,
{
    if k < cv.len() {
        assert(cv.take(k + 1).drop_last() =~= cv.take(k));
        lemma_magic_error_prefix(cv, known, k + 1);
    } else {
        assert(cv.take(k) =~= cv);
    }
}

/// Reads the magic comments of a `CREATE TABLE` statement: the columns
/// (among the table's `known_columns`) followed on their line by
/// `-- Spiral: formula [as alias], ...`, as `(column, formula, alias)`
/// entries in order; a formula of several words is refused with an error.
pub fn parse_magic_comments(query_str: &str, known_columns: &Vec<String>) -> (r: Result<
    Vec<(String, String, Option<String>)>,
    String,
>)
    ensures
        match regex_group_pairs(MAGIC_COMMENT_PATTERN@, query_str@) {
            Some(caps) => match magic_error(caps, crate::rollup::strings_view(known_columns@)) {
                Some((c, f)) => r matches Err(m) && m@ == magic_error_message(c, f),
                None => r matches Ok(v) && entries_view(v@) == magic_entries(
                    caps,
                    crate::rollup::strings_view(known_columns@),
                ),
            },
            None => r matches Ok(v) && v@.len() == 0,
        },
{
    match regex_captures_1_2(MAGIC_COMMENT_PATTERN, query_str) {
        Some(caps) => match magic_from_captures(&caps, known_columns) {
            Ok(v) => Ok(v),
            Err((c, f)) => {
                let mut m = chars_of("Spiral: formula '");
                push_str(&mut m, f.as_str());
                push_str(&mut m, "' on column '");
                push_str(&mut m, c.as_str());
                push_str(&mut m, "' must be a single word");
                Err(string_from_chars(&m))
            },
        },
        None => Ok(Vec::new()),
    }
}

/// The field of the OHLCV state an aggregate reads over a tier: `sum`
/// reads the volume, `max` the high, `min` the low, `first` the open and
/// `last` the close.
pub open spec fn ohlcv_field_of(a: Seq<char>) -> Seq<char> {
    if a == "sum"@ {
        "volume"@
    } else if a == "max"@ {
        "high"@
    } else if a == "min"@ {
        "low"@
    } else if a == "first"@ {
        "open"@
    } else {
        "close"@
    }
}

proof fn lemma_json_field_key_injective(col: Seq<char>, k1: Seq<char>, k2: Seq<char>, cast: Seq<char>)
    requires
        json_field(col, k1, cast) == json_field(col, k2, cast),
    ensures
        k1 == k2,
{
    let pre = "("@ + quoted(col) + "->>'"@;
    let suf = "')::"@ + cast;
    let f1 = json_field(col, k1, cast);
    assert(f1 =~= pre + k1 + suf);
    assert(json_field(col, k2, cast) =~= pre + k2 + suf);
    assert(k1.len() == k2.len());
    assert forall|i: int| 0 <= i < k1.len() implies k1[i] == k2[i] by {
        assert((pre + k1 + suf)[pre.len() + i] == k1[i]);
        assert((pre + k2 + suf)[pre.len() + i] == k2[i]);
    }
    assert(k1 =~= k2);
}

/// One of the aggregates an OHLCV state answers.
pub open spec fn ohlcv_aggregate(a: Seq<char>) -> bool {
    a == "sum"@ || a == "max"@ || a == "min"@ || a == "first"@ || a == "last"@
}

/// Law: over an OHLCV tier each of `sum`, `max`, `min`, `first` and `last`
/// reads its own field of the state (volume, high, low, open, close), so
/// two different aggregates never read the same field: `last` reads the
/// bucket's close and `first` its open.
pub proof fn lemma_ohlcv_fields(a: Seq<char>, b: Seq<char>, col: Seq<char>)
    requires
        ohlcv_aggregate(a),
        ohlcv_aggregate(b),
    ensures
        map_agg_lowered_spec(a, col, true, "ohlcv"@) == json_field(col, ohlcv_field_of(a), "float8"@),
        a != b ==> map_agg_lowered_spec(a, col, true, "ohlcv"@) != map_agg_lowered_spec(b, col, true, "ohlcv"@),
        a == "last"@ ==> map_agg_lowered_spec(a, col, true, "ohlcv"@) == json_field(col, "close"@, "float8"@),
        a == "first"@ ==> map_agg_lowered_spec(a, col, true, "ohlcv"@) == json_field(col, "open"@, "float8"@),
{
    reveal_strlit("sum");
    reveal_strlit("max");
    reveal_strlit("min");
    reveal_strlit("first");
    reveal_strlit("last");
    reveal_strlit("ohlcv");
    reveal_strlit("volume");
    reveal_strlit("high");
    reveal_strlit("low");
    reveal_strlit("open");
    reveal_strlit("close");
    assert("sum"@.len() == 3 && "max"@.len() == 3 && "min"@.len() == 3 && "first"@.len() == 5 && "last"@.len() == 4);
    assert("sum"@[0] == 's' && "max"@[0] == 'm' && "min"@[1] == 'i' && "max"@[1] == 'a');
    assert("volume"@.len() == 6 && "high"@.len() == 4 && "low"@.len() == 3 && "open"@.len() == 4 && "close"@.len() == 5);
    assert("high"@[0] == 'h' && "open"@[0] == 'o');
    if a != b {
        assert(ohlcv_field_of(a) != ohlcv_field_of(b));
        if json_field(col, ohlcv_field_of(a), "float8"@) == json_field(col, ohlcv_field_of(b), "float8"@) {
            lemma_json_field_key_injective(col, ohlcv_field_of(a), ohlcv_field_of(b), "float8"@);
        }
    }
}

} // verus!
