//! Decisions of the inspection server that sit between its HTTP handlers and
//! the database: which names may be spliced into SQL, and how query results
//! are folded into the values it reports.
use vstd::prelude::*;
use crate::hooks::{find_sub, find_sub_exec};
use crate::rollup::opt_text;
use crate::text::{
    chars_eq, chars_eq_str, chars_of, int_text, is_ascii_digit, push_chars, push_i64, push_str,
    slice_chars, string_from_chars, trim_chars, trim_spec,
};

verus! {

/// `char::is_ascii_alphanumeric`.
pub open spec fn is_ascii_alnum(c: char) -> bool {
    ('0' <= c && c <= '9') || ('a' <= c && c <= 'z') || ('A' <= c && c <= 'Z')
}

/// A plain SQL identifier: non-empty, ASCII letters, digits and `_` only,
/// not starting with a digit.
pub open spec fn is_valid_identifier(s: Seq<char>) -> bool {
    &&& s.len() > 0
    &&& forall|i: int| 0 <= i < s.len() ==> is_ascii_alnum(#[trigger] s[i]) || s[i] == '_'
    &&& !is_ascii_digit(s[0])
}

/// Tests whether `s` may be spliced into SQL as an unquoted identifier.
pub fn valid_identifier(s: &str) -> (r: bool)
    ensures
        r == is_valid_identifier(s@),
{
    let cs = chars_of(s);
    let n = cs.len();
    if n == 0 {
        return false;
    }
    let mut i: usize = 0;
    while i < n
        invariant
            n == cs@.len(),
            cs@ == s@,
            i <= n,
            forall|j: int| 0 <= j < i ==> is_ascii_alnum(#[trigger] cs@[j]) || cs@[j] == '_',
        decreases n - i,
    {
        let c = cs[i];
        let ok = ('0' <= c && c <= '9') || ('a' <= c && c <= 'z') || ('A' <= c && c <= 'Z') || c == '_';
        if !ok {
            return false;
        }
        i = i + 1;
    }
    let c0 = cs[0];
    !('0' <= c0 && c0 <= '9')
}

/// What `str::to_uppercase` returns for a text (Unicode upper-casing).
pub uninterp spec fn uppercase_of(s: Seq<char>) -> Seq<char>;

/// `str::to_uppercase`.
#[verifier::external_body]
fn to_upper(s: &str) -> (r: String)
    ensures
        r@ == uppercase_of(s@),
{
    s.to_uppercase()
}

/// `s` starts with `p`.
pub open spec fn starts_with(s: Seq<char>, p: Seq<char>) -> bool {
    p.len() <= s.len() && s.take(p.len() as int) == p
}

fn starts_with_exec(s: &Vec<char>, p: &str) -> (r: bool)
    ensures
        r == starts_with(s@, p@),
{
    let pc = chars_of(p);
    if pc.len() > s.len() {
        return false;
    }
    let head = slice_chars(s, 0, pc.len());
    proof {
        assert(head@ =~= s@.take(p@.len() as int));
    }
    chars_eq(&head, &pc)
}

/// The statement an explain request runs: the request trimmed, as it is
/// when it already is an `EXPLAIN`, else wrapped in `EXPLAIN (ANALYZE,
/// BUFFERS)`; `None` (refused) unless it starts, in upper case, with
/// `SELECT`, `WITH` or `EXPLAIN`.
pub open spec fn explain_statement_spec(query: Seq<char>) -> Option<Seq<char>> {
    explain_given(trim_spec(query), uppercase_of(trim_spec(query)))
}

/// The statement an explain request runs (see `explain_statement_spec`),
/// given the trimmed request `t` and its upper-cased form `u`.
pub open spec fn explain_given(t: Seq<char>, u: Seq<char>) -> Option<Seq<char>> {
    if starts_with(u, "EXPLAIN"@) {
        Some(t)
    } else if starts_with(u, "SELECT"@) || starts_with(u, "WITH"@) {
        Some("EXPLAIN (ANALYZE, BUFFERS) "@ + t)
    } else {
        None
    }
}

/// The statement an explain request runs, or `None` when it is refused.
pub fn explain_statement(query: &str) -> (r: Option<String>)
    ensures
        opt_text(r) == explain_statement_spec(query@),
{
    let t = trim_chars(&chars_of(query));
    let ts = string_from_chars(&t);
    let upper = to_upper(ts.as_str());
    explain_for(ts.as_str(), upper.as_str())
}

/// The statement an explain request runs, given the trimmed request and the
/// same text in upper case; `None` when it is refused.
pub fn explain_for(trimmed: &str, upper: &str) -> (r: Option<String>)
    ensures
        opt_text(r) == explain_given(trimmed@, upper@),
{
    let u = chars_of(upper);
    if starts_with_exec(&u, "EXPLAIN") {
        Some(trimmed.to_owned())
    } else if starts_with_exec(&u, "SELECT") || starts_with_exec(&u, "WITH") {
        let mut v = chars_of("EXPLAIN (ANALYZE, BUFFERS) ");
        push_str(&mut v, trimmed);
        Some(string_from_chars(&v))
    } else {
        None
    }
}

/// How a database error is reported.
#[derive(Clone, Copy, PartialEq, Eq, Structural, Debug)]
pub enum DbErrorKind {
    /// Another session held a lock too long; retried on the next poll.
    LockTimeout,
    /// A statement ran past its time limit.
    StatementTimeout,
    /// Anything else.
    Other,
}

/// The kind of a database error, by its message.
pub open spec fn db_error_kind_spec(msg: Seq<char>) -> DbErrorKind {
    if find_sub(msg, "lock timeout"@).is_some() || find_sub(msg, "55P03"@).is_some() {
        DbErrorKind::LockTimeout
    } else if find_sub(msg, "statement timeout"@).is_some() || find_sub(msg, "57014"@).is_some() {
        DbErrorKind::StatementTimeout
    } else {
        DbErrorKind::Other
    }
}

/// Classifies a database error by its message.
pub fn db_error_kind(msg: &str) -> (r: DbErrorKind)
    ensures
        r == db_error_kind_spec(msg@),
{
    let m = chars_of(msg);
    if find_sub_exec(&m, "lock timeout").is_some() || find_sub_exec(&m, "55P03").is_some() {
        DbErrorKind::LockTimeout
    } else if find_sub_exec(&m, "statement timeout").is_some() || find_sub_exec(&m, "57014").is_some() {
        DbErrorKind::StatementTimeout
    } else {
        DbErrorKind::Other
    }
}

/// The number of rows a request may ask for: the default without a limit,
/// never more than the cap.
pub fn clamp_limit(limit: Option<i64>, default: i64, cap: i64) -> (r: i64)
    ensures
        r == (match limit {
            Some(l) => if l < cap {
                l
            } else {
                cap
            },
            None => if default < cap {
                default
            } else {
                cap
            },
        }),
{
    let l = match limit {
        Some(l) => l,
        None => default,
    };
    if l < cap {
        l
    } else {
        cap
    }
}

/// The statement that reads the first and last time stored in block
/// `blkno` of a view.
pub open spec fn block_time_sql_spec(time_col: Seq<char>, view: Seq<char>, blkno: int) -> Seq<char> {
    let part = |order: Seq<char>|
        "(SELECT extract(epoch from \""@ + time_col + "\")::bigint FROM \""@ + view + "\" WHERE ctid >= '("@ + int_text(blkno)
            + ",0)'::tid AND ctid < '("@ + int_text(blkno + 1) + ",0)'::tid ORDER BY \""@ + time_col + "\" "@ + order
            + " LIMIT 1)"@;
    "SELECT \n                "@ + part("ASC"@) + ",\n                "@ + part("DESC"@)
}

fn push_block_part(out: &mut Vec<char>, time_col: &str, view: &str, blkno: i32, order: &str)
    requires
        blkno < i32::MAX,
    ensures
        final(out)@ == old(out)@ + ("(SELECT extract(epoch from \""@ + time_col@ + "\")::bigint FROM \""@ + view@
            + "\" WHERE ctid >= '("@ + int_text(blkno as int) + ",0)'::tid AND ctid < '("@ + int_text(blkno + 1)
            + ",0)'::tid ORDER BY \""@ + time_col@ + "\" "@ + order@ + " LIMIT 1)"@),
{
    let ghost o = out@;
    push_str(out, "(SELECT extract(epoch from \"");
    push_str(out, time_col);
    push_str(out, "\")::bigint FROM \"");
    push_str(out, view);
    push_str(out, "\" WHERE ctid >= '(");
    push_i64(out, blkno as i64);
    push_str(out, ",0)'::tid AND ctid < '(");
    push_i64(out, blkno as i64 + 1);
    push_str(out, ",0)'::tid ORDER BY \"");
    push_str(out, time_col);
    push_str(out, "\" ");
    push_str(out, order);
    push_str(out, " LIMIT 1)");
    proof {
        assert(out@ =~= o + ("(SELECT extract(epoch from \""@ + time_col@ + "\")::bigint FROM \""@ + view@
            + "\" WHERE ctid >= '("@ + int_text(blkno as int) + ",0)'::tid AND ctid < '("@ + int_text(blkno + 1)
            + ",0)'::tid ORDER BY \""@ + time_col@ + "\" "@ + order@ + " LIMIT 1)"@));
    }
}

/// The statement that reads the first and last time stored in block
/// `blkno` of a view (see `block_time_sql_spec`).
pub fn block_time_sql(time_col: &str, view: &str, blkno: i32) -> (r: String)
    requires
        blkno < i32::MAX,
    ensures
        r@ == block_time_sql_spec(time_col@, view@, blkno as int),
{
    let mut v = chars_of("SELECT \n                ");
    push_block_part(&mut v, time_col, view, blkno, "ASC");
    push_str(&mut v, ",\n                ");
    push_block_part(&mut v, time_col, view, blkno, "DESC");
    string_from_chars(&v)
}

/// The statement that lists, per block of a view, the first and last time
/// it holds.
pub fn pagemap_sql(time_col: &str, view: &str) -> (r: String)
    ensures
        r@ == "SELECT (ctid::text::point)[0]::int AS blkno, extract(epoch from min(\""@ + time_col@
            + "\"))::bigint AS t_start, extract(epoch from max(\""@ + time_col@ + "\"))::bigint AS t_end FROM \""@ + view@
            + "\" GROUP BY 1 ORDER BY 1"@,
{
    let mut v = chars_of("SELECT (ctid::text::point)[0]::int AS blkno, extract(epoch from min(\"");
    push_str(&mut v, time_col);
    push_str(&mut v, "\"))::bigint AS t_start, extract(epoch from max(\"");
    push_str(&mut v, time_col);
    push_str(&mut v, "\"))::bigint AS t_end FROM \"");
    push_str(&mut v, view);
    push_str(&mut v, "\" GROUP BY 1 ORDER BY 1");
    string_from_chars(&v)
}

/// The statement that reads a time slice of a view as JSON rows, ordered by
/// time and scope, with the bounds and the row limit as parameters.
pub fn slice_sql(view: &str, time_col: &str, scope_col: &str) -> (r: String)
    ensures
        r@ == "SELECT json_agg(row_to_json(d)) FROM (\n           SELECT *\n           FROM "@ + view@
            + "\n           WHERE "@ + time_col@ + " >= to_timestamp($1)\n             AND "@ + time_col@
            + " < to_timestamp($2)\n           ORDER BY "@ + time_col@ + ", "@ + scope_col@
            + "\n           LIMIT $3\n         ) d"@,
{
    let mut v = chars_of("SELECT json_agg(row_to_json(d)) FROM (\n           SELECT *\n           FROM ");
    push_str(&mut v, view);
    push_str(&mut v, "\n           WHERE ");
    push_str(&mut v, time_col);
    push_str(&mut v, " >= to_timestamp($1)\n             AND ");
    push_str(&mut v, time_col);
    push_str(&mut v, " < to_timestamp($2)\n           ORDER BY ");
    push_str(&mut v, time_col);
    push_str(&mut v, ", ");
    push_str(&mut v, scope_col);
    push_str(&mut v, "\n           LIMIT $3\n         ) d");
    string_from_chars(&v)
}

/// The position of a hierarchy's raw view among its views: the first that
/// is the base table itself or has no bucket.
pub open spec fn raw_view_position(base_view: Seq<char>, views: Seq<(Seq<char>, i32)>) -> Option<int>
    decreases views.len(),
{
    if views.len() == 0 {
        None
    } else {
        match raw_view_position(base_view, views.drop_last()) {
            Some(i) => Some(i),
            None => if views.last().0 == base_view || views.last().1 == 0 {
                Some(views.len() - 1)
            } else {
                None
            },
        }
    }
}

/// The name of a hierarchy's raw view: the first view that is the base
/// table itself or has no bucket, else its first view, else the base
/// table's name.
pub open spec fn raw_view_name_spec(base_view: Seq<char>, views: Seq<(Seq<char>, i32)>) -> Seq<char> {
    match raw_view_position(base_view, views) {
        Some(i) => views[i].0,
        None => if views.len() > 0 {
            views[0].0
        } else {
            base_view
        },
    }
}

/// The views of `(view_name, frame_seconds)` pairs.
pub open spec fn views_view(v: Seq<(String, i32)>) -> Seq<(Seq<char>, i32)> {
    v.map_values(|x: (String, i32)| (x.0@, x.1))
}

/// The name of a hierarchy's raw view (see `raw_view_name_spec`).
pub fn raw_view_name(base_view: &str, views: &Vec<(String, i32)>) -> (r: String)
    ensures
        r@ == raw_view_name_spec(base_view@, views_view(views@)),
{
    let ghost vv = views_view(views@);
    let n = views.len();
    let mut i: usize = 0;
    proof {
        assert(vv.take(0) =~= Seq::<(Seq<char>, i32)>::empty());
    }
    while i < n
        invariant
            n == views@.len(),
            vv == views_view(views@),
            i <= n,
            raw_view_position(base_view@, vv.take(i as int)).is_none(),
        decreases n - i,
    {
        proof {
            assert(vv.take(i + 1).drop_last() =~= vv.take(i as int));
            assert(vv[i as int] == (views@[i as int].0@, views@[i as int].1));
        }
        if chars_eq_str(&chars_of(views[i].0.as_str()), base_view) || views[i].1 == 0 {
            proof {
                lemma_raw_position_prefix(base_view@, vv, i + 1);
            }
            return views[i].0.clone();
        }
        i = i + 1;
    }
    proof {
        assert(vv.take(n as int) =~= vv);
    }
    if n > 0 {
        views[0].0.clone()
    } else {
        base_view.to_owned()
    }
}

proof fn lemma_raw_position_prefix(base_view: Seq<char>, v: Seq<(Seq<char>, i32)>, k: int)
    requires
        0 <= k <= v.len(),
        raw_view_position(base_view, v.take(k)).is_some(),
    ensures
        raw_view_position(base_view, v) == raw_view_position(base_view, v.take(k)),
    decreases v.len() - k,
{
    if k < v.len() {
        assert(v.take(k + 1).drop_last() =~= v.take(k));
        lemma_raw_position_prefix(base_view, v, k + 1);
    } else {
        assert(v.take(k) =~= v);
    }
}

/// What a block's inspection reports from the changelog and its page: the
/// number of pending changelog entries over its time range (0 when it has
/// no time range), whether it is stale, and whether it is a gap page (valid
/// but never written).
pub fn block_flags(t_start: i64, t_end: i64, pending: i32, magic_valid: bool, live_tuples: i64) -> (r: (i32, bool, bool))
    ensures
        r.0 == (if t_start > 0 && t_end > 0 {
            pending
        } else {
            0
        }),
        r.1 == (t_start > 0 && t_end > 0 && pending > 0),
        r.2 == (magic_valid && live_tuples == 0),
{
    let counted = t_start > 0 && t_end > 0;
    let p = if counted {
        pending
    } else {
        0
    };
    (p, counted && pending > 0, magic_valid && live_tuples == 0)
}

} // verus!
