//! Incremental refresh of rollup tiers: the `WHERE` clause that pins a
//! refresh to one scope, and the upsert and sparse delete that bring a tier
//! up to date with the changelog.
use vstd::prelude::*;
use crate::hooks::find_sub_exec;
use crate::rollup::{
    lemma_seqs_view_push, opt_str, opt_text, push_int, quoted, quoted_all, quoted_list,
    scope_contains, strings_view,
};
use crate::text::{
    push_i64,
    chars_eq_str, chars_of, double_char, int_text, join_chars, join_spec, push_chars,
    push_doubled, push_str, seqs_view, slice_chars, string_from_chars, trim_chars, trim_spec,
};

verus! {

/// A value of a scope object, as the where clause renders it.
pub enum ScopeValue {
    /// A JSON number, by its JSON text.
    Number(String),
    /// A JSON string.
    Text(String),
    /// A JSON boolean.
    Bool(bool),
    /// Any other JSON value (null, array, object), by its JSON text.
    Other(String),
}

/// The view of a scope value.
pub enum ScopeText {
    Number(Seq<char>),
    Text(Seq<char>),
    Bool(bool),
    Other(Seq<char>),
}

impl View for ScopeValue {
    type V = ScopeText;

    open spec fn view(&self) -> ScopeText {
        match self {
            ScopeValue::Number(s) => ScopeText::Number(s@),
            ScopeValue::Text(s) => ScopeText::Text(s@),
            ScopeValue::Bool(b) => ScopeText::Bool(*b),
            ScopeValue::Other(s) => ScopeText::Other(s@),
        }
    }
}

/// The view of a list of scope entries.
pub open spec fn entries_view(v: Seq<(String, ScopeValue)>) -> Seq<(Seq<char>, ScopeText)> {
    v.map_values(|e: (String, ScopeValue)| (e.0@, e.1@))
}

/// What `serde_json` reads from a text as an object: `None` when the text
/// is not JSON or not an object, else its entries in the map's order, each
/// value classified with its JSON text where it has one.
pub uninterp spec fn json_object_entries(text: Seq<char>) -> Option<Seq<(Seq<char>, ScopeText)>>;

/// Parses `text` with `serde_json::from_str` into a `Value` and, when it is
/// an object, lists its entries (numbers and other non-string values by
/// their JSON text). The contract names the result only.
#[verifier::external_body]
fn parse_json_object(text: &str) -> (r: Option<Vec<(String, ScopeValue)>>)
    ensures
        match r {
            Some(v) => json_object_entries(text@) == Some(entries_view(v@)),
            None => json_object_entries(text@).is_none(),
        },
{
    let val: serde_json::Value = serde_json::from_str(text).ok()?;
    let obj = val.as_object()?;
    Some(obj.iter().map(|(k, v)| (k.clone(), match v {
        serde_json::Value::Number(n) => ScopeValue::Number(n.to_string()),
        serde_json::Value::String(s) => ScopeValue::Text(s.clone()),
        serde_json::Value::Bool(b) => ScopeValue::Bool(*b),
        other => ScopeValue::Other(other.to_string()),
    })).collect())
}

/// The right-hand side a scope value compares with: numbers and booleans
/// as such, anything else as a quoted SQL literal.
pub open spec fn scope_rhs(v: ScopeText) -> Seq<char> {
    match v {
        ScopeText::Number(n) => n,
        ScopeText::Text(s) => "'"@ + double_char(s, '\'') + "'"@,
        ScopeText::Bool(b) => if b {
            "true"@
        } else {
            "false"@
        },
        ScopeText::Other(j) => "'"@ + double_char(j, '\'') + "'"@,
    }
}

/// One equality of a scope where clause.
pub open spec fn scope_clause(k: Seq<char>, v: ScopeText) -> Seq<char> {
    "\""@ + double_char(k, '"') + "\" = "@ + scope_rhs(v)
}

/// The equalities of the entries, in order.
pub open spec fn scope_clauses(entries: Seq<(Seq<char>, ScopeText)>) -> Seq<Seq<char>>
    decreases entries.len(),
{
    if entries.len() == 0 {
        Seq::empty()
    } else {
        scope_clauses(entries.drop_last()).push(scope_clause(entries.last().0, entries.last().1))
    }
}

/// The where clause of a scope object: its equalities joined with `AND`,
/// or `None` for an empty object.
pub open spec fn scope_where_spec(entries: Seq<(Seq<char>, ScopeText)>) -> Option<Seq<char>> {
    if entries.len() == 0 {
        None
    } else {
        Some(join_spec(scope_clauses(entries), " AND "@))
    }
}

/// Builds the where clause of a scope object's entries.
pub fn scope_where_from_entries(entries: &Vec<(String, ScopeValue)>) -> (r: Option<String>)
    ensures
        opt_text(r) == scope_where_spec(entries_view(entries@)),
{
    let ghost ev = entries_view(entries@);
    if entries.len() == 0 {
        return None;
    }
    let mut clauses: Vec<Vec<char>> = Vec::new();
    let n = entries.len();
    let mut i: usize = 0;
    proof {
        assert(ev.take(0) =~= Seq::<(Seq<char>, ScopeText)>::empty());
        assert(seqs_view(clauses@) =~= scope_clauses(ev.take(0)));
    }
    while i < n
        invariant
            n == entries@.len(),
            ev == entries_view(entries@),
            i <= n,
            seqs_view(clauses@) == scope_clauses(ev.take(i as int)),
        decreases n - i,
    {
        let (k, v) = &entries[i];
        let mut c: Vec<char> = Vec::new();
        push_str(&mut c, "\"");
        push_doubled(&mut c, &chars_of(k.as_str()), '"');
        push_str(&mut c, "\" = ");
        match v {
            ScopeValue::Number(nt) => push_str(&mut c, nt.as_str()),
            ScopeValue::Text(s) => {
                push_str(&mut c, "'");
                push_doubled(&mut c, &chars_of(s.as_str()), '\'');
                push_str(&mut c, "'");
            },
            ScopeValue::Bool(b) => {
                if *b {
                    push_str(&mut c, "true");
                } else {
                    push_str(&mut c, "false");
                }
            },
            ScopeValue::Other(j) => {
                push_str(&mut c, "'");
                push_doubled(&mut c, &chars_of(j.as_str()), '\'');
                push_str(&mut c, "'");
            },
        }
        proof {
            assert(ev[i as int] == (k@, v@));
            assert(c@ =~= scope_clause(k@, v@));
            assert(ev.take(i + 1).drop_last() =~= ev.take(i as int));
            assert(seqs_view(clauses@.push(c)) =~= seqs_view(clauses@).push(c@));
        }
        clauses.push(c);
        i = i + 1;
    }
    proof {
        assert(ev.take(n as int) =~= ev);
    }
    Some(string_from_chars(&join_chars(&clauses, " AND ")))
}

/// Turns a scope object such as `{"tenant_id": 42}` into a where clause
/// such as `"tenant_id" = 42`: `None` when the text is not a JSON object or
/// the object is empty.
pub fn scope_json_to_where(scope_json: &str) -> (r: Option<String>)
    ensures
        opt_text(r) == match json_object_entries(scope_json@) {
            Some(entries) => scope_where_spec(entries),
            None => None,
        },
{
    match parse_json_object(scope_json) {
        Some(entries) => scope_where_from_entries(&entries),
        None => None,
    }
}

/// What the catalog knows when a tier is refreshed.
pub struct RefreshTarget {
    /// The tier's bucket size (0 for the base table itself).
    pub frame_seconds: i32,
    /// The tier's parent, `BASE` for a tier over the base table.
    pub parent_view: String,
    /// The base table whose changelog drives the refresh.
    pub base_view: String,
    /// The tier's scope columns.
    pub scope_columns: Vec<String>,
    /// The columns of the tier.
    pub view_columns: Vec<String>,
    /// The time column of the base table's settings, when it has one.
    pub base_time_column: Option<String>,
}

/// The changelog rows that concern a refresh: those of the given scope
/// object, of the unscoped table, or (per row of `alias`) of the row's own
/// scope or of the whole table.
pub open spec fn changelog_scope_match(scope_json: Option<Seq<char>>, scope: Seq<Seq<char>>, alias: Seq<char>) -> Seq<char> {
    match scope_json {
        Some(sj) => "c.scope_values = '"@ + double_char(sj, '\'') + "'::jsonb"@,
        None => if scope.len() == 0 {
            "c.scope_values = '{}'::jsonb"@
        } else {
            "(c.scope_values = '{}'::jsonb OR c.scope_values = jsonb_build_object("@ + join_spec(
                scope_pairs(scope, alias),
                ", "@,
            ) + "))"@
        },
    }
}

/// `'col', alias."col"` for each scope column.
pub open spec fn scope_pairs(scope: Seq<Seq<char>>, alias: Seq<char>) -> Seq<Seq<char>>
    decreases scope.len(),
{
    if scope.len() == 0 {
        Seq::empty()
    } else {
        scope_pairs(scope.drop_last(), alias).push("'"@ + scope.last() + "', "@ + alias + ".\""@ + scope.last() + "\""@)
    }
}

/// `AND s."col" = target."col"` for each scope column.
pub open spec fn scope_joins(scope: Seq<Seq<char>>) -> Seq<Seq<char>>
    decreases scope.len(),
{
    if scope.len() == 0 {
        Seq::empty()
    } else {
        scope_joins(scope.drop_last()).push("AND s.\""@ + scope.last() + "\" = target.\""@ + scope.last() + "\""@)
    }
}

/// `"col" = EXCLUDED."col"` for each column of the tier but `t` and the
/// scope columns.
pub open spec fn update_assignments(cols: Seq<Seq<char>>, scope: Seq<Seq<char>>) -> Seq<Seq<char>>
    decreases cols.len(),
{
    if cols.len() == 0 {
        Seq::empty()
    } else {
        let prev = update_assignments(cols.drop_last(), scope);
        let c = cols.last();
        if c != "t"@ && !scope.contains(c) {
            prev.push(quoted(c) + " = EXCLUDED."@ + quoted(c))
        } else {
            prev
        }
    }
}

/// The where clause that narrows the source rows: the scope object's, else
/// the caller's extra clause.
pub open spec fn base_where_spec(scope_json: Option<Seq<char>>, extra_where: Option<Seq<char>>) -> Option<Seq<char>> {
    let from_scope = match scope_json {
        Some(sj) => match json_object_entries(sj) {
            Some(e) => scope_where_spec(e),
            None => None,
        },
        None => None,
    };
    match from_scope {
        Some(w) => Some(w),
        None => extra_where,
    }
}

/// The table a tier aggregates: the base table for a tier over it, else
/// its parent tier.
pub open spec fn source_table_spec(t: RefreshTarget) -> Seq<char> {
    if t.parent_view@ == "BASE"@ {
        t.base_view@
    } else {
        t.parent_view@
    }
}

/// The time column the source rows are bucketed by.
pub open spec fn source_time_column(t: RefreshTarget) -> Seq<char> {
    if t.parent_view@ == "BASE"@ {
        match t.base_time_column {
            Some(c) => c@,
            None => "t"@,
        }
    } else {
        "t"@
    }
}

/// The upsert that recomputes the tier's rows for the changelog's dirty
/// buckets: every source row whose bucket meets a dirty range, from the
/// start of the bucket holding the range's start to the end of the bucket
/// holding its last second, so each rewritten bucket is aggregated whole.
pub open spec fn upsert_sql_spec(
    view: Seq<char>,
    t: RefreshTarget,
    select_part: Seq<char>,
    scope_json: Option<Seq<char>>,
    extra_where: Option<Seq<char>>,
) -> Seq<char> {
    let scope = strings_view(t.scope_columns@);
    let fs = int_text(t.frame_seconds as int);
    let fm1 = int_text(t.frame_seconds as int - 1);
    let time = source_time_column(t);
    let updates = update_assignments(strings_view(t.view_columns@), scope);
    let on_conflict = if updates.len() == 0 {
        "ON CONFLICT DO NOTHING"@
    } else {
        "ON CONFLICT ("@ + join_spec(quoted_list(scope, false).push("\"t\""@), ", "@) + ") DO UPDATE SET "@ + join_spec(updates, ", "@)
    };
    let extra_filter = match base_where_spec(scope_json, extra_where) {
        Some(w) => "AND ("@ + w + ")"@,
        None => Seq::empty(),
    };
    let group_by = if scope.len() == 0 {
        "1"@
    } else {
        "1, "@ + join_spec(quoted_list(scope, false), ", "@)
    };
    "INSERT INTO \""@ + view + "\" ("@ + join_spec(quoted_list(strings_view(t.view_columns@), false), ", "@)
        + ")\n             SELECT "@ + select_part + " FROM \""@ + source_table_spec(t)
        + "\" AS s\n             WHERE EXISTS (\n                 SELECT 1 FROM spiral.changelog c\n                 WHERE c.base_view = '"@
        + double_char(t.base_view@, '\'') + "'\n                   AND "@ + changelog_scope_match(scope_json, scope, "s"@)
        + "\n                   AND spiral(s.\""@ + time + "\") >= (c.t_start/"@ + fs + ")*"@ + fs
        + "\n                   AND spiral(s.\""@ + time + "\") < ((c.t_end + "@ + fm1 + ")/"@ + fs + ")*"@ + fs
        + "\n             )\n             "@
        + extra_filter + "\n             GROUP BY "@ + group_by + "\n             "@ + on_conflict
}

/// The delete that removes the tier's rows whose dirty bucket (a bucket
/// meeting a dirty range, whole buckets as in the upsert) no longer has
/// source rows.
pub open spec fn sparse_delete_sql_spec(view: Seq<char>, t: RefreshTarget, scope_json: Option<Seq<char>>) -> Seq<char> {
    let scope = strings_view(t.scope_columns@);
    let fs = int_text(t.frame_seconds as int);
    let fm1 = int_text(t.frame_seconds as int - 1);
    let time = source_time_column(t);
    let target_where = match scope_json {
        Some(sj) => match json_object_entries(sj) {
            Some(e) => match scope_where_spec(e) {
                Some(w) => w,
                None => "1=1"@,
            },
            None => "1=1"@,
        },
        None => "1=1"@,
    };
    "DELETE FROM \""@ + view + "\" AS target\n             WHERE "@ + target_where
        + "\n               AND EXISTS (\n                 SELECT 1 FROM spiral.changelog c\n                 WHERE c.base_view = '"@
        + double_char(t.base_view@, '\'') + "'\n                   AND "@ + changelog_scope_match(scope_json, scope, "target"@)
        + "\n                   AND spiral(target.t) >= (c.t_start/"@ + fs + ")*"@ + fs
        + "\n                   AND spiral(target.t) < ((c.t_end + "@ + fm1 + ")/"@ + fs + ")*"@ + fs
        + "\n               )\n               AND NOT EXISTS (\n                 SELECT 1 FROM \""@
        + source_table_spec(t) + "\" AS s\n                 WHERE (spiral(s.\""@ + time + "\") / "@ + fs + ") * "@ + fs
        + " = spiral(target.t)\n                 "@ + join_spec(scope_joins(scope), " "@) + "\n               )"@
}

/// The select list of a tier's creating statement: the text between its
/// first `SELECT` and the next `SELECT` (or the end), cut at its first
/// `FROM`, trimmed.
pub open spec fn select_part_spec(child_sql: Seq<char>) -> Option<Seq<char>> {
    match crate::hooks::find_sub(child_sql, "SELECT"@) {
        Some(i) => {
            let after = child_sql.skip(i + 6);
            let piece = match crate::hooks::find_sub(after, "SELECT"@) {
                Some(j) => after.take(j),
                None => after,
            };
            let body = match crate::hooks::find_sub(piece, "FROM"@) {
                Some(k) => piece.take(k),
                None => piece,
            };
            Some(trim_spec(body))
        },
        None => None,
    }
}

/// The select list of a tier's creating statement (see
/// `select_part_spec`), or `None` when it has no `SELECT`.
pub fn select_part_of(child_sql: &str) -> (r: Option<String>)
    ensures
        opt_text(r) == select_part_spec(child_sql@),
{
    let s = chars_of(child_sql);
    proof {
        reveal_strlit("SELECT");
        reveal_strlit("FROM");
    }
    match find_sub_exec(&s, "SELECT") {
        Some(i) => {
            let n = s.len();
            assert("SELECT"@.len() == 6);
            let after = slice_chars(&s, i + 6, n);
            proof {
                assert(after@ =~= child_sql@.skip(i + 6));
            }
            let piece = match find_sub_exec(&after, "SELECT") {
                Some(j) => {
                    let p = slice_chars(&after, 0, j);
                    proof {
                        assert(p@ =~= after@.take(j as int));
                    }
                    p
                },
                None => after,
            };
            let body = match find_sub_exec(&piece, "FROM") {
                Some(k) => {
                    let b = slice_chars(&piece, 0, k);
                    proof {
                        assert(b@ =~= piece@.take(k as int));
                    }
                    b
                },
                None => piece,
            };
            Some(string_from_chars(&trim_chars(&body)))
        },
        None => None,
    }
}

fn scope_pairs_exec(scope: &Vec<String>, alias: &str) -> (r: Vec<Vec<char>>)
    ensures
        seqs_view(r@) == scope_pairs(strings_view(scope@), alias@),
{
    let ghost sv = strings_view(scope@);
    let n = scope.len();
    let mut out: Vec<Vec<char>> = Vec::new();
    let mut i: usize = 0;
    proof {
        assert(sv.take(0) =~= Seq::<Seq<char>>::empty());
        assert(seqs_view(out@) =~= Seq::<Seq<char>>::empty());
    }
    while i < n
        invariant
            n == scope@.len(),
            sv == strings_view(scope@),
            i <= n,
            seqs_view(out@) == scope_pairs(sv.take(i as int), alias@),
        decreases n - i,
    {
        let c = chars_of(scope[i].as_str());
        let mut p: Vec<char> = chars_of("'");
        push_chars(&mut p, &c);
        push_str(&mut p, "', ");
        push_str(&mut p, alias);
        push_str(&mut p, ".\"");
        push_chars(&mut p, &c);
        push_str(&mut p, "\"");
        proof {
            lemma_seqs_view_push(out@, p);
            assert(sv[i as int] == c@);
            assert(sv.take(i + 1).drop_last() =~= sv.take(i as int));
        }
        out.push(p);
        i = i + 1;
    }
    proof {
        assert(sv.take(n as int) =~= sv);
    }
    out
}

fn changelog_scope_match_exec(scope_json: Option<&str>, scope: &Vec<String>, alias: &str) -> (r: Vec<char>)
    ensures
        r@ == changelog_scope_match(opt_str(scope_json), strings_view(scope@), alias@),
{
    match scope_json {
        Some(sj) => {
            let mut out = chars_of("c.scope_values = '");
            push_doubled(&mut out, &chars_of(sj), '\'');
            push_str(&mut out, "'::jsonb");
            out
        },
        None => {
            if scope.len() == 0 {
                chars_of("c.scope_values = '{}'::jsonb")
            } else {
                let pairs = scope_pairs_exec(scope, alias);
                let mut out = chars_of(
                    "(c.scope_values = '{}'::jsonb OR c.scope_values = jsonb_build_object(",
                );
                push_chars(&mut out, &join_chars(&pairs, ", "));
                push_str(&mut out, "))");
                out
            }
        },
    }
}

fn scope_joins_exec(scope: &Vec<String>) -> (r: Vec<Vec<char>>)
    ensures
        seqs_view(r@) == scope_joins(strings_view(scope@)),
{
    let ghost sv = strings_view(scope@);
    let n = scope.len();
    let mut out: Vec<Vec<char>> = Vec::new();
    let mut i: usize = 0;
    proof {
        assert(sv.take(0) =~= Seq::<Seq<char>>::empty());
        assert(seqs_view(out@) =~= Seq::<Seq<char>>::empty());
    }
    while i < n
        invariant
            n == scope@.len(),
            sv == strings_view(scope@),
            i <= n,
            seqs_view(out@) == scope_joins(sv.take(i as int)),
        decreases n - i,
    {
        let c = chars_of(scope[i].as_str());
        let mut p: Vec<char> = chars_of("AND s.\"");
        push_chars(&mut p, &c);
        push_str(&mut p, "\" = target.\"");
        push_chars(&mut p, &c);
        push_str(&mut p, "\"");
        proof {
            lemma_seqs_view_push(out@, p);
            assert(sv[i as int] == c@);
            assert(sv.take(i + 1).drop_last() =~= sv.take(i as int));
        }
        out.push(p);
        i = i + 1;
    }
    proof {
        assert(sv.take(n as int) =~= sv);
    }
    out
}

fn update_assignments_exec(cols: &Vec<String>, scope: &Vec<String>) -> (r: Vec<Vec<char>>)
    ensures
        seqs_view(r@) == update_assignments(strings_view(cols@), strings_view(scope@)),
{
    let ghost cv = strings_view(cols@);
    let ghost sv = strings_view(scope@);
    let n = cols.len();
    let mut out: Vec<Vec<char>> = Vec::new();
    let mut i: usize = 0;
    proof {
        assert(cv.take(0) =~= Seq::<Seq<char>>::empty());
        assert(seqs_view(out@) =~= Seq::<Seq<char>>::empty());
    }
    while i < n
        invariant
            n == cols@.len(),
            cv == strings_view(cols@),
            sv == strings_view(scope@),
            i <= n,
            seqs_view(out@) == update_assignments(cv.take(i as int), sv),
        decreases n - i,
    {
        let c = chars_of(cols[i].as_str());
        proof {
            assert(cv[i as int] == c@);
            assert(cv.take(i + 1).drop_last() =~= cv.take(i as int));
            assert(cv.take(i + 1).last() == c@);
        }
        let is_t = chars_eq_str(&c, "t");
        let in_scope = scope_contains(scope, &cols[i]);
        if !is_t && !in_scope {
            let mut p: Vec<char> = chars_of("\"");
            push_chars(&mut p, &c);
            push_str(&mut p, "\"");
            push_str(&mut p, " = EXCLUDED.");
            push_str(&mut p, "\"");
            push_chars(&mut p, &c);
            push_str(&mut p, "\"");
            proof {
                lemma_seqs_view_push(out@, p);
                assert(p@ =~= quoted(c@) + " = EXCLUDED."@ + quoted(c@));
            }
            out.push(p);
        }
        i = i + 1;
    }
    proof {
        assert(cv.take(n as int) =~= cv);
    }
    out
}

fn base_where_exec(scope_json: Option<&str>, extra_where: Option<&str>) -> (r: Option<String>)
    ensures
        opt_text(r) == base_where_spec(opt_str(scope_json), opt_str(extra_where)),
{
    let from_scope = match scope_json {
        Some(sj) => scope_json_to_where(sj),
        None => None,
    };
    match from_scope {
        Some(w) => Some(w),
        None => match extra_where {
            Some(e) => Some(e.to_owned()),
            None => None,
        },
    }
}

fn is_base(parent_view: &String) -> (r: bool)
    ensures
        r == (parent_view@ == "BASE"@),
{
    chars_eq_str(&chars_of(parent_view.as_str()), "BASE")
}

fn source_table_exec(t: &RefreshTarget) -> (r: Vec<char>)
    ensures
        r@ == source_table_spec(*t),
{
    if is_base(&t.parent_view) {
        chars_of(t.base_view.as_str())
    } else {
        chars_of(t.parent_view.as_str())
    }
}

fn source_time_column_exec(t: &RefreshTarget) -> (r: Vec<char>)
    ensures
        r@ == source_time_column(*t),
{
    if is_base(&t.parent_view) {
        match &t.base_time_column {
            Some(c) => chars_of(c.as_str()),
            None => chars_of("t"),
        }
    } else {
        chars_of("t")
    }
}

fn quoted_joined(names: &Vec<String>, extra: Option<&str>) -> (r: Vec<char>)
    ensures
        r@ == join_spec(
            match extra {
                Some(x) => quoted_list(strings_view(names@), false).push(x@),
                None => quoted_list(strings_view(names@), false),
            },
            ", "@,
        ),
{
    let mut v: Vec<Vec<char>> = Vec::new();
    quoted_all(&mut v, names, false);
    proof {
        assert(seqs_view(v@) =~= quoted_list(strings_view(names@), false));
    }
    match extra {
        Some(x) => {
            let xc = chars_of(x);
            proof {
                lemma_seqs_view_push(v@, xc);
            }
            v.push(xc);
        },
        None => {},
    }
    join_chars(&v, ", ")
}

/// The two statements of an incremental refresh of the tier `view_name`:
/// the upsert that recomputes its rows for the changelog's dirty buckets
/// from the rows of its source, selected with `select_part` and narrowed to
/// the scope object `scope_json` (or by `extra_where`), and the delete that
/// then removes its rows whose dirty bucket has no source rows left.
pub fn incremental_refresh_sql(
    view_name: &str,
    target: &RefreshTarget,
    select_part: &str,
    scope_json: Option<&str>,
    extra_where: Option<&str>,
) -> (r: (String, String))
    ensures
        r.0@ == upsert_sql_spec(view_name@, *target, select_part@, opt_str(scope_json), opt_str(extra_where)),
        r.1@ == sparse_delete_sql_spec(view_name@, *target, opt_str(scope_json)),
{
    let ghost sj = opt_str(scope_json);
    let ghost ew = opt_str(extra_where);
    let ghost scope = strings_view(target.scope_columns@);
    let fs = target.frame_seconds;
    let source_table = source_table_exec(target);
    let time = source_time_column_exec(target);
    let safe_key = {
        let mut k: Vec<char> = Vec::new();
        push_doubled(&mut k, &chars_of(target.base_view.as_str()), '\'');
        proof {
            assert(k@ =~= double_char(target.base_view@, '\''));
        }
        k
    };
    let cols_joined = quoted_joined(&target.view_columns, None);
    let source_match = changelog_scope_match_exec(scope_json, &target.scope_columns, "s");
    let target_match = changelog_scope_match_exec(scope_json, &target.scope_columns, "target");
    let updates = update_assignments_exec(&target.view_columns, &target.scope_columns);
    let on_conflict = if updates.len() == 0 {
        chars_of("ON CONFLICT DO NOTHING")
    } else {
        let mut oc = chars_of("ON CONFLICT (");
        push_chars(&mut oc, &quoted_joined(&target.scope_columns, Some("\"t\"")));
        push_str(&mut oc, ") DO UPDATE SET ");
        push_chars(&mut oc, &join_chars(&updates, ", "));
        oc
    };
    let extra_filter = match base_where_exec(scope_json, extra_where) {
        Some(w) => {
            let mut f = chars_of("AND (");
            push_str(&mut f, w.as_str());
            push_str(&mut f, ")");
            f
        },
        None => Vec::new(),
    };
    let group_by = if target.scope_columns.len() == 0 {
        chars_of("1")
    } else {
        let mut g = chars_of("1, ");
        push_chars(&mut g, &quoted_joined(&target.scope_columns, None));
        g
    };
    let mut up = chars_of("INSERT INTO \"");
    push_str(&mut up, view_name);
    push_str(&mut up, "\" (");
    push_chars(&mut up, &cols_joined);
    push_str(&mut up, ")\n             SELECT ");
    push_str(&mut up, select_part);
    push_str(&mut up, " FROM \"");
    push_chars(&mut up, &source_table);
    push_str(
        &mut up,
        "\" AS s\n             WHERE EXISTS (\n                 SELECT 1 FROM spiral.changelog c\n                 WHERE c.base_view = '",
    );
    push_chars(&mut up, &safe_key);
    push_str(&mut up, "'\n                   AND ");
    push_chars(&mut up, &source_match);
    push_str(&mut up, "\n                   AND spiral(s.\"");
    push_chars(&mut up, &time);
    push_str(&mut up, "\") >= (c.t_start/");
    push_int(&mut up, fs);
    push_str(&mut up, ")*");
    push_int(&mut up, fs);
    push_str(&mut up, "\n                   AND spiral(s.\"");
    push_chars(&mut up, &time);
    push_str(&mut up, "\") < ((c.t_end + ");
    push_i64(&mut up, fs as i64 - 1);
    push_str(&mut up, ")/");
    push_int(&mut up, fs);
    push_str(&mut up, ")*");
    push_int(&mut up, fs);
    push_str(&mut up, "\n             )\n             ");
    push_chars(&mut up, &extra_filter);
    push_str(&mut up, "\n             GROUP BY ");
    push_chars(&mut up, &group_by);
    push_str(&mut up, "\n             ");
    push_chars(&mut up, &on_conflict);

    let target_where = match scope_json {
        Some(j) => match scope_json_to_where(j) {
            Some(w) => chars_of(w.as_str()),
            None => chars_of("1=1"),
        },
        None => chars_of("1=1"),
    };
    let joins = join_chars(&scope_joins_exec(&target.scope_columns), " ");
    let mut del = chars_of("DELETE FROM \"");
    push_str(&mut del, view_name);
    push_str(&mut del, "\" AS target\n             WHERE ");
    push_chars(&mut del, &target_where);
    push_str(
        &mut del,
        "\n               AND EXISTS (\n                 SELECT 1 FROM spiral.changelog c\n                 WHERE c.base_view = '",
    );
    push_chars(&mut del, &safe_key);
    push_str(&mut del, "'\n                   AND ");
    push_chars(&mut del, &target_match);
    push_str(&mut del, "\n                   AND spiral(target.t) >= (c.t_start/");
    push_int(&mut del, fs);
    push_str(&mut del, ")*");
    push_int(&mut del, fs);
    push_str(&mut del, "\n                   AND spiral(target.t) < ((c.t_end + ");
    push_i64(&mut del, fs as i64 - 1);
    push_str(&mut del, ")/");
    push_int(&mut del, fs);
    push_str(&mut del, ")*");
    push_int(&mut del, fs);
    push_str(
        &mut del,
        "\n               )\n               AND NOT EXISTS (\n                 SELECT 1 FROM \"",
    );
    push_chars(&mut del, &source_table);
    push_str(&mut del, "\" AS s\n                 WHERE (spiral(s.\"");
    push_chars(&mut del, &time);
    push_str(&mut del, "\") / ");
    push_int(&mut del, fs);
    push_str(&mut del, ") * ");
    push_int(&mut del, fs);
    push_str(&mut del, " = spiral(target.t)\n                 ");
    push_chars(&mut del, &joins);
    push_str(&mut del, "\n               )");
    proof {
        assert(extra_filter@ == match base_where_spec(sj, ew) {
            Some(w) => "AND ("@ + w + ")"@,
            None => Seq::<char>::empty(),
        });
        assert(seqs_view(updates@).len() == updates@.len());
    }
    (string_from_chars(&up), string_from_chars(&del))
}

/// Deeper than this, a refresh stops descending into child tiers.
pub const MAX_REFRESH_DEPTH: i32 = 5;

/// What a refresh does with one tier.
pub enum RefreshStep {
    /// The refresh of this tier fails: too deep, no metadata, no columns,
    /// or no creating statement.
    GiveUp,
    /// Run the upsert, then the sparse delete, then refresh the children.
    Recompute(String, String),
    /// The tier has no buckets of its own: refresh the children only.
    ChildrenOnly,
}

/// Decides the refresh of the tier `view_name` at recursion depth `depth`,
/// from its catalog entry (`None` when it has none) and, for a tier with
/// buckets, the statement that creates it from its source.
pub fn refresh_step(
    view_name: &str,
    depth: i32,
    target: Option<&RefreshTarget>,
    child_sql: &str,
    scope_json: Option<&str>,
    extra_where: Option<&str>,
) -> (r: RefreshStep)
    requires
        match target {
            Some(t) => t.frame_seconds > 0 && child_sql@.len() > 0 ==> select_part_spec(
                child_sql@,
            ).is_some(),
            None => true,
        },
    ensures
        depth > MAX_REFRESH_DEPTH ==> r is GiveUp,
        depth <= MAX_REFRESH_DEPTH ==> match target {
            None => r is GiveUp,
            Some(t) => if t.view_columns@.len() == 0 {
                r is GiveUp
            } else if t.frame_seconds <= 0 {
                r is ChildrenOnly
            } else if child_sql@.len() == 0 {
                r is GiveUp
            } else {
                match r {
                    RefreshStep::Recompute(up, del) => {
                        &&& up@ == upsert_sql_spec(
                            view_name@,
                            *t,
                            select_part_spec(child_sql@)->0,
                            opt_str(scope_json),
                            opt_str(extra_where),
                        )
                        &&& del@ == sparse_delete_sql_spec(view_name@, *t, opt_str(scope_json))
                    },
                    _ => false,
                }
            },
        },
{
    if depth > MAX_REFRESH_DEPTH {
        return RefreshStep::GiveUp;
    }
    match target {
        None => RefreshStep::GiveUp,
        Some(t) => {
            if t.view_columns.len() == 0 {
                RefreshStep::GiveUp
            } else if t.frame_seconds <= 0 {
                RefreshStep::ChildrenOnly
            } else if child_sql.is_empty() {
                RefreshStep::GiveUp
            } else {
                match select_part_of(child_sql) {
                    Some(sp) => {
                        let (up, del) = incremental_refresh_sql(
                            view_name,
                            t,
                            sp.as_str(),
                            scope_json,
                            extra_where,
                        );
                        RefreshStep::Recompute(up, del)
                    },
                    None => RefreshStep::GiveUp,
                }
            }
        },
    }
}

} // verus!
