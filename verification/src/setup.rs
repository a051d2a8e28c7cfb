//! Setting tables up for rollups: the statements that register a tier and
//! the triggers that feed the changelog, what a `CREATE TABLE ... WITH
//! (spiral.*)` asks for, and the time column a table is anchored on.
use vstd::prelude::*;
use crate::hooks::{find_char, find_sub, find_sub_exec, first_index_of};
use crate::rollup::{
    frame_list_fits, frames_of, parse_frames, quoted_all, quoted_list, strings_view,
};
use crate::text::{
    chars_eq_str, chars_of, int_text, join_chars, join_spec, push_chars, push_i64, push_str,
    seqs_view, slice_chars, split_chars, split_spec, string_from_chars, trim_chars, trim_spec,
};

verus! {

/// The table a tier reads from: the base table for a tier whose parent is
/// `BASE`, else its parent.
pub open spec fn tier_source_spec(parent_view: Seq<char>, base_view: Seq<char>) -> Seq<char> {
    if parent_view == "BASE"@ {
        base_view
    } else {
        parent_view
    }
}

/// The table a tier reads from.
pub fn tier_source(parent_view: &str, base_view: &str) -> (r: String)
    ensures
        r@ == tier_source_spec(parent_view@, base_view@),
{
    if chars_eq_str(&chars_of(parent_view), "BASE") {
        base_view.to_owned()
    } else {
        parent_view.to_owned()
    }
}

/// `s` up to its first `c` (all of it without one).
pub open spec fn before_char(s: Seq<char>, c: char) -> Seq<char> {
    match first_index_of(s, c) {
        Some(k) => s.take(k),
        None => s,
    }
}

/// The query a tier's table is created from: the text of its creating
/// statement after the first ` AS`, trimmed, up to the first `;` (empty
/// when there is no ` AS`).
pub open spec fn created_query_spec(sql: Seq<char>) -> Seq<char> {
    match find_sub(sql, " AS"@) {
        Some(i) => before_char(trim_spec(sql.skip(i + 3)), ';'),
        None => Seq::empty(),
    }
}

/// The query a tier's table is created from (see `created_query_spec`).
pub fn created_query(sql: &str) -> (r: Vec<char>)
    ensures
        r@ == created_query_spec(sql@),
{
    let s = chars_of(sql);
    proof {
        reveal_strlit(" AS");
    }
    match find_sub_exec(&s, " AS") {
        Some(i) => {
            let n = s.len();
            assert(" AS"@.len() == 3);
            let after = slice_chars(&s, i + 3, n);
            proof {
                assert(after@ =~= sql@.skip(i + 3));
            }
            let t = trim_chars(&after);
            match find_char(&t, ';') {
                Some(k) => {
                    let r = slice_chars(&t, 0, k);
                    proof {
                        assert(r@ =~= t@.take(k as int));
                    }
                    r
                },
                None => t,
            }
        },
        None => Vec::new(),
    }
}

/// The scope columns as a quoted list (each trimmed).
pub open spec fn scope_list_spec(scope: Seq<Seq<char>>) -> Seq<char> {
    join_spec(quoted_list(scope, true), ", "@)
}

/// The statements that create a tier's table, when it does not exist yet
/// and its creating statement yields a query: the table (with no rows), its
/// unique index on time and scope, and, with scope columns, its Z-order
/// index.
pub open spec fn registration_ddl_spec(
    view: Seq<char>,
    scope: Seq<Seq<char>>,
    child_sql: Seq<char>,
    table_exists: bool,
) -> Seq<Seq<char>> {
    let q = created_query_spec(child_sql);
    if table_exists || child_sql.len() == 0 || q.len() == 0 {
        Seq::empty()
    } else {
        let create = "CREATE TABLE IF NOT EXISTS "@ + view + " AS SELECT * FROM ("@ + q + ") s LIMIT 0"@;
        if scope.len() == 0 {
            seq![create, "CREATE UNIQUE INDEX IF NOT EXISTS idx_u_"@ + view + " ON "@ + view + "(t)"@]
        } else {
            seq![
                create,
                "CREATE UNIQUE INDEX IF NOT EXISTS idx_u_"@ + view + " ON "@ + view + "(t, "@ + scope_list_spec(scope) + ")"@,
                "CREATE INDEX IF NOT EXISTS idx_z_"@ + view + " ON "@ + view + " (spiral_zorder(spiral(t), ARRAY["@
                    + scope_list_spec(scope) + "]::text[]))"@,
            ]
        }
    }
}

/// The statements that create the table of the tier `view_name` from its
/// creating statement `child_sql` (see `registration_ddl_spec`).
pub fn registration_ddl(view_name: &str, scope_columns: &Vec<String>, child_sql: &str, table_exists: bool) -> (r: Vec<String>)
    ensures
        strings_view(r@) == registration_ddl_spec(view_name@, strings_view(scope_columns@), child_sql@, table_exists),
{
    let mut out: Vec<String> = Vec::new();
    if table_exists || child_sql.is_empty() {
        proof {
            assert(strings_view(out@) =~= Seq::<Seq<char>>::empty());
        }
        return out;
    }
    let q = created_query(child_sql);
    if q.len() == 0 {
        proof {
            assert(strings_view(out@) =~= Seq::<Seq<char>>::empty());
        }
        return out;
    }
    let ghost scope = strings_view(scope_columns@);
    let mut create = chars_of("CREATE TABLE IF NOT EXISTS ");
    push_str(&mut create, view_name);
    push_str(&mut create, " AS SELECT * FROM (");
    push_chars(&mut create, &q);
    push_str(&mut create, ") s LIMIT 0");
    let c0 = string_from_chars(&create);
    out.push(c0);
    if scope_columns.len() == 0 {
        let mut u = chars_of("CREATE UNIQUE INDEX IF NOT EXISTS idx_u_");
        push_str(&mut u, view_name);
        push_str(&mut u, " ON ");
        push_str(&mut u, view_name);
        push_str(&mut u, "(t)");
        let u0 = string_from_chars(&u);
        out.push(u0);
        proof {
            assert(strings_view(out@) =~= registration_ddl_spec(view_name@, scope, child_sql@, table_exists));
        }
    } else {
        let mut quoted: Vec<Vec<char>> = Vec::new();
        quoted_all(&mut quoted, scope_columns, true);
        proof {
            assert(seqs_view(quoted@) =~= quoted_list(scope, true));
        }
        let list = join_chars(&quoted, ", ");
        let mut u = chars_of("CREATE UNIQUE INDEX IF NOT EXISTS idx_u_");
        push_str(&mut u, view_name);
        push_str(&mut u, " ON ");
        push_str(&mut u, view_name);
        push_str(&mut u, "(t, ");
        push_chars(&mut u, &list);
        push_str(&mut u, ")");
        let mut z = chars_of("CREATE INDEX IF NOT EXISTS idx_z_");
        push_str(&mut z, view_name);
        push_str(&mut z, " ON ");
        push_str(&mut z, view_name);
        push_str(&mut z, " (spiral_zorder(spiral(t), ARRAY[");
        push_chars(&mut z, &list);
        push_str(&mut z, "]::text[]))");
        let u0 = string_from_chars(&u);
        let z0 = string_from_chars(&z);
        out.push(u0);
        out.push(z0);
        proof {
            assert(strings_view(out@) =~= registration_ddl_spec(view_name@, scope, child_sql@, table_exists));
        }
    }
    out
}

/// A statement kind a change trigger fires on.
#[derive(Clone, Copy, PartialEq, Eq, Structural, Debug)]
pub enum ChangeEvent {
    Insert,
    Update,
    Delete,
}

/// The event's keyword.
pub open spec fn event_word(e: ChangeEvent) -> Seq<char> {
    match e {
        ChangeEvent::Insert => "INSERT"@,
        ChangeEvent::Update => "UPDATE"@,
        ChangeEvent::Delete => "DELETE"@,
    }
}

/// The event's keyword in lower case, as trigger names carry it.
pub open spec fn event_name(e: ChangeEvent) -> Seq<char> {
    match e {
        ChangeEvent::Insert => "insert"@,
        ChangeEvent::Update => "update"@,
        ChangeEvent::Delete => "delete"@,
    }
}

/// The transition tables a statement trigger on the event sees, with a
/// trailing space.
pub open spec fn transition_spec(e: ChangeEvent) -> Seq<char> {
    match e {
        ChangeEvent::Insert => "REFERENCING NEW TABLE AS new_table "@,
        ChangeEvent::Update => "REFERENCING NEW TABLE AS new_table OLD TABLE AS old_table "@,
        ChangeEvent::Delete => "REFERENCING OLD TABLE AS old_table "@,
    }
}

fn push_event(out: &mut Vec<char>, e: ChangeEvent, lower: bool)
    ensures
        final(out)@ == old(out)@ + if lower {
            event_name(e)
        } else {
            event_word(e)
        },
{
    match e {
        ChangeEvent::Insert => push_str(out, if lower { "insert" } else { "INSERT" }),
        ChangeEvent::Update => push_str(out, if lower { "update" } else { "UPDATE" }),
        ChangeEvent::Delete => push_str(out, if lower { "delete" } else { "DELETE" }),
    }
}

fn push_transition(out: &mut Vec<char>, e: ChangeEvent)
    ensures
        final(out)@ == old(out)@ + transition_spec(e),
{
    match e {
        ChangeEvent::Insert => push_str(out, "REFERENCING NEW TABLE AS new_table "),
        ChangeEvent::Update => push_str(out, "REFERENCING NEW TABLE AS new_table OLD TABLE AS old_table "),
        ChangeEvent::Delete => push_str(out, "REFERENCING OLD TABLE AS old_table "),
    }
}

/// The change trigger a tier's registration puts on its base table.
pub open spec fn tier_trigger_spec(base_view: Seq<char>, e: ChangeEvent, frame_seconds: int) -> Seq<char> {
    "CREATE OR REPLACE TRIGGER spiral_track_"@ + base_view + "_"@ + event_name(e) + "\n                 AFTER "@
        + event_word(e) + " ON \""@ + base_view + "\"\n                 "@ + transition_spec(e)
        + "\n                 FOR EACH STATEMENT EXECUTE FUNCTION spiral.track_changes_stmt('"@ + base_view + "', '"@
        + int_text(frame_seconds) + "')"@
}

/// The change trigger a tier's registration puts on its base table for
/// one event.
pub fn tier_trigger_sql(base_view: &str, e: ChangeEvent, frame_seconds: i32) -> (r: String)
    ensures
        r@ == tier_trigger_spec(base_view@, e, frame_seconds as int),
{
    let mut v = chars_of("CREATE OR REPLACE TRIGGER spiral_track_");
    push_str(&mut v, base_view);
    push_str(&mut v, "_");
    push_event(&mut v, e, true);
    push_str(&mut v, "\n                 AFTER ");
    push_event(&mut v, e, false);
    push_str(&mut v, " ON \"");
    push_str(&mut v, base_view);
    push_str(&mut v, "\"\n                 ");
    push_transition(&mut v, e);
    push_str(&mut v, "\n                 FOR EACH STATEMENT EXECUTE FUNCTION spiral.track_changes_stmt('");
    push_str(&mut v, base_view);
    push_str(&mut v, "', '");
    push_i64(&mut v, frame_seconds as i64);
    push_str(&mut v, "')");
    string_from_chars(&v)
}

/// The triggers a tier's registration installs: one per event on the base
/// table when the tier reads the base table directly, none otherwise.
pub open spec fn registration_triggers_spec(parent_view: Seq<char>, base_view: Seq<char>, frame_seconds: int) -> Seq<Seq<char>> {
    if parent_view == "BASE"@ || parent_view == base_view {
        seq![
            tier_trigger_spec(base_view, ChangeEvent::Insert, frame_seconds),
            tier_trigger_spec(base_view, ChangeEvent::Update, frame_seconds),
            tier_trigger_spec(base_view, ChangeEvent::Delete, frame_seconds),
        ]
    } else {
        Seq::empty()
    }
}

/// The triggers a tier's registration installs.
pub fn registration_triggers(parent_view: &str, base_view: &str, frame_seconds: i32) -> (r: Vec<String>)
    ensures
        strings_view(r@) == registration_triggers_spec(parent_view@, base_view@, frame_seconds as int),
{
    let mut out: Vec<String> = Vec::new();
    let pv = chars_of(parent_view);
    let direct = chars_eq_str(&pv, "BASE") || chars_eq_str(&pv, base_view);
    if direct {
        out.push(tier_trigger_sql(base_view, ChangeEvent::Insert, frame_seconds));
        out.push(tier_trigger_sql(base_view, ChangeEvent::Update, frame_seconds));
        out.push(tier_trigger_sql(base_view, ChangeEvent::Delete, frame_seconds));
    }
    proof {
        assert(strings_view(out@) =~= registration_triggers_spec(parent_view@, base_view@, frame_seconds as int));
    }
    out
}

/// The smallest bucket of the frames, or 3600 seconds without frames.
pub open spec fn smallest_bucket(frames: Seq<(Seq<char>, int, Option<Seq<char>>)>) -> int
    decreases frames.len(),
{
    if frames.len() == 0 {
        3600
    } else if frames.len() == 1 {
        frames[0].1
    } else {
        let m = smallest_bucket(frames.drop_last());
        if frames.last().1 < m {
            frames.last().1
        } else {
            m
        }
    }
}

/// The bucket the changelog of a table records dirty ranges in: its
/// smallest frame, or an hour without frames.
pub fn changelog_bucket_seconds(frames_str: &str) -> (r: i64)
    requires
        frame_list_fits(frames_str@),
    ensures
        r == smallest_bucket(frames_of(split_spec(frames_str@, ','))),
{
    let frames = parse_frames(frames_str);
    let ghost fv = frames_of(split_spec(frames_str@, ','));
    let n = frames.len();
    if n == 0 {
        return 3600;
    }
    let mut m: i64 = frames[0].seconds as i64;
    let mut i: usize = 1;
    proof {
        assert(fv.take(1).drop_last() =~= Seq::<(Seq<char>, int, Option<Seq<char>>)>::empty());
        assert(crate::rollup::frames_view(frames@)[0].1 == frames@[0].seconds);
    }
    while i < n
        invariant
            n == frames@.len(),
            crate::rollup::frames_view(frames@) == fv,
            1 <= i <= n,
            m == smallest_bucket(fv.take(i as int)),
        decreases n - i,
    {
        proof {
            assert(fv.take(i + 1).drop_last() =~= fv.take(i as int));
            assert(fv[i as int].1 == frames@[i as int].seconds);
        }
        let f = frames[i].seconds as i64;
        if f < m {
            m = f;
        }
        i = i + 1;
    }
    proof {
        assert(fv.take(n as int) =~= fv);
    }
    m
}

/// The change trigger a table set up for rollups gets for one event,
/// recording dirty ranges in buckets of `bucket` seconds.
pub open spec fn table_trigger_spec(name: Seq<char>, e: ChangeEvent, bucket: int) -> Seq<char> {
    "CREATE OR REPLACE TRIGGER spiral_track_"@ + name + "_"@ + event_name(e) + " AFTER "@ + event_word(e) + " ON \""@ + name
        + "\" "@ + transition_spec(e) + " FOR EACH STATEMENT EXECUTE FUNCTION spiral.track_changes_stmt('"@ + name + "', '"@
        + int_text(bucket) + "')"@
}

/// The change triggers of a table set up with the frame list `frames_str`:
/// one per event (insert, update, delete), bucketed by its smallest frame.
pub fn changelog_triggers(name: &str, frames_str: &str) -> (r: Vec<String>)
    requires
        frame_list_fits(frames_str@),
    ensures
        ({
            let b = smallest_bucket(frames_of(split_spec(frames_str@, ',')));
            strings_view(r@) == seq![
                table_trigger_spec(name@, ChangeEvent::Insert, b),
                table_trigger_spec(name@, ChangeEvent::Update, b),
                table_trigger_spec(name@, ChangeEvent::Delete, b),
            ]
        }),
{
    let bucket = changelog_bucket_seconds(frames_str);
    let mut out: Vec<String> = Vec::new();
    out.push(table_trigger_sql(name, ChangeEvent::Insert, bucket));
    out.push(table_trigger_sql(name, ChangeEvent::Update, bucket));
    out.push(table_trigger_sql(name, ChangeEvent::Delete, bucket));
    proof {
        assert(strings_view(out@) =~= seq![
            table_trigger_spec(name@, ChangeEvent::Insert, bucket as int),
            table_trigger_spec(name@, ChangeEvent::Update, bucket as int),
            table_trigger_spec(name@, ChangeEvent::Delete, bucket as int),
        ]);
    }
    out
}

fn table_trigger_sql(name: &str, e: ChangeEvent, bucket: i64) -> (r: String)
    ensures
        r@ == table_trigger_spec(name@, e, bucket as int),
{
    let mut v = chars_of("CREATE OR REPLACE TRIGGER spiral_track_");
    push_str(&mut v, name);
    push_str(&mut v, "_");
    push_event(&mut v, e, true);
    push_str(&mut v, " AFTER ");
    push_event(&mut v, e, false);
    push_str(&mut v, " ON \"");
    push_str(&mut v, name);
    push_str(&mut v, "\" ");
    push_transition(&mut v, e);
    push_str(&mut v, " FOR EACH STATEMENT EXECUTE FUNCTION spiral.track_changes_stmt('");
    push_str(&mut v, name);
    push_str(&mut v, "', '");
    push_i64(&mut v, bucket);
    push_str(&mut v, "')");
    string_from_chars(&v)
}

/// One option of a `WITH (...)` clause: its namespace (`spiral` in
/// `spiral.frames`), its name, and its value when that is a string.
pub struct TableOption {
    pub namespace: Option<String>,
    pub name: String,
    pub text_value: Option<String>,
}

/// The view of a table option.
pub open spec fn option_view(o: TableOption) -> (Option<Seq<char>>, Seq<char>, Option<Seq<char>>) {
    (crate::rollup::opt_text(o.namespace), o.name@, crate::rollup::opt_text(o.text_value))
}

/// The views of table options.
pub open spec fn options_view(v: Seq<TableOption>) -> Seq<(Option<Seq<char>>, Seq<char>, Option<Seq<char>>)> {
    v.map_values(|o: TableOption| option_view(o))
}

/// What the `spiral.*` options of a table ask for (each empty when not
/// given).
pub struct SpiralOptions {
    pub frames: String,
    pub tenant: String,
    pub cardinality: String,
    pub time_column: String,
}

/// The option belongs to Spiral.
pub open spec fn is_spiral_option(o: (Option<Seq<char>>, Seq<char>, Option<Seq<char>>)) -> bool {
    o.0 == Some("spiral"@)
}

/// The `(frames, tenant, cardinality, time_column)` values the options
/// set: for each, the string value of the last `spiral` option of that
/// name, else empty.
pub open spec fn spiral_settings(opts: Seq<(Option<Seq<char>>, Seq<char>, Option<Seq<char>>)>) -> (Seq<char>, Seq<char>, Seq<char>, Seq<char>)
    decreases opts.len(),
{
    if opts.len() == 0 {
        (Seq::empty(), Seq::empty(), Seq::empty(), Seq::empty())
    } else {
        let p = spiral_settings(opts.drop_last());
        let o = opts.last();
        if is_spiral_option(o) {
            match o.2 {
                Some(v) => if o.1 == "frames"@ {
                    (v, p.1, p.2, p.3)
                } else if o.1 == "tenant"@ {
                    (p.0, v, p.2, p.3)
                } else if o.1 == "cardinality"@ {
                    (p.0, p.1, v, p.3)
                } else if o.1 == "time_column"@ {
                    (p.0, p.1, p.2, v)
                } else {
                    p
                },
                None => p,
            }
        } else {
            p
        }
    }
}

/// The positions of the options that are not Spiral's, in order: those the
/// statement keeps.
pub open spec fn kept_options(opts: Seq<(Option<Seq<char>>, Seq<char>, Option<Seq<char>>)>) -> Seq<int>
    decreases opts.len(),
{
    if opts.len() == 0 {
        Seq::empty()
    } else {
        let p = kept_options(opts.drop_last());
        if is_spiral_option(opts.last()) {
            p
        } else {
            p.push(opts.len() - 1)
        }
    }
}

/// Splits the options of a `CREATE TABLE` into what Spiral is asked for and
/// the positions of the options the statement keeps.
pub fn split_table_options(opts: &Vec<TableOption>) -> (r: (SpiralOptions, Vec<usize>))
    ensures
        (r.0.frames@, r.0.tenant@, r.0.cardinality@, r.0.time_column@) == spiral_settings(options_view(opts@)),
        r.1@.map_values(|i: usize| i as int) == kept_options(options_view(opts@)),
{
    let ghost ov = options_view(opts@);
    let mut frames = String::new();
    let mut tenant = String::new();
    let mut cardinality = String::new();
    let mut time_column = String::new();
    let mut kept: Vec<usize> = Vec::new();
    let n = opts.len();
    let mut i: usize = 0;
    proof {
        assert(ov.take(0) =~= Seq::<(Option<Seq<char>>, Seq<char>, Option<Seq<char>>)>::empty());
        assert(kept@.map_values(|i: usize| i as int) =~= Seq::<int>::empty());
    }
    while i < n
        invariant
            n == opts@.len(),
            ov == options_view(opts@),
            i <= n,
            (frames@, tenant@, cardinality@, time_column@) == spiral_settings(ov.take(i as int)),
            kept@.map_values(|i: usize| i as int) == kept_options(ov.take(i as int)),
        decreases n - i,
    {
        let o = &opts[i];
        proof {
            assert(ov.take(i + 1).drop_last() =~= ov.take(i as int));
            assert(ov.take(i + 1).last() == option_view(*o));
            assert(ov.take(i + 1).len() - 1 == i);
        }
        let spiral = match &o.namespace {
            Some(ns) => chars_eq_str(&chars_of(ns.as_str()), "spiral"),
            None => false,
        };
        if spiral {
            match &o.text_value {
                Some(v) => {
                    let name = chars_of(o.name.as_str());
                    if chars_eq_str(&name, "frames") {
                        frames = v.clone();
                    } else if chars_eq_str(&name, "tenant") {
                        tenant = v.clone();
                    } else if chars_eq_str(&name, "cardinality") {
                        cardinality = v.clone();
                    } else if chars_eq_str(&name, "time_column") {
                        time_column = v.clone();
                    }
                },
                None => {},
            }
        } else {
            proof {
                assert(kept@.push(i).map_values(|i: usize| i as int) =~= kept@.map_values(|i: usize| i as int).push(i as int));
            }
            kept.push(i);
        }
        i = i + 1;
    }
    proof {
        assert(ov.take(n as int) =~= ov);
    }
    (SpiralOptions { frames, tenant, cardinality, time_column }, kept)
}

/// Whether a table is tracked at all: only where `spiral.frames` is given
/// (the other `spiral.*` settings alone track nothing).
pub fn wants_rollups(o: &SpiralOptions) -> (r: bool)
    ensures
        r == (o.frames@.len() > 0),
{
    !o.frames.as_str().is_empty()
}

/// The views of `(column, type id)` pairs.
pub open spec fn columns_view(v: Seq<(String, u32)>) -> Seq<(Seq<char>, u32)> {
    v.map_values(|c: (String, u32)| (c.0@, c.1))
}

/// The `timestamptz` columns, in order.
pub open spec fn tstz_columns(cols: Seq<(Seq<char>, u32)>) -> Seq<Seq<char>>
    decreases cols.len(),
{
    if cols.len() == 0 {
        Seq::empty()
    } else {
        let p = tstz_columns(cols.drop_last());
        if cols.last().1 == crate::hooks::TIMESTAMPTZ_OID {
            p.push(cols.last().0)
        } else {
            p
        }
    }
}

/// A type a table's time can be read from: `timestamptz`, `timestamp`,
/// `date` or `bigint`.
pub open spec fn time_like(type_oid: u32) -> bool {
    type_oid == crate::hooks::TIMESTAMPTZ_OID || type_oid == 1114 || type_oid == 1082 || type_oid == 20
}

/// The columns of a time-like type, in order.
pub open spec fn time_like_columns(cols: Seq<(Seq<char>, u32)>) -> Seq<Seq<char>>
    decreases cols.len(),
{
    if cols.len() == 0 {
        Seq::empty()
    } else {
        let p = time_like_columns(cols.drop_last());
        if time_like(cols.last().1) {
            p.push(cols.last().0)
        } else {
            p
        }
    }
}

/// The time column a table's buckets are computed from: the `time_column`
/// setting, else its first `timestamptz`, `timestamp`, `date` or `bigint`
/// column, else `t`.
pub open spec fn anchor_spec(cols: Seq<(Seq<char>, u32)>, time_column: Seq<char>) -> Seq<char> {
    if time_column.len() > 0 {
        time_column
    } else if time_like_columns(cols).len() > 0 {
        time_like_columns(cols)[0]
    } else {
        "t"@
    }
}

/// The names other than `anchor`, in order.
pub open spec fn others(names: Seq<Seq<char>>, anchor: Seq<char>) -> Seq<Seq<char>>
    decreases names.len(),
{
    if names.len() == 0 {
        Seq::empty()
    } else {
        let p = others(names.drop_last(), anchor);
        if names.last() == anchor {
            p
        } else {
            p.push(names.last())
        }
    }
}

/// The anchor column of a table with the given columns (in order, with
/// their type ids) and `time_column` setting, and its offset columns: the
/// other `timestamptz` columns, in order.
pub fn anchor_and_offsets(columns: &Vec<(String, u32)>, time_column: &str) -> (r: (String, Vec<String>))
    ensures
        r.0@ == anchor_spec(columns_view(columns@), time_column@),
        strings_view(r.1@) == others(tstz_columns(columns_view(columns@)), r.0@),
{
    let ghost cv = columns_view(columns@);
    let mut tstz: Vec<String> = Vec::new();
    let mut timeish: Vec<String> = Vec::new();
    let n = columns.len();
    let mut i: usize = 0;
    proof {
        assert(cv.take(0) =~= Seq::<(Seq<char>, u32)>::empty());
        assert(strings_view(tstz@) =~= Seq::<Seq<char>>::empty());
        assert(strings_view(timeish@) =~= Seq::<Seq<char>>::empty());
    }
    while i < n
        invariant
            n == columns@.len(),
            cv == columns_view(columns@),
            i <= n,
            strings_view(tstz@) == tstz_columns(cv.take(i as int)),
            strings_view(timeish@) == time_like_columns(cv.take(i as int)),
        decreases n - i,
    {
        proof {
            assert(cv.take(i + 1).drop_last() =~= cv.take(i as int));
            assert(cv.take(i + 1).last() == (columns@[i as int].0@, columns@[i as int].1));
        }
        let ty = columns[i].1;
        if ty == crate::hooks::TIMESTAMPTZ_OID {
            let c = columns[i].0.clone();
            proof {
                assert(strings_view(tstz@.push(c)) =~= strings_view(tstz@).push(c@));
            }
            tstz.push(c);
        }
        if ty == crate::hooks::TIMESTAMPTZ_OID || ty == 1114 || ty == 1082 || ty == 20 {
            let c = columns[i].0.clone();
            proof {
                assert(strings_view(timeish@.push(c)) =~= strings_view(timeish@).push(c@));
            }
            timeish.push(c);
        }
        i = i + 1;
    }
    proof {
        assert(cv.take(n as int) =~= cv);
    }
    let anchor: String = if !time_column.is_empty() {
        time_column.to_owned()
    } else if timeish.len() > 0 {
        timeish[0].clone()
    } else {
        "t".to_owned()
    };
    let ghost tv = strings_view(tstz@);
    let mut offsets: Vec<String> = Vec::new();
    let m = tstz.len();
    let mut j: usize = 0;
    proof {
        assert(tv.take(0) =~= Seq::<Seq<char>>::empty());
        assert(strings_view(offsets@) =~= Seq::<Seq<char>>::empty());
    }
    while j < m
        invariant
            m == tstz@.len(),
            tv == strings_view(tstz@),
            j <= m,
            strings_view(offsets@) == others(tv.take(j as int), anchor@),
        decreases m - j,
    {
        proof {
            assert(tv.take(j + 1).drop_last() =~= tv.take(j as int));
            assert(tv.take(j + 1).last() == tstz@[j as int]@);
        }
        if tstz[j] != anchor {
            let c = tstz[j].clone();
            proof {
                assert(strings_view(offsets@.push(c)) =~= strings_view(offsets@).push(c@));
            }
            offsets.push(c);
        }
        j = j + 1;
    }
    proof {
        assert(tv.take(m as int) =~= tv);
    }
    (anchor, offsets)
}

/// The scope columns the `tenant` setting names: its comma-separated
/// entries, each trimmed.
pub open spec fn tenant_columns_spec(tenant: Seq<char>) -> Seq<Seq<char>> {
    split_spec(tenant, ',').map_values(|p: Seq<char>| trim_spec(p))
}

/// The scope columns the `tenant` setting names.
pub fn tenant_scope_columns(tenant: &str) -> (r: Vec<String>)
    ensures
        strings_view(r@) == tenant_columns_spec(tenant@),
{
    let pieces = split_chars(&chars_of(tenant), ',');
    let ghost sv = split_spec(tenant@, ',');
    let n = pieces.len();
    let mut out: Vec<String> = Vec::new();
    let mut i: usize = 0;
    proof {
        assert(sv.take(0).map_values(|p: Seq<char>| trim_spec(p)) =~= Seq::<Seq<char>>::empty());
        assert(strings_view(out@) =~= Seq::<Seq<char>>::empty());
    }
    while i < n
        invariant
            n == pieces@.len(),
            seqs_view(pieces@) == sv,
            sv == split_spec(tenant@, ','),
            i <= n,
            strings_view(out@) == sv.take(i as int).map_values(|p: Seq<char>| trim_spec(p)),
        decreases n - i,
    {
        let t = string_from_chars(&trim_chars(&pieces[i]));
        proof {
            assert(sv[i as int] == pieces@[i as int]@);
            assert(sv.take(i + 1).map_values(|p: Seq<char>| trim_spec(p)) =~= sv.take(i as int).map_values(
                |p: Seq<char>| trim_spec(p),
            ).push(trim_spec(sv[i as int])));
            assert(strings_view(out@.push(t)) =~= strings_view(out@).push(t@));
        }
        out.push(t);
        i = i + 1;
    }
    proof {
        assert(sv.take(n as int) =~= sv);
    }
    out
}

/// The type id of the column `name` (the last one of that name), or 0 when
/// the table has no such column.
pub open spec fn column_type(cols: Seq<(Seq<char>, u32)>, name: Seq<char>) -> u32
    decreases cols.len(),
{
    if cols.len() == 0 {
        0
    } else if cols.last().0 == name {
        cols.last().1
    } else {
        column_type(cols.drop_last(), name)
    }
}

/// The error of the first magic-comment directive whose formula does not
/// suit its column's type.
pub open spec fn first_type_error(
    captured: Seq<(Seq<char>, Seq<char>, Option<Seq<char>>)>,
    cols: Seq<(Seq<char>, u32)>,
) -> Option<Seq<char>>
    decreases captured.len(),
{
    if captured.len() == 0 {
        None
    } else {
        match first_type_error(captured.drop_last(), cols) {
            Some(e) => Some(e),
            None => crate::hooks::formula_type_error_spec(
                captured.last().0,
                captured.last().1,
                column_type(cols, captured.last().0),
            ),
        }
    }
}

fn column_type_exec(columns: &Vec<(String, u32)>, name: &String) -> (r: u32)
    ensures
        r == column_type(columns_view(columns@), name@),
{
    let ghost cv = columns_view(columns@);
    let mut k: usize = columns.len();
    proof {
        assert(cv.take(k as int) =~= cv);
    }
    while k > 0
        invariant
            k <= columns@.len(),
            cv == columns_view(columns@),
            column_type(cv, name@) == column_type(cv.take(k as int), name@),
        decreases k,
    {
        proof {
            assert(cv.take(k as int).drop_last() =~= cv.take(k - 1));
            assert(cv.take(k as int).last() == (columns@[k - 1].0@, columns@[k - 1].1));
        }
        if columns[k - 1].0 == *name {
            return columns[k - 1].1;
        }
        k = k - 1;
    }
    0
}

/// Checks the magic-comment directives of a new table against the types of
/// its columns, returning the error of the first that does not suit.
pub fn magic_type_error(captured: &Vec<(String, String, Option<String>)>, columns: &Vec<(String, u32)>) -> (r: Option<String>)
    ensures
        crate::rollup::opt_text(r) == first_type_error(crate::hooks::entries_view(captured@), columns_view(columns@)),
{
    let ghost ev = crate::hooks::entries_view(captured@);
    let ghost cv = columns_view(columns@);
    let n = captured.len();
    let mut i: usize = 0;
    proof {
        assert(ev.take(0) =~= Seq::<(Seq<char>, Seq<char>, Option<Seq<char>>)>::empty());
        assert(cv.take(cv.len() as int) =~= cv);
    }
    while i < n
        invariant
            n == captured@.len(),
            ev == crate::hooks::entries_view(captured@),
            cv == columns_view(columns@),
            i <= n,
            first_type_error(ev.take(i as int), cv).is_none(),
        decreases n - i,
    {
        proof {
            assert(ev.take(i + 1).drop_last() =~= ev.take(i as int));
            assert(ev.take(i + 1).last() == ev[i as int]);
        }
        let t = column_type_exec(columns, &captured[i].0);
        match crate::hooks::validate_formula_column_type(captured[i].0.as_str(), captured[i].1.as_str(), t) {
            Some(e) => {
                proof {
                    lemma_first_error_prefix(ev, i + 1, cv);
                }
                return Some(e);
            },
            None => {},
        }
        i = i + 1;
    }
    proof {
        assert(ev.take(n as int) =~= ev);
    }
    None
}

proof fn lemma_first_error_prefix(
    ev: Seq<(Seq<char>, Seq<char>, Option<Seq<char>>)>,
    k: int,
    cv: Seq<(Seq<char>, u32)>,
)
    requires
        0 <= k <= ev.len(),
        first_type_error(ev.take(k), cv).is_some(),
    ensures
        first_type_error(ev, cv) == first_type_error(ev.take(k), cv),
    decreases ev.len() - k,
{
    if k < ev.len() {
        assert(ev.take(k + 1).drop_last() =~= ev.take(k));
        lemma_first_error_prefix(ev, k + 1, cv);
    } else {
        assert(ev.take(k) =~= ev);
    }
}

/// The statements that build a table's Z-order index over its time column
/// and the given dimensions, then cluster the table on it.
pub open spec fn cluster_table_spec(table: Seq<char>, time_col: Seq<char>, dims: Seq<Seq<char>>) -> Seq<char> {
    let index = "idx_z_"@ + table;
    "CREATE INDEX IF NOT EXISTS \""@ + index + "\" ON \""@ + table + "\" (spiral_zorder(spiral(\""@ + time_col
        + "\"), ARRAY["@ + join_spec(quoted_list(dims, false), ", "@) + "]::text[]));\n         CLUSTER \""@ + table
        + "\" USING \""@ + index + "\";"@
}

/// The statements that cluster a table on a Z-order index of its time
/// column and dimensions (see `cluster_table_spec`).
pub fn cluster_table_sql(table_name: &str, time_col: &str, dimensions: &Vec<String>) -> (r: String)
    ensures
        r@ == cluster_table_spec(table_name@, time_col@, strings_view(dimensions@)),
{
    let mut parts: Vec<Vec<char>> = Vec::new();
    quoted_all(&mut parts, dimensions, false);
    proof {
        assert(seqs_view(parts@) =~= quoted_list(strings_view(dimensions@), false));
    }
    let dims = join_chars(&parts, ", ");
    let mut index = chars_of("idx_z_");
    push_str(&mut index, table_name);
    let mut v = chars_of("CREATE INDEX IF NOT EXISTS \"");
    push_chars(&mut v, &index);
    push_str(&mut v, "\" ON \"");
    push_str(&mut v, table_name);
    push_str(&mut v, "\" (spiral_zorder(spiral(\"");
    push_str(&mut v, time_col);
    push_str(&mut v, "\"), ARRAY[");
    push_chars(&mut v, &dims);
    push_str(&mut v, "]::text[]));\n         CLUSTER \"");
    push_str(&mut v, table_name);
    push_str(&mut v, "\" USING \"");
    push_chars(&mut v, &index);
    push_str(&mut v, "\";");
    string_from_chars(&v)
}

} // verus!
