//! Bulk backfill of a statistics tier: the scan that reads the base table
//! by scope and bucket, and the batched inserts that write the accumulated
//! states back.
use vstd::prelude::*;
use crate::rollup::strings_view;
use crate::text::{
    chars_of, double_char, int_text, join_chars, join_spec, push_chars, push_doubled, push_i64,
    push_str, seqs_view, string_from_chars,
};

verus! {

/// `name` as a quoted identifier, inner quotes doubled.
pub open spec fn ident(name: Seq<char>) -> Seq<char> {
    "\""@ + double_char(name, '"') + "\""@
}

fn push_ident(out: &mut Vec<char>, name: &str)
    ensures
        final(out)@ == old(out)@ + ident(name@),
{
    push_str(out, "\"");
    push_doubled(out, &chars_of(name), '"');
    push_str(out, "\"");
    proof {
        assert(final(out)@ =~= old(out)@ + ident(name@));
    }
}

/// Each name as a quoted identifier followed by `suffix`.
pub open spec fn idents_with(names: Seq<Seq<char>>, suffix: Seq<char>) -> Seq<Seq<char>>
    decreases names.len(),
{
    if names.len() == 0 {
        Seq::empty()
    } else {
        idents_with(names.drop_last(), suffix).push(ident(names.last()) + suffix)
    }
}

fn idents_with_exec(names: &Vec<String>, suffix: &str) -> (r: Vec<Vec<char>>)
    ensures
        seqs_view(r@) == idents_with(strings_view(names@), suffix@),
{
    let ghost nv = strings_view(names@);
    let n = names.len();
    let mut out: Vec<Vec<char>> = Vec::new();
    let mut i: usize = 0;
    proof {
        assert(nv.take(0) =~= Seq::<Seq<char>>::empty());
        assert(seqs_view(out@) =~= Seq::<Seq<char>>::empty());
    }
    while i < n
        invariant
            n == names@.len(),
            nv == strings_view(names@),
            i <= n,
            seqs_view(out@) == idents_with(nv.take(i as int), suffix@),
        decreases n - i,
    {
        let mut item: Vec<char> = Vec::new();
        push_ident(&mut item, names[i].as_str());
        push_str(&mut item, suffix);
        proof {
            assert(nv.take(i + 1).drop_last() =~= nv.take(i as int));
            assert(nv.take(i + 1).last() == names@[i as int]@);
            assert(item@ =~= ident(names@[i as int]@) + suffix@);
            crate::rollup::lemma_seqs_view_push(out@, item);
        }
        out.push(item);
        i = i + 1;
    }
    proof {
        assert(nv.take(n as int) =~= nv);
    }
    out
}

/// The scan of a backfill: each row's scope values as text, its bucket
/// (epoch seconds divided by the frame) and its value as a double.
pub open spec fn scan_sql_spec(base_view: Seq<char>, frame_seconds: int, scope: Seq<Seq<char>>, value_col: Seq<char>) -> Seq<char> {
    let tail = "(extract(epoch from t)::bigint / "@ + int_text(frame_seconds) + ") AS bucket, "@ + ident(value_col)
        + "::float8 AS val"@;
    let select_list = if scope.len() == 0 {
        tail
    } else {
        join_spec(idents_with(scope, "::text"@), ", "@) + ", "@ + tail
    };
    "SELECT "@ + select_list + " FROM "@ + ident(base_view)
}

/// The scan of a backfill (see `scan_sql_spec`).
pub fn build_scan_sql(base_view: &str, frame_seconds: i64, scope_cols: &Vec<String>, value_col: &str) -> (r: String)
    ensures
        r@ == scan_sql_spec(base_view@, frame_seconds as int, strings_view(scope_cols@), value_col@),
{
    let mut v = chars_of("SELECT ");
    if scope_cols.len() > 0 {
        push_chars(&mut v, &join_chars(&idents_with_exec(scope_cols, "::text"), ", "));
        push_str(&mut v, ", ");
    }
    push_str(&mut v, "(extract(epoch from t)::bigint / ");
    push_i64(&mut v, frame_seconds);
    push_str(&mut v, ") AS bucket, ");
    push_ident(&mut v, value_col);
    push_str(&mut v, "::float8 AS val");
    push_str(&mut v, " FROM ");
    push_ident(&mut v, base_view);
    proof {
        assert(v@ =~= scan_sql_spec(base_view@, frame_seconds as int, strings_view(scope_cols@), value_col@));
    }
    string_from_chars(&v)
}

/// The lower-case hexadecimal digit of `d < 16`.
pub open spec fn hex_digit(d: int) -> char {
    if d < 10 {
        (('0' as int) + d) as char
    } else {
        (('a' as int) + d - 10) as char
    }
}

/// The bytes in lower-case hexadecimal, two digits each.
pub open spec fn hex_text(bytes: Seq<u8>) -> Seq<char>
    decreases bytes.len(),
{
    if bytes.len() == 0 {
        Seq::empty()
    } else {
        hex_text(bytes.drop_last()).push(hex_digit(bytes.last() as int / 16)).push(hex_digit(bytes.last() as int % 16))
    }
}

fn hex_char(d: u8) -> (c: char)
    requires
        d < 16,
    ensures
        c == hex_digit(d as int),
{
    if d < 10 {
        ((48u8 + d) as char)
    } else {
        ((87u8 + d) as char)
    }
}

/// The bytes in lower-case hexadecimal.
pub fn to_hex(bytes: &Vec<u8>) -> (r: String)
    ensures
        r@ == hex_text(bytes@),
{
    let mut v: Vec<char> = Vec::new();
    let n = bytes.len();
    let mut i: usize = 0;
    proof {
        assert(bytes@.take(0) =~= Seq::<u8>::empty());
    }
    while i < n
        invariant
            n == bytes@.len(),
            i <= n,
            v@ == hex_text(bytes@.take(i as int)),
        decreases n - i,
    {
        let b = bytes[i];
        proof {
            assert(bytes@.take(i + 1).drop_last() =~= bytes@.take(i as int));
            assert(bytes@.take(i + 1).last() == b);
        }
        v.push(hex_char(b / 16));
        v.push(hex_char(b % 16));
        i = i + 1;
    }
    proof {
        assert(bytes@.take(n as int) =~= bytes@);
    }
    string_from_chars(&v)
}

/// A text as a quoted SQL literal.
pub open spec fn literal(s: Seq<char>) -> Seq<char> {
    "'"@ + double_char(s, '\'') + "'"@
}

/// Each text as a quoted SQL literal.
pub open spec fn literals(v: Seq<Seq<char>>) -> Seq<Seq<char>>
    decreases v.len(),
{
    if v.len() == 0 {
        Seq::empty()
    } else {
        literals(v.drop_last()).push(literal(v.last()))
    }
}

/// The values row of one accumulated group: its scope values, its bucket
/// and its encoded state as a `bytea` literal.
pub open spec fn group_row(scopes: Seq<Seq<char>>, bucket: int, state: Seq<u8>) -> Seq<char> {
    let tail = int_text(bucket) + ", '\\x"@ + hex_text(state) + "'::bytea)"@;
    if scopes.len() == 0 {
        "("@ + tail
    } else {
        "("@ + join_spec(literals(scopes), ", "@) + ", "@ + tail
    }
}

/// The views of accumulated groups.
pub open spec fn groups_view(v: Seq<(Vec<String>, i64, Vec<u8>)>) -> Seq<(Seq<Seq<char>>, i64, Seq<u8>)> {
    v.map_values(|g: (Vec<String>, i64, Vec<u8>)| (strings_view(g.0@), g.1, g.2@))
}

/// The values rows of the groups, in order.
pub open spec fn group_rows(groups: Seq<(Seq<Seq<char>>, i64, Seq<u8>)>) -> Seq<Seq<char>>
    decreases groups.len(),
{
    if groups.len() == 0 {
        Seq::empty()
    } else {
        group_rows(groups.drop_last()).push(group_row(groups.last().0, groups.last().1 as int, groups.last().2))
    }
}

/// How many values rows one insert carries.
pub const INSERT_BATCH: usize = 5000;

/// The column list of the inserts.
pub open spec fn insert_columns(scope: Seq<Seq<char>>, stats_col: Seq<char>) -> Seq<char> {
    if scope.len() == 0 {
        "bucket, "@ + ident(stats_col)
    } else {
        join_spec(idents_with(scope, Seq::empty()), ", "@) + ", bucket, "@ + ident(stats_col)
    }
}

/// One insert of a batch of values rows.
pub open spec fn insert_sql(tier: Seq<char>, cols: Seq<char>, batch: Seq<Seq<char>>) -> Seq<char> {
    "INSERT INTO "@ + ident(tier) + " ("@ + cols + ") VALUES "@ + join_spec(batch, ", "@)
}

/// The inserts of the values rows, `INSERT_BATCH` rows at a time, in order.
pub open spec fn insert_statements(tier: Seq<char>, cols: Seq<char>, rows: Seq<Seq<char>>) -> Seq<Seq<char>>
    decreases rows.len(),
{
    if rows.len() == 0 {
        Seq::empty()
    } else if rows.len() <= INSERT_BATCH {
        seq![insert_sql(tier, cols, rows)]
    } else {
        seq![insert_sql(tier, cols, rows.take(INSERT_BATCH as int))] + insert_statements(
            tier,
            cols,
            rows.skip(INSERT_BATCH as int),
        )
    }
}

fn group_row_exec(scopes: &Vec<String>, bucket: i64, state: &Vec<u8>) -> (r: Vec<char>)
    ensures
        r@ == group_row(strings_view(scopes@), bucket as int, state@),
{
    let ghost sv = strings_view(scopes@);
    let mut v = chars_of("(");
    if scopes.len() > 0 {
        let mut lits: Vec<Vec<char>> = Vec::new();
        let n = scopes.len();
        let mut i: usize = 0;
        proof {
            assert(sv.take(0) =~= Seq::<Seq<char>>::empty());
            assert(seqs_view(lits@) =~= Seq::<Seq<char>>::empty());
        }
        while i < n
            invariant
                n == scopes@.len(),
                sv == strings_view(scopes@),
                i <= n,
                seqs_view(lits@) == literals(sv.take(i as int)),
            decreases n - i,
        {
            let mut l = chars_of("'");
            push_doubled(&mut l, &chars_of(scopes[i].as_str()), '\'');
            push_str(&mut l, "'");
            proof {
                assert(sv.take(i + 1).drop_last() =~= sv.take(i as int));
                assert(sv.take(i + 1).last() == scopes@[i as int]@);
                crate::rollup::lemma_seqs_view_push(lits@, l);
            }
            lits.push(l);
            i = i + 1;
        }
        proof {
            assert(sv.take(n as int) =~= sv);
        }
        push_chars(&mut v, &join_chars(&lits, ", "));
        push_str(&mut v, ", ");
    }
    push_i64(&mut v, bucket);
    push_str(&mut v, ", '\\x");
    push_str(&mut v, to_hex(state).as_str());
    push_str(&mut v, "'::bytea)");
    proof {
        assert(v@ =~= group_row(sv, bucket as int, state@));
    }
    v
}

/// The inserts that write accumulated groups `(scope values, bucket,
/// encoded state)` into a statistics tier, `INSERT_BATCH` rows at a time.
pub fn backfill_inserts(
    tier_table: &str,
    scope_cols: &Vec<String>,
    stats_col: &str,
    groups: &Vec<(Vec<String>, i64, Vec<u8>)>,
) -> (r: Vec<String>)
    ensures
        strings_view(r@) == insert_statements(
            tier_table@,
            insert_columns(strings_view(scope_cols@), stats_col@),
            group_rows(groups_view(groups@)),
        ),
{
    let ghost gv = groups_view(groups@);
    let mut rows: Vec<Vec<char>> = Vec::new();
    let n = groups.len();
    let mut i: usize = 0;
    proof {
        assert(gv.take(0) =~= Seq::<(Seq<Seq<char>>, i64, Seq<u8>)>::empty());
        assert(seqs_view(rows@) =~= Seq::<Seq<char>>::empty());
    }
    while i < n
        invariant
            n == groups@.len(),
            gv == groups_view(groups@),
            i <= n,
            seqs_view(rows@) == group_rows(gv.take(i as int)),
        decreases n - i,
    {
        let row = group_row_exec(&groups[i].0, groups[i].1, &groups[i].2);
        proof {
            assert(gv.take(i + 1).drop_last() =~= gv.take(i as int));
            assert(gv.take(i + 1).last() == (strings_view(groups@[i as int].0@), groups@[i as int].1, groups@[i as int].2@));
            crate::rollup::lemma_seqs_view_push(rows@, row);
        }
        rows.push(row);
        i = i + 1;
    }
    proof {
        assert(gv.take(n as int) =~= gv);
    }
    let mut cols: Vec<char> = Vec::new();
    if scope_cols.len() > 0 {
        let idents = idents_with_exec(scope_cols, "");
        proof {
            reveal_strlit("");
            assert(""@ =~= Seq::<char>::empty());
        }
        push_chars(&mut cols, &join_chars(&idents, ", "));
        push_str(&mut cols, ", bucket, ");
    } else {
        push_str(&mut cols, "bucket, ");
    }
    push_ident(&mut cols, stats_col);
    proof {
        assert(cols@ =~= insert_columns(strings_view(scope_cols@), stats_col@));
    }
    let ghost rv = seqs_view(rows@);
    let ghost all = insert_statements(tier_table@, cols@, rv);
    let mut out: Vec<String> = Vec::new();
    let m = rows.len();
    let mut start: usize = 0;
    proof {
        assert(rv.skip(0) =~= rv);
        assert(strings_view(out@) + insert_statements(tier_table@, cols@, rv.skip(0)) =~= all);
    }
    while start < m
        invariant
            m == rows@.len(),
            rv == seqs_view(rows@),
            start <= m,
            strings_view(out@) + insert_statements(tier_table@, cols@, rv.skip(start as int)) == all,
        decreases m - start,
    {
        let end = if m - start <= INSERT_BATCH {
            m
        } else {
            start + INSERT_BATCH
        };
        let mut chunk: Vec<Vec<char>> = Vec::new();
        let mut k: usize = start;
        while k < end
            invariant
                start <= k <= end,
                end <= m,
                m == rows@.len(),
                rv == seqs_view(rows@),
                seqs_view(chunk@) == rv.subrange(start as int, k as int),
            decreases end - k,
        {
            let c = rows[k].clone();
            proof {
                crate::rollup::lemma_seqs_view_push(chunk@, c);
                assert(rv.subrange(start as int, k + 1) =~= rv.subrange(start as int, k as int).push(c@));
            }
            chunk.push(c);
            k = k + 1;
        }
        let mut stmt = chars_of("INSERT INTO ");
        push_ident(&mut stmt, tier_table);
        push_str(&mut stmt, " (");
        push_chars(&mut stmt, &cols);
        push_str(&mut stmt, ") VALUES ");
        push_chars(&mut stmt, &join_chars(&chunk, ", "));
        let st = string_from_chars(&stmt);
        proof {
            let rest = rv.skip(start as int);
            if m - start <= INSERT_BATCH {
                assert(rv.subrange(start as int, end as int) =~= rest);
                assert(rv.skip(end as int) =~= Seq::<Seq<char>>::empty());
                assert(insert_statements(tier_table@, cols@, rest) == seq![insert_sql(tier_table@, cols@, rest)]);
            } else {
                assert(rv.subrange(start as int, end as int) =~= rest.take(INSERT_BATCH as int));
                assert(rest.skip(INSERT_BATCH as int) =~= rv.skip(end as int));
            }
            assert(st@ == insert_sql(tier_table@, cols@, rv.subrange(start as int, end as int)));
            assert(strings_view(out@.push(st)) =~= strings_view(out@).push(st@));
            assert(strings_view(out@).push(st@) + insert_statements(tier_table@, cols@, rv.skip(end as int)) =~= strings_view(
                out@,
            ) + insert_statements(tier_table@, cols@, rest));
        }
        out.push(st);
        start = end;
    }
    proof {
        assert(rv.skip(m as int) =~= Seq::<Seq<char>>::empty());
        assert(strings_view(out@) + Seq::<Seq<char>>::empty() =~= strings_view(out@));
    }
    out
}

} // verus!
