//! Scheduling decisions of the background refresh workers: how the dirty
//! scopes a worker claims are grouped by base table, which advisory lock
//! guards a scope, how many scopes a tick may take, and the statements that
//! claim and refresh them.
use vstd::prelude::*;
use crate::rollup::strings_view;
use crate::text::{chars_of, double_char, int_text, push_doubled, push_i64, push_str, string_from_chars};
use crate::zorder::{fnv1a_64, fnv1a_spec, utf8_of};

verus! {

/// Advisory-lock namespace of the scope locks (the FNV hash of
/// `spiral:scope`, as a 32-bit integer).
pub const SCOPE_LOCK_NS: i32 = 0x5350_5343;

/// The text a scope's lock is derived from: `base_view:scope_json`.
pub open spec fn scope_lock_text(base_view: Seq<char>, scope_json: Seq<char>) -> Seq<char> {
    base_view + ":"@ + scope_json
}

/// The advisory lock of one scope of a base table: the FNV-1a hash of the
/// UTF-8 bytes of `base_view:scope_json`, truncated to 32 bits.
pub fn scope_lock_key(base_view: &str, scope_json: &str) -> (r: i32)
    ensures
        r == fnv1a_spec(utf8_of(scope_lock_text(base_view@, scope_json@))) as i32,
{
    let mut v = chars_of(base_view);
    push_str(&mut v, ":");
    push_str(&mut v, scope_json);
    let key = string_from_chars(&v);
    let h = fnv1a_64(key.as_str().as_bytes());
    h as i32
}

/// The scopes of the pairs whose base table is `base`, in order.
pub open spec fn scopes_of(pairs: Seq<(Seq<char>, Seq<char>)>, base: Seq<char>) -> Seq<Seq<char>>
    decreases pairs.len(),
{
    if pairs.len() == 0 {
        Seq::empty()
    } else {
        let prev = scopes_of(pairs.drop_last(), base);
        if pairs.last().0 == base {
            prev.push(pairs.last().1)
        } else {
            prev
        }
    }
}

/// The base tables of the pairs, each once, in order of first appearance.
pub open spec fn bases_of(pairs: Seq<(Seq<char>, Seq<char>)>) -> Seq<Seq<char>>
    decreases pairs.len(),
{
    if pairs.len() == 0 {
        Seq::empty()
    } else {
        let prev = bases_of(pairs.drop_last());
        if prev.contains(pairs.last().0) {
            prev
        } else {
            prev.push(pairs.last().0)
        }
    }
}

/// The pairs grouped by base table: each base table once, in order of
/// first appearance, with its scopes in order.
pub open spec fn grouped(pairs: Seq<(Seq<char>, Seq<char>)>) -> Seq<(Seq<char>, Seq<Seq<char>>)> {
    bases_of(pairs).map_values(|b: Seq<char>| (b, scopes_of(pairs, b)))
}

/// The views of `(base_view, scope_json)` pairs.
pub open spec fn pairs_view(v: Seq<(String, String)>) -> Seq<(Seq<char>, Seq<char>)> {
    v.map_values(|p: (String, String)| (p.0@, p.1@))
}

/// The views of grouped scopes.
pub open spec fn groups_view(v: Seq<(String, Vec<String>)>) -> Seq<(Seq<char>, Seq<Seq<char>>)> {
    v.map_values(|g: (String, Vec<String>)| (g.0@, strings_view(g.1@)))
}

proof fn lemma_bases_of_distinct(pairs: Seq<(Seq<char>, Seq<char>)>)
    ensures
        bases_of(pairs).no_duplicates(),
        forall|k: int| 0 <= k < pairs.len() ==> bases_of(pairs).contains(#[trigger] pairs[k].0),
    decreases pairs.len(),
{
    if pairs.len() > 0 {
        let w = pairs.drop_last();
        lemma_bases_of_distinct(w);
        assert forall|k: int| 0 <= k < pairs.len() implies bases_of(pairs).contains(#[trigger] pairs[k].0) by {
            if k < w.len() {
                assert(w[k] == pairs[k]);
                assert(bases_of(w).contains(w[k].0));
                if !bases_of(w).contains(pairs.last().0) {
                    let i = choose|i: int| 0 <= i < bases_of(w).len() && bases_of(w)[i] == w[k].0;
                    assert(bases_of(pairs)[i] == w[k].0);
                }
            } else {
                if !bases_of(w).contains(pairs.last().0) {
                    assert(bases_of(pairs)[bases_of(w).len() as int] == pairs.last().0);
                }
            }
        }
    }
}

/// Groups the `(base_view, scope_json)` pairs a worker claimed by base
/// table: each base table once, in order of first appearance, with its
/// scopes in the order they came.
pub fn group_scopes_by_base(pairs: &Vec<(String, String)>) -> (r: Vec<(String, Vec<String>)>)
    ensures
        groups_view(r@) == grouped(pairs_view(pairs@)),
{
    let ghost pv = pairs_view(pairs@);
    let n = pairs.len();
    let mut out: Vec<(String, Vec<String>)> = Vec::new();
    let mut i: usize = 0;
    proof {
        assert(pv.take(0) =~= Seq::<(Seq<char>, Seq<char>)>::empty());
        assert(groups_view(out@) =~= grouped(pv.take(0)));
    }
    while i < n
        invariant
            n == pairs@.len(),
            pv == pairs_view(pairs@),
            i <= n,
            groups_view(out@) == grouped(pv.take(i as int)),
        decreases n - i,
    {
        let ghost prev = pv.take(i as int);
        let ghost next = pv.take(i + 1);
        let ghost g0 = groups_view(out@);
        proof {
            assert(next.drop_last() =~= prev);
            assert(next.last() == pv[i as int]);
            assert(pv[i as int] == (pairs@[i as int].0@, pairs@[i as int].1@));
        }
        let b = pairs[i].0.clone();
        let s = pairs[i].1.clone();
        let m = out.len();
        let mut j: usize = 0;
        while j < m && out[j].0 != b
            invariant
                m == out@.len(),
                j <= m,
                forall|k: int| 0 <= k < j ==> (#[trigger] out@[k]).0@ != b@,
            decreases m - j,
        {
            j = j + 1;
        }
        let ghost o0 = out@;
        if j < m {
            proof {
                assert(out@[j as int].0@ == b@);
                assert(g0[j as int] == (out@[j as int].0@, strings_view(out@[j as int].1@)));
                assert(g0.len() == bases_of(prev).len());
                assert(grouped(prev)[j as int].0 == bases_of(prev)[j as int]);
                assert(bases_of(prev)[j as int] == b@);
                assert(bases_of(prev).contains(b@));
                assert(bases_of(next) == bases_of(prev));
            }
            let (gb, mut gs) = out.remove(j);
            let ghost removed = out@;
            gs.push(s);
            out.insert(j, (gb, gs));
            proof {
                lemma_bases_of_distinct(prev);
                assert(strings_view(gs@) =~= strings_view(gs@.drop_last()).push(s@));
                assert forall|k: int| 0 <= k < groups_view(out@).len() implies #[trigger] groups_view(out@)[k]
                    == grouped(next)[k] by {
                    if k == j {
                        assert(groups_view(out@)[k] == (gb@, strings_view(gs@)));
                    } else {
                        assert(g0[k].0 == bases_of(prev)[k]);
                        assert(bases_of(prev)[k] != b@);
                        if k < j {
                            assert(out@[k] == removed[k]);
                        } else {
                            assert(out@[k] == removed[k - 1]);
                        }
                    }
                }
                assert(groups_view(out@) =~= grouped(next));
            }
        } else {
            let mut gs: Vec<String> = Vec::new();
            gs.push(s);
            out.push((b, gs));
            proof {
                assert(g0.len() == bases_of(prev).len());
                assert(o0.len() == g0.len());
                assert(forall|k: int| 0 <= k < m ==> (#[trigger] o0[k]).0@ != b@);
                assert(!bases_of(prev).contains(b@)) by {
                    if bases_of(prev).contains(b@) {
                        let k = choose|k: int| 0 <= k < bases_of(prev).len() && bases_of(prev)[k] == b@;
                        assert(g0[k].0 == bases_of(prev)[k]);
                        assert(g0[k] == (o0[k].0@, strings_view(o0[k].1@)));
                        assert(o0[k].0@ != b@);
                    }
                }
                assert(bases_of(next) == bases_of(prev).push(b@));
                assert(scopes_of(prev, b@) =~= Seq::<Seq<char>>::empty()) by {
                    lemma_scopes_of_absent(prev, b@);
                }
                assert forall|k: int| 0 <= k < groups_view(out@).len() implies #[trigger] groups_view(out@)[k]
                    == grouped(next)[k] by {
                    if k < m {
                        assert(g0[k].0 == bases_of(prev)[k]);
                        assert(bases_of(prev)[k] != b@);
                        assert(groups_view(out@)[k] == g0[k]);
                    } else {
                        assert(strings_view(gs@) =~= seq![s@]);
                    }
                }
                assert(groups_view(out@) =~= grouped(next));
            }
        }
        i = i + 1;
    }
    proof {
        assert(pv.take(n as int) =~= pv);
    }
    out
}

proof fn lemma_scopes_of_absent(pairs: Seq<(Seq<char>, Seq<char>)>, base: Seq<char>)
    requires
        !bases_of(pairs).contains(base),
    ensures
        scopes_of(pairs, base).len() == 0,
    decreases pairs.len(),
{
    if pairs.len() > 0 {
        let w = pairs.drop_last();
        if bases_of(w).contains(base) {
            let k = choose|k: int| 0 <= k < bases_of(w).len() && bases_of(w)[k] == base;
            if !bases_of(w).contains(pairs.last().0) {
                assert(bases_of(pairs)[k] == base);
            } else {
                assert(bases_of(pairs)[k] == base);
            }
        }
        if !bases_of(w).contains(pairs.last().0) {
            assert(bases_of(pairs)[bases_of(w).len() as int] == pairs.last().0);
        } else {
            assert(pairs.last().0 != base);
        }
        lemma_scopes_of_absent(w, base);
    }
}

/// The statement that lists up to twice `batch_size` dirty
/// `(base_view, scope)` pairs, those with the oldest dirty time first.
pub fn claim_scopes_sql(batch_size: i32) -> (r: String)
    requires
        1 <= batch_size <= 1000,
    ensures
        r@ == "SELECT base_view, scope_values::text FROM spiral.changelog GROUP BY base_view, scope_values ORDER BY MIN(t_start) ASC LIMIT "@
            + int_text(2 * batch_size),
{
    let mut v = chars_of(
        "SELECT base_view, scope_values::text FROM spiral.changelog GROUP BY base_view, scope_values ORDER BY MIN(t_start) ASC LIMIT ",
    );
    push_i64(&mut v, 2 * batch_size as i64);
    string_from_chars(&v)
}

/// The statement that takes the session lock of worker slot `slot` of a
/// database.
pub fn slot_lock_sql(db_oid: u32, slot: i32) -> (r: String)
    ensures
        r@ == "SELECT pg_try_advisory_lock("@ + int_text(db_oid as int) + ", "@ + int_text(slot as int) + ")"@,
{
    let mut v = chars_of("SELECT pg_try_advisory_lock(");
    push_i64(&mut v, db_oid as i64);
    push_str(&mut v, ", ");
    push_i64(&mut v, slot as i64);
    push_str(&mut v, ")");
    string_from_chars(&v)
}

/// The statement that tests, within a transaction, that work is not
/// paused for a database (a shared lock that a pause holds exclusively).
pub fn work_gate_sql(db_oid: u32) -> (r: String)
    ensures
        r@ == "SELECT pg_try_advisory_xact_lock_shared("@ + int_text(db_oid as int) + ", 0)"@,
{
    let mut v = chars_of("SELECT pg_try_advisory_xact_lock_shared(");
    push_i64(&mut v, db_oid as i64);
    push_str(&mut v, ", 0)");
    string_from_chars(&v)
}

/// The statement that takes a scope's transaction lock.
pub fn scope_lock_sql(lock_key: i32) -> (r: String)
    ensures
        r@ == "SELECT pg_try_advisory_xact_lock("@ + int_text(SCOPE_LOCK_NS as int) + ", "@ + int_text(lock_key as int)
            + ")"@,
{
    let mut v = chars_of("SELECT pg_try_advisory_xact_lock(");
    push_i64(&mut v, SCOPE_LOCK_NS as i64);
    push_str(&mut v, ", ");
    push_i64(&mut v, lock_key as i64);
    push_str(&mut v, ")");
    string_from_chars(&v)
}

/// Whether a worker that has refreshed `processed` scopes this tick and
/// holds `locked` more may try to lock another one.
pub fn may_claim_more(processed: i32, locked: usize, batch_size: i32) -> (r: bool)
    ensures
        r == (processed + locked < batch_size),
{
    if locked as u64 >= 0x1_0000_0000u64 {
        false
    } else {
        (processed as i64) + (locked as i64) < batch_size as i64
    }
}

/// A hexadecimal digit (lower case) of a value below 16.
pub open spec fn hex_digit(d: int) -> char {
    if d < 10 {
        ('0' as int + d) as char
    } else {
        ('a' as int + d - 10) as char
    }
}

/// How `serde_json` writes a character inside a JSON string: `"` and `\`
/// escaped with a backslash, backspace, tab, line feed, form feed and
/// carriage return by their short escapes, other control characters below
/// U+0020 as `\u00XX` (lower-case hex), anything else as itself.
pub open spec fn json_escape_char(c: char) -> Seq<char> {
    if c == '"' {
        "\\\""@
    } else if c == '\\' {
        "\\\\"@
    } else if c == '\u{8}' {
        "\\b"@
    } else if c == '\t' {
        "\\t"@
    } else if c == '\n' {
        "\\n"@
    } else if c == '\u{c}' {
        "\\f"@
    } else if c == '\r' {
        "\\r"@
    } else if (c as int) < 0x20 {
        "\\u00"@ + seq![hex_digit((c as int) / 16), hex_digit((c as int) % 16)]
    } else {
        seq![c]
    }
}

/// The escaped body of a JSON string.
pub open spec fn json_escape(s: Seq<char>) -> Seq<char>
    decreases s.len(),
{
    if s.len() == 0 {
        Seq::empty()
    } else {
        json_escape(s.drop_last()) + json_escape_char(s.last())
    }
}

/// The JSON strings of a list of texts.
pub open spec fn json_strings(items: Seq<Seq<char>>) -> Seq<Seq<char>> {
    items.map_values(|s: Seq<char>| "\""@ + json_escape(s) + "\""@)
}

/// What `serde_json::to_string` makes of a list of strings: a compact JSON
/// array of JSON strings. Serialising strings into memory cannot fail.
pub open spec fn json_array_text(items: Seq<Seq<char>>) -> Option<Seq<char>> {
    Some("["@ + crate::text::join_spec(json_strings(items), ","@) + "]"@)
}

/// Serialises a list of strings with `serde_json::to_string` (see
/// `json_array_text`).
#[verifier::external_body]
pub(crate) fn json_string_array(items: &Vec<String>) -> (r: Option<String>)
    ensures
        crate::rollup::opt_text(r) == json_array_text(strings_view(items@)),
{
    serde_json::to_string(items).ok()
}

/// The statement that refreshes the locked scopes of a base table at once,
/// given the scopes' JSON array text (`None` where serialising failed, read
/// as `[]`).
pub open spec fn refresh_scopes_spec(base_view: Seq<char>, scopes_json: Option<Seq<char>>) -> Seq<char> {
    "SELECT spiral_refresh_scopes('"@ + double_char(base_view, '\'') + "', '"@ + double_char(
        match scopes_json {
            Some(j) => j,
            None => "[]"@,
        },
        '\'',
    ) + "'::jsonb)"@
}

/// The statement that refreshes the locked scopes of a base table at once,
/// the scopes passed as a JSON array (`[]` should serialising fail).
pub fn refresh_scopes_sql(base_view: &str, scopes: &Vec<String>) -> (r: String)
    ensures
        r@ == refresh_scopes_spec(base_view@, json_array_text(strings_view(scopes@))),
{
    let json = json_string_array(scopes);
    let j: Option<&str> = match &json {
        Some(t) => Some(t.as_str()),
        None => None,
    };
    refresh_scopes_from_json(base_view, j)
}

/// The refresh statement for a base table's scopes given as JSON array
/// text (see `refresh_scopes_spec`).
pub fn refresh_scopes_from_json(base_view: &str, scopes_json: Option<&str>) -> (r: String)
    ensures
        r@ == refresh_scopes_spec(base_view@, crate::rollup::opt_str(scopes_json)),
{
    let json = match scopes_json {
        Some(j) => chars_of(j),
        None => chars_of("[]"),
    };
    let mut v = chars_of("SELECT spiral_refresh_scopes('");
    push_doubled(&mut v, &chars_of(base_view), '\'');
    push_str(&mut v, "', '");
    push_doubled(&mut v, &json, '\'');
    push_str(&mut v, "'::jsonb)");
    string_from_chars(&v)
}

} // verus!
