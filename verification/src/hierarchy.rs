//! The tiers a table set up for rollups gets: one per frame, coarser tiers
//! reading finer ones, each created by a statement that groups its parent
//! by bucket and scope and materialises the columns it is told to keep.
use vstd::prelude::*;
use crate::hooks::{find_sub, find_sub_exec, lowercase_of, to_lower};
use crate::rollup::{
    copy_source, opt_text, quoted, quoted_all, quoted_list, source_view, sources_view, strings_view,
    SourceDef,
};
use crate::text::{
    chars_eq, chars_of, int_text, join_chars, join_spec, push_chars, push_i64, push_str, seqs_view,
    string_from_chars,
};

verus! {

/// The keys at the given positions, in order.
pub open spec fn picked(keys: Seq<Seq<char>>, pos: Seq<int>) -> Seq<Seq<char>> {
    pos.map_values(|i: int| keys[i])
}

/// The positions of the keys that are new: not in `seen` and not equal to
/// an earlier key, in order (a set that grows as the keys are inserted).
pub open spec fn fresh_positions(keys: Seq<Seq<char>>, seen: Seq<Seq<char>>) -> Seq<int>
    decreases keys.len(),
{
    if keys.len() == 0 {
        Seq::empty()
    } else {
        let p = fresh_positions(keys.drop_last(), seen);
        let x = keys.last();
        if seen.contains(x) || picked(keys.drop_last(), p).contains(x) {
            p
        } else {
            p.push(keys.len() - 1)
        }
    }
}

proof fn lemma_fresh_positions_range(keys: Seq<Seq<char>>, seen: Seq<Seq<char>>)
    ensures
        forall|k: int| 0 <= k < fresh_positions(keys, seen).len() ==> 0 <= #[trigger] fresh_positions(keys, seen)[k] < keys.len(),
        picked(keys, fresh_positions(keys, seen)) == picked(keys.drop_last(), fresh_positions(keys, seen)) || (
            fresh_positions(keys, seen).len() > 0 && fresh_positions(keys, seen).last() == keys.len() - 1),
    decreases keys.len(),
{
    if keys.len() > 0 {
        lemma_fresh_positions_range(keys.drop_last(), seen);
    }
}

proof fn lemma_picked_prefix(keys: Seq<Seq<char>>, p: Seq<int>)
    requires
        keys.len() > 0,
        forall|k: int| 0 <= k < p.len() ==> 0 <= #[trigger] p[k] < keys.len() - 1,
    ensures
        picked(keys, p) == picked(keys.drop_last(), p),
{
    assert(picked(keys, p) =~= picked(keys.drop_last(), p));
}

proof fn lemma_add_contains(a: Seq<Seq<char>>, b: Seq<Seq<char>>, x: Seq<char>)
    ensures
        (a + b).contains(x) == (a.contains(x) || b.contains(x)),
{
    if a.contains(x) {
        let i = choose|i: int| 0 <= i < a.len() && a[i] == x;
        assert((a + b)[i] == x);
    }
    if b.contains(x) {
        let i = choose|i: int| 0 <= i < b.len() && b[i] == x;
        assert((a + b)[a.len() + i] == x);
    }
    if (a + b).contains(x) {
        let i = choose|i: int| 0 <= i < (a + b).len() && (a + b)[i] == x;
        if i < a.len() {
            assert(a[i] == x);
        } else {
            assert(b[i - a.len()] == x);
        }
    }
}

fn contains_chars(v: &Vec<Vec<char>>, x: &Vec<char>) -> (r: bool)
    ensures
        r == seqs_view(v@).contains(x@),
{
    let n = v.len();
    let mut i: usize = 0;
    while i < n
        invariant
            n == v@.len(),
            i <= n,
            forall|k: int| 0 <= k < i ==> seqs_view(v@)[k] != x@,
        decreases n - i,
    {
        if chars_eq(&v[i], x) {
            proof {
                assert(seqs_view(v@)[i as int] == x@);
            }
            return true;
        }
        i = i + 1;
    }
    false
}

/// The views of positions.
pub open spec fn positions_view(v: Seq<usize>) -> Seq<int> {
    v.map_values(|i: usize| i as int)
}

/// Inserts the keys into `seen` as a set, returning the positions of those
/// that were new.
fn insert_fresh(keys: &Vec<Vec<char>>, seen: &mut Vec<Vec<char>>) -> (r: Vec<usize>)
    ensures
        positions_view(r@) == fresh_positions(seqs_view(keys@), seqs_view(old(seen)@)),
        seqs_view(final(seen)@) == seqs_view(old(seen)@) + picked(
            seqs_view(keys@),
            fresh_positions(seqs_view(keys@), seqs_view(old(seen)@)),
        ),
{
    let ghost s0 = seqs_view(seen@);
    let ghost kv = seqs_view(keys@);
    let n = keys.len();
    let mut out: Vec<usize> = Vec::new();
    let mut i: usize = 0;
    proof {
        assert(kv.take(0) =~= Seq::<Seq<char>>::empty());
        assert(positions_view(out@) =~= Seq::<int>::empty());
        assert(seqs_view(seen@) =~= s0 + picked(kv.take(0), Seq::<int>::empty()));
    }
    while i < n
        invariant
            n == keys@.len(),
            kv == seqs_view(keys@),
            i <= n,
            positions_view(out@) == fresh_positions(kv.take(i as int), s0),
            seqs_view(seen@) == s0 + picked(kv.take(i as int), fresh_positions(kv.take(i as int), s0)),
        decreases n - i,
    {
        let ghost pre = kv.take(i as int);
        let ghost nxt = kv.take(i + 1);
        let ghost p = fresh_positions(pre, s0);
        proof {
            assert(nxt.drop_last() =~= pre);
            assert(nxt.last() == kv[i as int]);
            assert(kv[i as int] == keys@[i as int]@);
            lemma_fresh_positions_range(pre, s0);
            lemma_picked_prefix(nxt, p);
            lemma_add_contains(s0, picked(pre, p), kv[i as int]);
        }
        let x = &keys[i];
        if !contains_chars(seen, x) {
            let c = x.clone();
            proof {
                assert(c@ == x@);
            }
            let ghost before = seen@;
            seen.push(c);
            out.push(i);
            proof {
                assert(positions_view(out@) =~= p.push(i as int));
                assert(seqs_view(seen@) =~= seqs_view(before).push(c@));
                assert(picked(nxt, p.push(i as int)) =~= picked(nxt, p).push(kv[i as int]));
                assert(seqs_view(seen@) =~= s0 + picked(nxt, fresh_positions(nxt, s0)));
            }
        } else {
            proof {
                assert(fresh_positions(nxt, s0) == p);
            }
        }
        i = i + 1;
    }
    proof {
        assert(kv.take(n as int) =~= kv);
    }
    out
}

/// `pat` occurs in `s`.
pub open spec fn contains_text(s: Seq<char>, pat: Seq<char>) -> bool {
    find_sub(s, pat).is_some()
}

/// The state family a magic-comment formula names, by what its lower-cased
/// text contains (`stats`, then `ohlc`, `sketch`, `tdigest`), if any.
pub open spec fn state_family(formula: Seq<char>) -> Option<Seq<char>> {
    family_of_lowered(lowercase_of(formula))
}

/// The state family named by a lower-cased formula `f` (see `state_family`).
pub open spec fn family_of_lowered(f: Seq<char>) -> Option<Seq<char>> {
    if contains_text(f, "stats"@) {
        Some("stats"@)
    } else if contains_text(f, "ohlc"@) {
        Some("ohlcv"@)
    } else if contains_text(f, "sketch"@) {
        Some("sketch"@)
    } else if contains_text(f, "tdigest"@) {
        Some("tdigest"@)
    } else {
        None
    }
}

/// The formula a directive is registered with: its state family, else the
/// formula in lower case.
pub open spec fn registered_formula(formula: Seq<char>) -> Seq<char> {
    match state_family(formula) {
        Some(fam) => fam,
        None => lowercase_of(formula),
    }
}

/// The number of directives on column `c`.
pub open spec fn directive_count(custom: Seq<(Seq<char>, Seq<char>, Option<Seq<char>>)>, c: Seq<char>) -> int
    decreases custom.len(),
{
    if custom.len() == 0 {
        0
    } else {
        directive_count(custom.drop_last(), c) + if custom.last().0 == c {
            1int
        } else {
            0int
        }
    }
}

/// The column directive `i` materialises: its alias; else the column's own
/// name when it is the column's only directive; else the column's name
/// followed by `_` and the registered formula.
pub open spec fn mat_in(custom: Seq<(Seq<char>, Seq<char>, Option<Seq<char>>)>, i: int) -> Seq<char> {
    match custom[i].2 {
        Some(a) => a,
        None => if directive_count(custom, custom[i].0) <= 1 {
            custom[i].0
        } else {
            custom[i].0 + "_"@ + registered_formula(custom[i].1)
        },
    }
}

/// The materialised columns of the directives, in order.
pub open spec fn mat_names(custom: Seq<(Seq<char>, Seq<char>, Option<Seq<char>>)>) -> Seq<Seq<char>> {
    Seq::new(custom.len(), |i: int| mat_in(custom, i))
}

/// The select expression of a directive on the first tier: the state
/// accumulator of its family (OHLCV ones also taking the anchor's time),
/// else the formula applied as an aggregate.
pub open spec fn directive_select(anchor: Seq<char>, col: Seq<char>, formula: Seq<char>, mat: Seq<char>) -> Seq<char> {
    match state_family(formula) {
        Some(fam) => if fam == "ohlcv"@ {
            "spiral_ohlcv(\""@ + col + "\", spiral(\""@ + anchor + "\")) as \""@ + mat + "\""@
        } else {
            "spiral_"@ + fam + "(\""@ + col + "\") as \""@ + mat + "\""@
        },
        None => formula + "(\""@ + col + "\") as \""@ + mat + "\""@,
    }
}

/// The aggregate that merges a source's column into a coarser tier.
pub open spec fn merge_function(formula: Seq<char>) -> Seq<char> {
    if formula == "stats"@ {
        "spiral_stats_merge"@
    } else if formula == "sketch"@ {
        "spiral_sketch_merge"@
    } else if formula == "tdigest"@ {
        "spiral_tdigest_merge"@
    } else if formula == "ohlcv"@ {
        "spiral_ohlcv_merge"@
    } else if formula == "range_max_end"@ || formula == "range_merge"@ {
        "max"@
    } else {
        "sum"@
    }
}

/// The select expression that merges a source's column into a coarser tier.
pub open spec fn merge_select(formula: Seq<char>, mat: Seq<char>) -> Seq<char> {
    merge_function(formula) + "(\""@ + mat + "\") as \""@ + mat + "\""@
}

fn state_family_exec(formula: &str) -> (r: Option<&'static str>)
    ensures
        crate::rollup::opt_str(r) == state_family(formula@),
{
    let lower = to_lower(formula);
    state_family_of(lower.as_str())
}

/// The state family a lower-cased magic-comment formula names, if any.
pub fn state_family_of(lowered: &str) -> (r: Option<&'static str>)
    ensures
        crate::rollup::opt_str(r) == family_of_lowered(lowered@),
{
    let f = chars_of(lowered);
    if find_sub_exec(&f, "stats").is_some() {
        Some("stats")
    } else if find_sub_exec(&f, "ohlc").is_some() {
        Some("ohlcv")
    } else if find_sub_exec(&f, "sketch").is_some() {
        Some("sketch")
    } else if find_sub_exec(&f, "tdigest").is_some() {
        Some("tdigest")
    } else {
        None
    }
}

fn directive_select_exec(anchor: &str, col: &str, formula: &str, mat: &Vec<char>) -> (r: (Vec<char>, String))
    ensures
        r.0@ == directive_select(anchor@, col@, formula@, mat@),
        r.1@ == registered_formula(formula@),
{
    let mut out: Vec<char> = Vec::new();
    match state_family_exec(formula) {
        Some(fam) => {
            if chars_eq(&chars_of(fam), &chars_of("ohlcv")) {
                push_str(&mut out, "spiral_ohlcv(\"");
                push_str(&mut out, col);
                push_str(&mut out, "\", spiral(\"");
                push_str(&mut out, anchor);
                push_str(&mut out, "\")) as \"");
            } else {
                push_str(&mut out, "spiral_");
                push_str(&mut out, fam);
                push_str(&mut out, "(\"");
                push_str(&mut out, col);
                push_str(&mut out, "\") as \"");
            }
            push_chars(&mut out, mat);
            push_str(&mut out, "\"");
            proof {
                assert(out@ =~= directive_select(anchor@, col@, formula@, mat@));
            }
            (out, fam.to_owned())
        },
        None => {
            push_str(&mut out, formula);
            push_str(&mut out, "(\"");
            push_str(&mut out, col);
            push_str(&mut out, "\") as \"");
            push_chars(&mut out, mat);
            push_str(&mut out, "\"");
            proof {
                assert(out@ =~= directive_select(anchor@, col@, formula@, mat@));
            }
            (out, to_lower(formula))
        },
    }
}

fn merge_select_exec(formula: &String, mat: &String) -> (r: Vec<char>)
    ensures
        r@ == merge_select(formula@, mat@),
{
    let f = chars_of(formula.as_str());
    let func: &str = if chars_eq(&f, &chars_of("stats")) {
        "spiral_stats_merge"
    } else if chars_eq(&f, &chars_of("sketch")) {
        "spiral_sketch_merge"
    } else if chars_eq(&f, &chars_of("tdigest")) {
        "spiral_tdigest_merge"
    } else if chars_eq(&f, &chars_of("ohlcv")) {
        "spiral_ohlcv_merge"
    } else if chars_eq(&f, &chars_of("range_max_end")) || chars_eq(&f, &chars_of("range_merge")) {
        "max"
    } else {
        "sum"
    };
    let mut out = chars_of(func);
    push_str(&mut out, "(\"");
    push_str(&mut out, mat.as_str());
    push_str(&mut out, "\") as \"");
    push_str(&mut out, mat.as_str());
    push_str(&mut out, "\"");
    out
}

/// What `regex::Regex::new(pattern)` followed by `find(text)` gives: the
/// text before the first match and the match itself, `None` when nothing
/// matches or the pattern does not compile.
pub uninterp spec fn regex_first_split(pattern: Seq<char>, text: Seq<char>) -> Option<(Seq<char>, Seq<char>)>;

/// Finds the first match of `pattern` in `text` with the `regex` crate,
/// returning the text before it and the match. The contract names the
/// result only.
#[verifier::external_body]
fn regex_split_first(pattern: &str, text: &str) -> (r: Option<(String, String)>)
    ensures
        match r {
            Some((before, m)) => regex_first_split(pattern@, text@) == Some((before@, m@)),
            None => regex_first_split(pattern@, text@).is_none(),
        },
{
    let re = regex::Regex::new(pattern).ok()?;
    let m = re.find(text)?;
    Some((text[..m.start()].to_string(), m.as_str().to_string()))
}

/// A frame suffix at the end of a table name, such as `_15m` or `_1mon`.
pub const FRAME_SUFFIX_PATTERN: &'static str = "_\\d+[smhdwmon]$";

/// The prefix tier names are built from: the table's name without a
/// trailing frame suffix.
pub open spec fn base_prefix_spec(base_name: Seq<char>) -> Seq<char> {
    match regex_first_split(FRAME_SUFFIX_PATTERN@, base_name) {
        Some((before, _)) => before,
        None => base_name,
    }
}

/// The prefix tier names are built from (see `base_prefix_spec`).
pub fn base_prefix(base_name: &str) -> (r: String)
    ensures
        r@ == base_prefix_spec(base_name@),
{
    match regex_split_first(FRAME_SUFFIX_PATTERN, base_name) {
        Some((before, _)) => before,
        None => base_name.to_owned(),
    }
}

/// The views of magic-comment directives.
pub open spec fn directives_view(v: Seq<(String, String, Option<String>)>) -> Seq<(Seq<char>, Seq<char>, Option<Seq<char>>)> {
    crate::hooks::entries_view(v)
}

/// The select expression of a tier's time bucket.
pub open spec fn bucket_select(anchor: Seq<char>, f: int) -> Seq<char> {
    "to_timestamp(((spiral(\""@ + anchor + "\") / "@ + int_text(f) + ") * "@ + int_text(f) + ")::double precision) as t"@
}

/// The group-by expression of a tier's time bucket.
pub open spec fn bucket_group(anchor: Seq<char>, f: int) -> Seq<char> {
    "(spiral(\""@ + anchor + "\") / "@ + int_text(f) + ") * "@ + int_text(f)
}

/// The scope columns a tier groups by: each once, leaving out `t` and the
/// anchor.
pub open spec fn tier_scope(anchor: Seq<char>, scope: Seq<Seq<char>>) -> Seq<Seq<char>> {
    picked(scope, fresh_positions(scope, seq!["t"@, anchor]))
}

/// The names a tier's columns may not reuse: `t`, the anchor and its scope
/// columns.
pub open spec fn taken_names(anchor: Seq<char>, scope: Seq<Seq<char>>) -> Seq<Seq<char>> {
    seq!["t"@, anchor] + tier_scope(anchor, scope)
}

/// The positions of the directives whose column is kept on the first tier.
pub open spec fn kept_directives(
    anchor: Seq<char>,
    scope: Seq<Seq<char>>,
    custom: Seq<(Seq<char>, Seq<char>, Option<Seq<char>>)>,
) -> Seq<int> {
    fresh_positions(mat_names(custom), taken_names(anchor, scope))
}

/// The positions of the parent's sources whose column is kept on a coarser
/// tier.
pub open spec fn kept_sources(
    anchor: Seq<char>,
    scope: Seq<Seq<char>>,
    parent: Seq<(Seq<char>, Seq<char>, Seq<char>, Option<Seq<char>>)>,
) -> Seq<int> {
    fresh_positions(parent.map_values(|s: (Seq<char>, Seq<char>, Seq<char>, Option<Seq<char>>)| s.2), taken_names(anchor, scope))
}

/// The select expressions of a tier's kept columns.
pub open spec fn value_selects(
    first: bool,
    anchor: Seq<char>,
    scope: Seq<Seq<char>>,
    custom: Seq<(Seq<char>, Seq<char>, Option<Seq<char>>)>,
    parent: Seq<(Seq<char>, Seq<char>, Seq<char>, Option<Seq<char>>)>,
) -> Seq<Seq<char>> {
    if first {
        kept_directives(anchor, scope, custom).map_values(
            |i: int| directive_select(anchor, custom[i].0, custom[i].1, mat_in(custom, i)),
        )
    } else {
        kept_sources(anchor, scope, parent).map_values(|i: int| merge_select(parent[i].1, parent[i].2))
    }
}

/// The sources a tier is registered with: one per kept directive on the
/// first tier, the parent's kept sources on coarser ones.
pub open spec fn tier_sources(
    first: bool,
    anchor: Seq<char>,
    scope: Seq<Seq<char>>,
    custom: Seq<(Seq<char>, Seq<char>, Option<Seq<char>>)>,
    parent: Seq<(Seq<char>, Seq<char>, Seq<char>, Option<Seq<char>>)>,
) -> Seq<(Seq<char>, Seq<char>, Seq<char>, Option<Seq<char>>)> {
    if first {
        kept_directives(anchor, scope, custom).map_values(
            |i: int| (custom[i].0, registered_formula(custom[i].1), mat_in(custom, i), None::<Seq<char>>),
        )
    } else {
        kept_sources(anchor, scope, parent).map_values(|i: int| parent[i])
    }
}

/// The index a tier gets: unique on time without scope columns, else on
/// its Z-order key.
pub open spec fn tier_index_spec(child: Seq<char>, scope: Seq<Seq<char>>) -> Seq<char> {
    if scope.len() == 0 {
        "CREATE UNIQUE INDEX IF NOT EXISTS idx_u_"@ + child + " ON "@ + child + "(t)"@
    } else {
        "CREATE INDEX IF NOT EXISTS idx_z_"@ + child + " ON "@ + child + " (spiral_zorder(spiral(t), ARRAY["@ + join_spec(
            quoted_list(scope, false),
            ", "@,
        ) + "]::text[]))"@
    }
}

/// The statement that creates a tier (with no rows) from its parent and
/// indexes it.
pub open spec fn tier_create_spec(
    child: Seq<char>,
    parent_name: Seq<char>,
    f: int,
    first: bool,
    anchor: Seq<char>,
    scope: Seq<Seq<char>>,
    custom: Seq<(Seq<char>, Seq<char>, Option<Seq<char>>)>,
    parent: Seq<(Seq<char>, Seq<char>, Seq<char>, Option<Seq<char>>)>,
) -> Seq<char> {
    let sc = quoted_list(tier_scope(anchor, scope), false);
    "CREATE TABLE IF NOT EXISTS "@ + child + " AS SELECT "@ + join_spec(
        seq![bucket_select(anchor, f)] + sc + value_selects(first, anchor, scope, custom, parent),
        ", "@,
    ) + " FROM "@ + parent_name + " WHERE 1=0 GROUP BY "@ + join_spec(seq![bucket_group(anchor, f)] + sc, ", "@) + "; "@
        + tier_index_spec(child, scope) + ";"@
}

/// One tier of a table's hierarchy: its name, the statement that creates
/// it, and the sources it is registered with.
pub struct HierarchyTier {
    pub child_name: String,
    pub create_sql: String,
    pub sources: Vec<SourceDef>,
}

proof fn lemma_strings_push(v: Seq<String>, s: String)
    ensures
        strings_view(v.push(s)) == strings_view(v).push(s@),
{
    assert(strings_view(v.push(s)) =~= strings_view(v).push(s@));
}

proof fn lemma_sources_push(v: Seq<SourceDef>, s: SourceDef)
    ensures
        sources_view(v.push(s)) == sources_view(v).push(source_view(s)),
{
    assert(sources_view(v.push(s)) =~= sources_view(v).push(source_view(s)));
}

fn char_vecs(v: &Vec<String>) -> (r: Vec<Vec<char>>)
    ensures
        seqs_view(r@) == strings_view(v@),
{
    let n = v.len();
    let mut out: Vec<Vec<char>> = Vec::new();
    let mut i: usize = 0;
    while i < n
        invariant
            n == v@.len(),
            i <= n,
            seqs_view(out@) == strings_view(v@.take(i as int)),
        decreases n - i,
    {
        let c = chars_of(v[i].as_str());
        proof {
            assert(v@.take(i + 1) =~= v@.take(i as int).push(v@[i as int]));
            lemma_strings_push(v@.take(i as int), v@[i as int]);
            crate::rollup::lemma_seqs_view_push(out@, c);
        }
        out.push(c);
        i = i + 1;
    }
    proof {
        assert(v@.take(n as int) =~= v@);
    }
    out
}

fn pick_strings(v: &Vec<String>, pos: &Vec<usize>) -> (r: Vec<String>)
    requires
        forall|k: int| 0 <= k < pos@.len() ==> #[trigger] pos@[k] < v@.len(),
    ensures
        strings_view(r@) == picked(strings_view(v@), positions_view(pos@)),
{
    let n = pos.len();
    let mut out: Vec<String> = Vec::new();
    let mut i: usize = 0;
    while i < n
        invariant
            n == pos@.len(),
            forall|k: int| 0 <= k < pos@.len() ==> #[trigger] pos@[k] < v@.len(),
            i <= n,
            strings_view(out@) == picked(strings_view(v@), positions_view(pos@.take(i as int))),
        decreases n - i,
    {
        let c = v[pos[i]].clone();
        proof {
            lemma_strings_push(out@, c);
            assert(positions_view(pos@.take(i + 1)) =~= positions_view(pos@.take(i as int)).push(pos@[i as int] as int));
            assert(picked(strings_view(v@), positions_view(pos@.take(i + 1))) =~= picked(
                strings_view(v@),
                positions_view(pos@.take(i as int)),
            ).push(strings_view(v@)[pos@[i as int] as int]));
        }
        out.push(c);
        i = i + 1;
    }
    proof {
        assert(pos@.take(n as int) =~= pos@);
    }
    out
}

fn clone_chars(v: &Vec<char>) -> (r: Vec<char>)
    ensures
        r@ == v@,
{
    let mut out: Vec<char> = Vec::new();
    crate::text::push_chars(&mut out, v);
    proof {
        assert(out@ =~= v@);
    }
    out
}

fn clone_char_vecs(v: &Vec<Vec<char>>) -> (r: Vec<Vec<char>>)
    ensures
        seqs_view(r@) == seqs_view(v@),
{
    let mut out: Vec<Vec<char>> = Vec::new();
    let n = v.len();
    let mut i: usize = 0;
    while i < n
        invariant
            n == v@.len(),
            i <= n,
            seqs_view(out@) == seqs_view(v@).take(i as int),
        decreases n - i,
    {
        let c = clone_chars(&v[i]);
        proof {
            crate::rollup::lemma_seqs_view_push(out@, c);
            assert(seqs_view(v@).take(i + 1) =~= seqs_view(v@).take(i as int).push(v@[i as int]@));
        }
        out.push(c);
        i = i + 1;
    }
    proof {
        assert(seqs_view(v@).take(n as int) =~= seqs_view(v@));
    }
    out
}

fn registered_formula_exec(formula: &str) -> (r: String)
    ensures
        r@ == registered_formula(formula@),
{
    match state_family_exec(formula) {
        Some(fam) => fam.to_owned(),
        None => to_lower(formula),
    }
}

fn directive_count_exec(custom_cols: &Vec<(String, String, Option<String>)>, col: &String) -> (r: usize)
    ensures
        r == directive_count(directives_view(custom_cols@), col@),
{
    let ghost custom = directives_view(custom_cols@);
    let n = custom_cols.len();
    let mut cnt: usize = 0;
    let mut j: usize = 0;
    while j < n
        invariant
            n == custom_cols@.len(),
            custom == directives_view(custom_cols@),
            j <= n,
            cnt <= j,
            cnt == directive_count(custom.take(j as int), col@),
        decreases n - j,
    {
        proof {
            assert(custom.take(j + 1).drop_last() =~= custom.take(j as int));
            assert(custom.take(j + 1).last() == custom[j as int]);
            assert(custom[j as int].0 == custom_cols@[j as int].0@);
        }
        if custom_cols[j].0 == *col {
            cnt = cnt + 1;
        }
        j = j + 1;
    }
    proof {
        assert(custom.take(n as int) =~= custom);
    }
    cnt
}

/// The materialised column of each directive (see `mat_in`).
fn directive_mats(custom_cols: &Vec<(String, String, Option<String>)>) -> (r: Vec<Vec<char>>)
    ensures
        seqs_view(r@) == mat_names(directives_view(custom_cols@)),
{
    let ghost custom = directives_view(custom_cols@);
    let n = custom_cols.len();
    let mut out: Vec<Vec<char>> = Vec::new();
    let mut i: usize = 0;
    while i < n
        invariant
            n == custom_cols@.len(),
            custom == directives_view(custom_cols@),
            i <= n,
            seqs_view(out@) == mat_names(custom).take(i as int),
        decreases n - i,
    {
        let e = &custom_cols[i];
        proof {
            assert(custom[i as int] == (e.0@, e.1@, opt_text(e.2)));
        }
        let m = match &e.2 {
            Some(a) => chars_of(a.as_str()),
            None => {
                let cnt = directive_count_exec(custom_cols, &e.0);
                if cnt <= 1 {
                    chars_of(e.0.as_str())
                } else {
                    let mut v = chars_of(e.0.as_str());
                    push_str(&mut v, "_");
                    let f = registered_formula_exec(e.1.as_str());
                    push_str(&mut v, f.as_str());
                    v
                }
            },
        };
        proof {
            assert(m@ == mat_in(custom, i as int));
            crate::rollup::lemma_seqs_view_push(out@, m);
            assert(mat_names(custom).take(i + 1) =~= mat_names(custom).take(i as int).push(m@));
        }
        out.push(m);
        i = i + 1;
    }
    proof {
        assert(mat_names(custom).take(n as int) =~= mat_names(custom));
    }
    out
}

/// One tier of the hierarchy of a table: the tier of the frame named
/// `frame_name` (of `frame_seconds` seconds), read from `parent_name`,
/// bucketed on `anchor_col` and grouped by the scope columns (each once,
/// leaving out `t` and the anchor). The first tier materialises each
/// magic-comment directive (under its alias; a column's only directive under
/// the column's name; several directives of one column under
/// `column_formula`, see `mat_in`) whose column is not taken yet; coarser ones merge
/// the parent's sources whose column is not taken yet. `None` when the
/// tier's name, `prefix_frame`, is its parent's.
pub fn hierarchy_tier(
    prefix: &str,
    frame_name: &str,
    frame_seconds: i32,
    first: bool,
    parent_name: &str,
    scope_columns: &Vec<String>,
    custom_cols: &Vec<(String, String, Option<String>)>,
    anchor_col: &str,
    parent_sources: &Vec<SourceDef>,
) -> (r: Option<HierarchyTier>)
    ensures
        ({
            let child = prefix@ + "_"@ + frame_name@;
            let scope = strings_view(scope_columns@);
            let custom = directives_view(custom_cols@);
            let parent = sources_view(parent_sources@);
            match r {
                None => child == parent_name@,
                Some(t) => {
                    &&& child != parent_name@
                    &&& t.child_name@ == child
                    &&& t.create_sql@ == tier_create_spec(
                        child,
                        parent_name@,
                        frame_seconds as int,
                        first,
                        anchor_col@,
                        scope,
                        custom,
                        parent,
                    )
                    &&& sources_view(t.sources@) == tier_sources(first, anchor_col@, scope, custom, parent)
                },
            }
        }),
{
    let ghost scope = strings_view(scope_columns@);
    let ghost custom = directives_view(custom_cols@);
    let ghost parent = sources_view(parent_sources@);
    let mut child = chars_of(prefix);
    push_str(&mut child, "_");
    push_str(&mut child, frame_name);
    if chars_eq(&child, &chars_of(parent_name)) {
        return None;
    }
    let mut seen: Vec<Vec<char>> = Vec::new();
    seen.push(chars_of("t"));
    seen.push(chars_of(anchor_col));
    proof {
        assert(seqs_view(seen@) =~= seq!["t"@, anchor_col@]);
    }
    let scope_keys = char_vecs(scope_columns);
    let sc_pos = insert_fresh(&scope_keys, &mut seen);
    proof {
        lemma_fresh_positions_range(scope, seq!["t"@, anchor_col@]);
        assert forall|k: int| 0 <= k < sc_pos@.len() implies #[trigger] sc_pos@[k] < scope_columns@.len() by {
            assert(positions_view(sc_pos@)[k] == sc_pos@[k] as int);
        }
    }
    let sc = pick_strings(scope_columns, &sc_pos);
    proof {
        assert(strings_view(sc@) == tier_scope(anchor_col@, scope));
        assert(seqs_view(seen@) == taken_names(anchor_col@, scope));
    }
    let mut bs = chars_of("to_timestamp(((spiral(\"");
    push_str(&mut bs, anchor_col);
    push_str(&mut bs, "\") / ");
    push_i64(&mut bs, frame_seconds as i64);
    push_str(&mut bs, ") * ");
    push_i64(&mut bs, frame_seconds as i64);
    push_str(&mut bs, ")::double precision) as t");
    let mut bg = chars_of("(spiral(\"");
    push_str(&mut bg, anchor_col);
    push_str(&mut bg, "\") / ");
    push_i64(&mut bg, frame_seconds as i64);
    push_str(&mut bg, ") * ");
    push_i64(&mut bg, frame_seconds as i64);
    let mut selects: Vec<Vec<char>> = Vec::new();
    selects.push(bs);
    quoted_all(&mut selects, &sc, false);
    let mut groups: Vec<Vec<char>> = Vec::new();
    groups.push(bg);
    quoted_all(&mut groups, &sc, false);
    proof {
        assert(seqs_view(groups@) =~= seq![bucket_group(anchor_col@, frame_seconds as int)] + quoted_list(
            tier_scope(anchor_col@, scope),
            false,
        ));
    }
    let ghost sel0 = seqs_view(selects@);
    let mut sources: Vec<SourceDef> = Vec::new();
    if first {
        let nc = custom_cols.len();
        let mats = directive_mats(custom_cols);
        let keys = clone_char_vecs(&mats);
        proof {
            assert(seqs_view(mats@).len() == mats@.len());
            assert(custom.len() == nc);
        }
        let pos = insert_fresh(&keys, &mut seen);
        let ghost kept = kept_directives(anchor_col@, scope, custom);
        proof {
            assert(positions_view(pos@) == kept);
            lemma_fresh_positions_range(seqs_view(keys@), taken_names(anchor_col@, scope));
        }
        let np = pos.len();
        let mut k: usize = 0;
        while k < np
            invariant
                np == pos@.len(),
                nc == custom_cols@.len(),
                custom == directives_view(custom_cols@),
                positions_view(pos@) == kept,
                seqs_view(mats@) == mat_names(custom),
                mats@.len() == nc,
                forall|j: int| 0 <= j < kept.len() ==> 0 <= #[trigger] kept[j] < nc,
                k <= np,
                seqs_view(selects@) == sel0 + kept.take(k as int).map_values(
                    |i: int| directive_select(anchor_col@, custom[i].0, custom[i].1, mat_in(custom, i)),
                ),
                sources_view(sources@) == kept.take(k as int).map_values(
                    |i: int| (custom[i].0, registered_formula(custom[i].1), mat_in(custom, i), None::<Seq<char>>),
                ),
            decreases np - k,
        {
            let p = pos[k];
            proof {
                assert(kept[k as int] == p as int);
                assert(p < nc);
                assert(custom[p as int] == (custom_cols@[p as int].0@, custom_cols@[p as int].1@, opt_text(
                    custom_cols@[p as int].2,
                )));
            }
            let e = &custom_cols[p];
            let m = clone_chars(&mats[p]);
            proof {
                assert(seqs_view(mats@)[p as int] == mats@[p as int]@);
                assert(m@ == mat_in(custom, p as int));
            }
            let (sel, fname) = directive_select_exec(anchor_col, e.0.as_str(), e.1.as_str(), &m);
            let src = SourceDef {
                base_column: e.0.clone(),
                formula: fname,
                mat_column: string_from_chars(&m),
                rollup_gsub_strategy: None,
            };
            proof {
                assert(kept.take(k + 1).map_values(
                    |i: int| directive_select(anchor_col@, custom[i].0, custom[i].1, mat_in(custom, i)),
                ) =~= kept.take(k as int).map_values(
                    |i: int| directive_select(anchor_col@, custom[i].0, custom[i].1, mat_in(custom, i)),
                ).push(sel@));
                crate::rollup::lemma_seqs_view_push(selects@, sel);
                assert(sel0 + kept.take(k as int).map_values(
                    |i: int| directive_select(anchor_col@, custom[i].0, custom[i].1, mat_in(custom, i)),
                ).push(sel@) =~= (sel0 + kept.take(k as int).map_values(
                    |i: int| directive_select(anchor_col@, custom[i].0, custom[i].1, mat_in(custom, i)),
                )).push(sel@));
                assert(kept.take(k + 1).map_values(
                    |i: int| (custom[i].0, registered_formula(custom[i].1), mat_in(custom, i), None::<Seq<char>>),
                ) =~= kept.take(k as int).map_values(
                    |i: int| (custom[i].0, registered_formula(custom[i].1), mat_in(custom, i), None::<Seq<char>>),
                ).push(source_view(src)));
                lemma_sources_push(sources@, src);
            }
            selects.push(sel);
            sources.push(src);
            k = k + 1;
        }
        proof {
            assert(kept.take(np as int) =~= kept);
        }
    } else {
        let mut keys: Vec<Vec<char>> = Vec::new();
        let ns = parent_sources.len();
        let mut i: usize = 0;
        while i < ns
            invariant
                ns == parent_sources@.len(),
                parent == sources_view(parent_sources@),
                i <= ns,
                seqs_view(keys@) == parent.take(i as int).map_values(
                    |s: (Seq<char>, Seq<char>, Seq<char>, Option<Seq<char>>)| s.2,
                ),
            decreases ns - i,
        {
            let m = chars_of(parent_sources[i].mat_column.as_str());
            proof {
                assert(parent[i as int] == source_view(parent_sources@[i as int]));
                assert(parent.take(i + 1).map_values(|s: (Seq<char>, Seq<char>, Seq<char>, Option<Seq<char>>)| s.2)
                    =~= parent.take(i as int).map_values(|s: (Seq<char>, Seq<char>, Seq<char>, Option<Seq<char>>)| s.2).push(
                    parent[i as int].2,
                ));
                crate::rollup::lemma_seqs_view_push(keys@, m);
            }
            keys.push(m);
            i = i + 1;
        }
        proof {
            assert(parent.take(ns as int) =~= parent);
        }
        let pos = insert_fresh(&keys, &mut seen);
        let ghost kept = kept_sources(anchor_col@, scope, parent);
        proof {
            assert(positions_view(pos@) == kept);
            lemma_fresh_positions_range(seqs_view(keys@), taken_names(anchor_col@, scope));
        }
        let np = pos.len();
        let mut k: usize = 0;
        while k < np
            invariant
                np == pos@.len(),
                ns == parent_sources@.len(),
                parent == sources_view(parent_sources@),
                positions_view(pos@) == kept,
                forall|j: int| 0 <= j < kept.len() ==> 0 <= #[trigger] kept[j] < ns,
                k <= np,
                seqs_view(selects@) == sel0 + kept.take(k as int).map_values(
                    |i: int| merge_select(parent[i].1, parent[i].2),
                ),
                sources_view(sources@) == kept.take(k as int).map_values(|i: int| parent[i]),
            decreases np - k,
        {
            let p = pos[k];
            proof {
                assert(kept[k as int] == p as int);
                assert(p < ns);
                assert(parent[p as int] == source_view(parent_sources@[p as int]));
            }
            let sel = merge_select_exec(&parent_sources[p].formula, &parent_sources[p].mat_column);
            let src = copy_source(&parent_sources[p]);
            proof {
                assert(kept.take(k + 1).map_values(|i: int| merge_select(parent[i].1, parent[i].2)) =~= kept.take(
                    k as int,
                ).map_values(|i: int| merge_select(parent[i].1, parent[i].2)).push(sel@));
                crate::rollup::lemma_seqs_view_push(selects@, sel);
                assert(sel0 + kept.take(k as int).map_values(|i: int| merge_select(parent[i].1, parent[i].2)).push(sel@)
                    =~= (sel0 + kept.take(k as int).map_values(|i: int| merge_select(parent[i].1, parent[i].2))).push(
                    sel@,
                ));
                assert(kept.take(k + 1).map_values(|i: int| parent[i]) =~= kept.take(k as int).map_values(
                    |i: int| parent[i],
                ).push(source_view(src)));
                lemma_sources_push(sources@, src);
            }
            selects.push(sel);
            sources.push(src);
            k = k + 1;
        }
        proof {
            assert(kept.take(np as int) =~= kept);
        }
    }
    proof {
        assert(seqs_view(selects@) == seq![bucket_select(anchor_col@, frame_seconds as int)] + quoted_list(
            tier_scope(anchor_col@, scope),
            false,
        ) + value_selects(first, anchor_col@, scope, custom, parent));
    }
    let mut idx: Vec<char> = Vec::new();
    if scope_columns.len() == 0 {
        push_str(&mut idx, "CREATE UNIQUE INDEX IF NOT EXISTS idx_u_");
        push_chars(&mut idx, &child);
        push_str(&mut idx, " ON ");
        push_chars(&mut idx, &child);
        push_str(&mut idx, "(t)");
    } else {
        let mut qs: Vec<Vec<char>> = Vec::new();
        quoted_all(&mut qs, scope_columns, false);
        proof {
            assert(seqs_view(qs@) =~= quoted_list(scope, false));
        }
        push_str(&mut idx, "CREATE INDEX IF NOT EXISTS idx_z_");
        push_chars(&mut idx, &child);
        push_str(&mut idx, " ON ");
        push_chars(&mut idx, &child);
        push_str(&mut idx, " (spiral_zorder(spiral(t), ARRAY[");
        push_chars(&mut idx, &join_chars(&qs, ", "));
        push_str(&mut idx, "]::text[]))");
    }
    proof {
        assert(idx@ =~= tier_index_spec(child@, scope));
    }
    let mut sql = chars_of("CREATE TABLE IF NOT EXISTS ");
    push_chars(&mut sql, &child);
    push_str(&mut sql, " AS SELECT ");
    push_chars(&mut sql, &join_chars(&selects, ", "));
    push_str(&mut sql, " FROM ");
    push_str(&mut sql, parent_name);
    push_str(&mut sql, " WHERE 1=0 GROUP BY ");
    push_chars(&mut sql, &join_chars(&groups, ", "));
    push_str(&mut sql, "; ");
    push_chars(&mut sql, &idx);
    push_str(&mut sql, ";");
    Some(HierarchyTier { child_name: string_from_chars(&child), create_sql: string_from_chars(&sql), sources })
}

/// A state family: the formulas whose tiers keep mergeable states.
pub open spec fn state_formula(f: Seq<char>) -> bool {
    f == "stats"@ || f == "sketch"@ || f == "tdigest"@ || f == "ohlcv"@
}

/// Law: a coarser tier merges a parent source of state family `f` with that
/// family's own merge aggregate, `spiral_<f>_merge`, so states of one
/// family are never merged by another family's aggregate.
pub proof fn lemma_states_merge_within_family(f: Seq<char>, mat: Seq<char>)
    requires
        state_formula(f),
    ensures
        merge_function(f) == "spiral_"@ + f + "_merge"@,
        merge_select(f, mat) == "spiral_"@ + f + "_merge(\""@ + mat + "\") as \""@ + mat + "\""@,
{
    reveal_strlit("stats");
    reveal_strlit("sketch");
    reveal_strlit("tdigest");
    reveal_strlit("ohlcv");
    reveal_strlit("spiral_");
    reveal_strlit("_merge");
    reveal_strlit("spiral_stats_merge");
    reveal_strlit("spiral_sketch_merge");
    reveal_strlit("spiral_tdigest_merge");
    reveal_strlit("spiral_ohlcv_merge");
    reveal_strlit("_merge(\"");
    reveal_strlit("(\"");
    assert(merge_function(f) =~= "spiral_"@ + f + "_merge"@);
    assert(merge_select(f, mat) =~= "spiral_"@ + f + "_merge(\""@ + mat + "\") as \""@ + mat + "\""@);
}

} // verus!
