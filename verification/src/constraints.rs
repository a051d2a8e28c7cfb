//! What a query's shape and predicates allow the planner to accelerate: the
//! query forms a union of tiers can answer, the time and scope constraints
//! an OR of branches still guarantees, and the propagation of constraints
//! across equi-joins.
use vstd::prelude::*;
use crate::hooks::rollup_aggregate_name;
use crate::text::{chars_eq_str, chars_of};

verus! {

/// The clauses of a query that decide whether it can be rewritten.
pub struct QueryShape {
    pub has_aggs: bool,
    pub has_having: bool,
    pub has_distinct: bool,
    pub has_window: bool,
}

/// A query can be answered from tiers only when it aggregates, and has no
/// `HAVING`, `DISTINCT` or window clause.
pub fn query_shape_supported(q: &QueryShape) -> (r: bool)
    ensures
        r == (q.has_aggs && !q.has_having && !q.has_distinct && !q.has_window),
{
    q.has_aggs && !q.has_having && !q.has_distinct && !q.has_window
}

/// Whether an aggregate call can be answered from tiers: an aggregate a
/// tier can answer (by its lower-cased name `lowered`), without `DISTINCT`,
/// `ORDER BY` or `FILTER`; `count(*)` is the only star form; `first` and
/// `last` take two arguments and the others one.
pub open spec fn aggregate_call_ok(
    lowered: Seq<char>,
    agg_distinct: bool,
    agg_order: bool,
    agg_filter: bool,
    star: bool,
    nargs: int,
) -> bool {
    &&& !agg_distinct && !agg_order && !agg_filter
    &&& rollup_aggregate_name(lowered)
    &&& if star {
        lowered == "count"@
    } else if lowered == "first"@ || lowered == "last"@ {
        nargs == 2
    } else {
        nargs == 1
    }
}

/// Tests an aggregate call of a query's target list (see
/// `aggregate_call_ok`).
pub fn aggregate_call_supported(
    lowered: &str,
    agg_distinct: bool,
    agg_order: bool,
    agg_filter: bool,
    star: bool,
    nargs: usize,
) -> (r: bool)
    ensures
        r == aggregate_call_ok(lowered@, agg_distinct, agg_order, agg_filter, star, nargs as int),
{
    if agg_distinct || agg_order || agg_filter {
        return false;
    }
    if !crate::hooks::is_rollup_aggregate_name(lowered) {
        return false;
    }
    let a = chars_of(lowered);
    if star {
        chars_eq_str(&a, "count")
    } else if chars_eq_str(&a, "first") || chars_eq_str(&a, "last") {
        nargs == 2
    } else {
        nargs == 1
    }
}

/// The time and scope constraints a query puts on one of its relations
/// (`varno`): `start <= t < end`, and each scope column equal to a value
/// (given by its JSON text).
pub struct QueryConstraint {
    pub varno: i32,
    pub start: Option<i64>,
    pub end: Option<i64>,
    pub scopes: Vec<(String, String)>,
}

/// The view of a constraint.
pub type ConstraintView = (i32, Option<i64>, Option<i64>, Seq<(Seq<char>, Seq<char>)>);

/// The view of a list of scope pairs.
pub open spec fn pairs_view(v: Seq<(String, String)>) -> Seq<(Seq<char>, Seq<char>)> {
    v.map_values(|p: (String, String)| (p.0@, p.1@))
}

/// The view of a constraint.
pub open spec fn constraint_view(c: QueryConstraint) -> ConstraintView {
    (c.varno, c.start, c.end, pairs_view(c.scopes@))
}

/// The views of a list of constraints.
pub open spec fn constraints_view(v: Seq<QueryConstraint>) -> Seq<ConstraintView> {
    v.map_values(|c: QueryConstraint| constraint_view(c))
}

/// `i` is the first position of relation `v` in the list.
pub open spec fn first_of(cs: Seq<ConstraintView>, v: i32, i: int) -> bool {
    0 <= i < cs.len() && cs[i].0 == v && forall|j: int| 0 <= j < i ==> (#[trigger] cs[j]).0 != v
}

/// The constraint of relation `v`: the first in the list, if any.
pub open spec fn lookup(cs: Seq<ConstraintView>, v: i32) -> Option<ConstraintView> {
    if exists|i: int| first_of(cs, v, i) {
        Some(cs[choose|i: int| first_of(cs, v, i)])
    } else {
        None
    }
}

/// `i` is the first position of scope column `k`.
pub open spec fn first_key(ps: Seq<(Seq<char>, Seq<char>)>, k: Seq<char>, i: int) -> bool {
    0 <= i < ps.len() && ps[i].0 == k && forall|j: int| 0 <= j < i ==> (#[trigger] ps[j]).0 != k
}

/// The value of scope column `k`: the first pair of that column, if any.
pub open spec fn scope_of(ps: Seq<(Seq<char>, Seq<char>)>, k: Seq<char>) -> Option<Seq<char>> {
    if exists|i: int| first_key(ps, k, i) {
        Some(ps[choose|i: int| first_key(ps, k, i)].1)
    } else {
        None
    }
}

proof fn lemma_lookup_at(cs: Seq<ConstraintView>, v: i32, i: int)
    requires
        first_of(cs, v, i),
    ensures
        lookup(cs, v) == Some(cs[i]),
{
    let j = choose|j: int| first_of(cs, v, j);
    if j < i {
        assert(cs[j].0 != v);
    } else if i < j {
        assert(cs[i].0 != v);
    }
}

proof fn lemma_scope_at(ps: Seq<(Seq<char>, Seq<char>)>, k: Seq<char>, i: int)
    requires
        first_key(ps, k, i),
    ensures
        scope_of(ps, k) == Some(ps[i].1),
{
    let j = choose|j: int| first_key(ps, k, j);
    if j < i {
        assert(ps[j].0 != k);
    } else if i < j {
        assert(ps[i].0 != k);
    }
}

proof fn lemma_lookup_none(cs: Seq<ConstraintView>, v: i32)
    requires
        forall|i: int| 0 <= i < cs.len() ==> (#[trigger] cs[i]).0 != v,
    ensures
        lookup(cs, v).is_none(),
{
}

proof fn lemma_scope_none(ps: Seq<(Seq<char>, Seq<char>)>, k: Seq<char>)
    requires
        forall|i: int| 0 <= i < ps.len() ==> (#[trigger] ps[i]).0 != k,
    ensures
        scope_of(ps, k).is_none(),
{
}

fn find_varno(cs: &Vec<QueryConstraint>, v: i32) -> (r: Option<usize>)
    ensures
        match r {
            Some(i) => first_of(constraints_view(cs@), v, i as int) && lookup(constraints_view(cs@), v) == Some(
                constraints_view(cs@)[i as int],
            ),
            None => lookup(constraints_view(cs@), v).is_none() && forall|i: int|
                0 <= i < cs@.len() ==> (#[trigger] constraints_view(cs@)[i]).0 != v,
        },
{
    let ghost cv = constraints_view(cs@);
    let n = cs.len();
    let mut i: usize = 0;
    while i < n
        invariant
            n == cs@.len(),
            cv == constraints_view(cs@),
            i <= n,
            forall|j: int| 0 <= j < i ==> (#[trigger] cv[j]).0 != v,
        decreases n - i,
    {
        if cs[i].varno == v {
            proof {
                assert(cv[i as int].0 == v);
                lemma_lookup_at(cv, v, i as int);
            }
            return Some(i);
        }
        proof {
            assert(cv[i as int].0 == cs@[i as int].varno);
        }
        i = i + 1;
    }
    proof {
        lemma_lookup_none(cv, v);
    }
    None
}

fn find_key(ps: &Vec<(String, String)>, k: &String) -> (r: Option<usize>)
    ensures
        match r {
            Some(i) => first_key(pairs_view(ps@), k@, i as int) && scope_of(pairs_view(ps@), k@) == Some(
                pairs_view(ps@)[i as int].1,
            ),
            None => scope_of(pairs_view(ps@), k@).is_none() && forall|i: int|
                0 <= i < ps@.len() ==> (#[trigger] pairs_view(ps@)[i]).0 != k@,
        },
{
    let ghost pv = pairs_view(ps@);
    let n = ps.len();
    let mut i: usize = 0;
    while i < n
        invariant
            n == ps@.len(),
            pv == pairs_view(ps@),
            i <= n,
            forall|j: int| 0 <= j < i ==> (#[trigger] pv[j]).0 != k@,
        decreases n - i,
    {
        if ps[i].0 == *k {
            proof {
                assert(pv[i as int].0 == k@);
                lemma_scope_at(pv, k@, i as int);
            }
            return Some(i);
        }
        proof {
            assert(pv[i as int].0 == ps@[i as int].0@);
        }
        i = i + 1;
    }
    proof {
        lemma_scope_none(pv, k@);
    }
    None
}

/// The position of relation `v`'s first constraint, or -1.
pub open spec fn idx_of(cs: Seq<ConstraintView>, v: i32) -> int {
    if exists|i: int| first_of(cs, v, i) {
        choose|i: int| first_of(cs, v, i)
    } else {
        -1
    }
}

/// The position of scope column `k`'s first pair, or -1.
pub open spec fn key_idx(ps: Seq<(Seq<char>, Seq<char>)>, k: Seq<char>) -> int {
    if exists|i: int| first_key(ps, k, i) {
        choose|i: int| first_key(ps, k, i)
    } else {
        -1
    }
}

proof fn lemma_idx_at(cs: Seq<ConstraintView>, v: i32, i: int)
    requires
        first_of(cs, v, i),
    ensures
        idx_of(cs, v) == i,
{
    let j = choose|j: int| first_of(cs, v, j);
    if j < i {
        assert(cs[j].0 != v);
    } else if i < j {
        assert(cs[i].0 != v);
    }
}

proof fn lemma_key_idx_at(ps: Seq<(Seq<char>, Seq<char>)>, k: Seq<char>, i: int)
    requires
        first_key(ps, k, i),
    ensures
        key_idx(ps, k) == i,
{
    let j = choose|j: int| first_key(ps, k, j);
    if j < i {
        assert(ps[j].0 != k);
    } else if i < j {
        assert(ps[i].0 != k);
    }
}

/// Relation `v`'s constraint with its time range set to `[s, e)` (a new
/// constraint when it has none).
pub open spec fn set_time(cs: Seq<ConstraintView>, v: i32, s: Option<i64>, e: Option<i64>) -> Seq<ConstraintView> {
    let i = idx_of(cs, v);
    if i >= 0 {
        cs.update(i, (v, s, e, cs[i].3))
    } else {
        cs.push((v, s, e, Seq::empty()))
    }
}

/// The scope pairs with column `k` set to `val`.
pub open spec fn insert_scope(ps: Seq<(Seq<char>, Seq<char>)>, k: Seq<char>, val: Seq<char>) -> Seq<(Seq<char>, Seq<char>)> {
    let j = key_idx(ps, k);
    if j >= 0 {
        ps.update(j, (k, val))
    } else {
        ps.push((k, val))
    }
}

/// Relation `v`'s constraint with scope column `k` set to `val` (a new
/// constraint when it has none).
pub open spec fn set_scope(cs: Seq<ConstraintView>, v: i32, k: Seq<char>, val: Seq<char>) -> Seq<ConstraintView> {
    let i = idx_of(cs, v);
    if i >= 0 {
        cs.update(i, (v, cs[i].1, cs[i].2, insert_scope(cs[i].3, k, val)))
    } else {
        cs.push((v, None, None, seq![(k, val)]))
    }
}

/// `a`, else `b`.
pub open spec fn or_else(a: Option<i64>, b: Option<i64>) -> Option<i64> {
    match a {
        Some(x) => Some(x),
        None => b,
    }
}

/// The time range of relation `v`, `(None, None)` without a constraint.
pub open spec fn times_of(cs: Seq<ConstraintView>, v: i32) -> (Option<i64>, Option<i64>) {
    match lookup(cs, v) {
        Some(c) => (c.1, c.2),
        None => (None, None),
    }
}

/// The value of scope column `k` of relation `v`.
pub open spec fn scope_value(cs: Seq<ConstraintView>, v: i32, k: Seq<char>) -> Option<Seq<char>> {
    match lookup(cs, v) {
        Some(c) => scope_of(c.3, k),
        None => None,
    }
}

/// One equi-join `v1.col = v2.col` applied to the constraints, and whether
/// it changed them: on `t`, both sides take the time bounds of `v1` where
/// it has them, else those of `v2`; on another column, a scope value known
/// on one side only is copied to the other.
pub open spec fn apply_eq(cs: Seq<ConstraintView>, eq: (i32, i32, Seq<char>)) -> (Seq<ConstraintView>, bool) {
    let (v1, v2, col) = eq;
    if col == "t"@ {
        let (s1, e1) = times_of(cs, v1);
        let (s2, e2) = times_of(cs, v2);
        let ns = or_else(s1, s2);
        let ne = or_else(e1, e2);
        let ch1 = ns != s1 || ne != e1;
        let c1 = if ch1 {
            set_time(cs, v1, ns, ne)
        } else {
            cs
        };
        let ch2 = ns != s2 || ne != e2;
        let c2 = if ch2 {
            set_time(c1, v2, ns, ne)
        } else {
            c1
        };
        (c2, ch1 || ch2)
    } else {
        let a1 = scope_value(cs, v1, col);
        let a2 = scope_value(cs, v2, col);
        if a1.is_some() && a2.is_none() {
            (set_scope(cs, v2, col, a1.unwrap()), true)
        } else if a2.is_some() && a1.is_none() {
            (set_scope(cs, v1, col, a2.unwrap()), true)
        } else {
            (cs, false)
        }
    }
}

/// One pass of the equi-joins, in order, and whether it changed anything.
pub open spec fn pass_spec(cs: Seq<ConstraintView>, eqs: Seq<(i32, i32, Seq<char>)>) -> (Seq<ConstraintView>, bool)
    decreases eqs.len(),
{
    if eqs.len() == 0 {
        (cs, false)
    } else {
        let (c, ch) = pass_spec(cs, eqs.drop_last());
        let (c2, ch2) = apply_eq(c, eqs.last());
        (c2, ch || ch2)
    }
}

/// Up to `n` passes, stopping after a pass that changes nothing.
pub open spec fn rounds(cs: Seq<ConstraintView>, eqs: Seq<(i32, i32, Seq<char>)>, n: nat) -> Seq<ConstraintView>
    decreases n,
{
    if n == 0 {
        cs
    } else {
        let (c, ch) = pass_spec(cs, eqs);
        if !ch {
            c
        } else {
            rounds(c, eqs, (n - 1) as nat)
        }
    }
}

/// The views of a list of equi-joins.
pub open spec fn eqs_view(v: Seq<(i32, i32, String)>) -> Seq<(i32, i32, Seq<char>)> {
    v.map_values(|e: (i32, i32, String)| (e.0, e.1, e.2@))
}

/// At rest under the equi-joins: relations joined on `t` have the same time
/// range, and relations joined on another column both know its scope value
/// or neither does.
pub open spec fn settled(cs: Seq<ConstraintView>, eqs: Seq<(i32, i32, Seq<char>)>) -> bool {
    forall|j: int|
        0 <= j < eqs.len() ==> {
            let (v1, v2, col) = #[trigger] eqs[j];
            if col == "t"@ {
                times_of(cs, v1) == times_of(cs, v2)
            } else {
                scope_value(cs, v1, col).is_some() == scope_value(cs, v2, col).is_some()
            }
        }
}

/// Law: a pass that changes nothing leaves the constraints as they are, and
/// then they are at rest under every equi-join.
pub proof fn lemma_quiet_pass_settles(cs: Seq<ConstraintView>, eqs: Seq<(i32, i32, Seq<char>)>)
    requires
        !pass_spec(cs, eqs).1,
    ensures
        pass_spec(cs, eqs).0 == cs,
        settled(cs, eqs),
    decreases eqs.len(),
{
    if eqs.len() > 0 {
        lemma_quiet_pass_settles(cs, eqs.drop_last());
        assert forall|j: int| 0 <= j < eqs.len() implies {
            let (v1, v2, col) = #[trigger] eqs[j];
            if col == "t"@ {
                times_of(cs, v1) == times_of(cs, v2)
            } else {
                scope_value(cs, v1, col).is_some() == scope_value(cs, v2, col).is_some()
            }
        } by {
            if j < eqs.len() - 1 {
                assert(eqs[j] == eqs.drop_last()[j]);
            }
        }
    }
}

fn clone_pairs(ps: &Vec<(String, String)>) -> (r: Vec<(String, String)>)
    ensures
        pairs_view(r@) == pairs_view(ps@),
{
    let mut out: Vec<(String, String)> = Vec::new();
    let n = ps.len();
    let mut i: usize = 0;
    while i < n
        invariant
            n == ps@.len(),
            i <= n,
            pairs_view(out@) == pairs_view(ps@).take(i as int),
        decreases n - i,
    {
        let p = (ps[i].0.clone(), ps[i].1.clone());
        proof {
            assert(pairs_view(out@.push(p)) =~= pairs_view(out@).push((p.0@, p.1@)));
            assert(pairs_view(ps@).take(i + 1) =~= pairs_view(ps@).take(i as int).push((ps@[i as int].0@, ps@[i as int].1@)));
        }
        out.push(p);
        i = i + 1;
    }
    proof {
        assert(pairs_view(ps@).take(n as int) =~= pairs_view(ps@));
    }
    out
}

fn set_time_exec(cs: &mut Vec<QueryConstraint>, v: i32, s: Option<i64>, e: Option<i64>)
    ensures
        constraints_view(final(cs)@) == set_time(constraints_view(old(cs)@), v, s, e),
{
    let ghost cv = constraints_view(cs@);
    match find_varno(cs, v) {
        Some(i) => {
            let scopes = clone_pairs(&cs[i].scopes);
            let c = QueryConstraint { varno: v, start: s, end: e, scopes };
            proof {
                lemma_idx_at(cv, v, i as int);
                assert(cv[i as int].3 == pairs_view(cs@[i as int].scopes@));
            }
            cs.set(i, c);
            proof {
                assert(constraints_view(cs@) =~= cv.update(i as int, (v, s, e, cv[i as int].3)));
            }
        },
        None => {
            let c = QueryConstraint { varno: v, start: s, end: e, scopes: Vec::new() };
            proof {
                assert(!exists|i: int| first_of(cv, v, i));
            }
            cs.push(c);
            proof {
                assert(pairs_view(c.scopes@) =~= Seq::<(Seq<char>, Seq<char>)>::empty());
                assert(constraints_view(cs@) =~= cv.push((v, s, e, Seq::empty())));
            }
        },
    }
}

fn insert_scope_exec(ps: &mut Vec<(String, String)>, k: &String, val: &String)
    ensures
        pairs_view(final(ps)@) == insert_scope(pairs_view(old(ps)@), k@, val@),
{
    let ghost pv = pairs_view(ps@);
    match find_key(ps, k) {
        Some(j) => {
            proof {
                lemma_key_idx_at(pv, k@, j as int);
            }
            ps.set(j, (k.clone(), val.clone()));
            proof {
                assert(pairs_view(ps@) =~= pv.update(j as int, (k@, val@)));
            }
        },
        None => {
            proof {
                assert(!exists|i: int| first_key(pv, k@, i));
            }
            ps.push((k.clone(), val.clone()));
            proof {
                assert(pairs_view(ps@) =~= pv.push((k@, val@)));
            }
        },
    }
}

fn set_scope_exec(cs: &mut Vec<QueryConstraint>, v: i32, k: &String, val: &String)
    ensures
        constraints_view(final(cs)@) == set_scope(constraints_view(old(cs)@), v, k@, val@),
{
    let ghost cv = constraints_view(cs@);
    match find_varno(cs, v) {
        Some(i) => {
            let mut scopes = clone_pairs(&cs[i].scopes);
            insert_scope_exec(&mut scopes, k, val);
            let c = QueryConstraint { varno: v, start: cs[i].start, end: cs[i].end, scopes };
            proof {
                lemma_idx_at(cv, v, i as int);
                assert(cv[i as int].3 == pairs_view(cs@[i as int].scopes@));
            }
            cs.set(i, c);
            proof {
                assert(constraints_view(cs@) =~= cv.update(
                    i as int,
                    (v, cv[i as int].1, cv[i as int].2, insert_scope(cv[i as int].3, k@, val@)),
                ));
            }
        },
        None => {
            let mut scopes: Vec<(String, String)> = Vec::new();
            scopes.push((k.clone(), val.clone()));
            let c = QueryConstraint { varno: v, start: None, end: None, scopes };
            proof {
                assert(!exists|i: int| first_of(cv, v, i));
                assert(pairs_view(c.scopes@) =~= seq![(k@, val@)]);
            }
            cs.push(c);
            proof {
                assert(constraints_view(cs@) =~= cv.push((v, None, None, seq![(k@, val@)])));
            }
        },
    }
}

fn times_exec(cs: &Vec<QueryConstraint>, v: i32) -> (r: (Option<i64>, Option<i64>))
    ensures
        r == times_of(constraints_view(cs@), v),
{
    match find_varno(cs, v) {
        Some(i) => (cs[i].start, cs[i].end),
        None => (None, None),
    }
}

fn scope_value_exec(cs: &Vec<QueryConstraint>, v: i32, k: &String) -> (r: Option<String>)
    ensures
        crate::rollup::opt_text(r) == scope_value(constraints_view(cs@), v, k@),
{
    match find_varno(cs, v) {
        Some(i) => match find_key(&cs[i].scopes, k) {
            Some(j) => Some(cs[i].scopes[j].1.clone()),
            None => None,
        },
        None => None,
    }
}

fn apply_eq_exec(cs: &mut Vec<QueryConstraint>, eq: &(i32, i32, String)) -> (changed: bool)
    ensures
        (constraints_view(final(cs)@), changed) == apply_eq(constraints_view(old(cs)@), (eq.0, eq.1, eq.2@)),
{
    let v1 = eq.0;
    let v2 = eq.1;
    proof {
        reveal_strlit("t");
    }
    if chars_eq_str(&chars_of(eq.2.as_str()), "t") {
        let (s1, e1) = times_exec(cs, v1);
        let (s2, e2) = times_exec(cs, v2);
        let ns = match s1 {
            Some(x) => Some(x),
            None => s2,
        };
        let ne = match e1 {
            Some(x) => Some(x),
            None => e2,
        };
        let ch1 = ns != s1 || ne != e1;
        if ch1 {
            set_time_exec(cs, v1, ns, ne);
        }
        let ch2 = ns != s2 || ne != e2;
        if ch2 {
            set_time_exec(cs, v2, ns, ne);
        }
        ch1 || ch2
    } else {
        let a1 = scope_value_exec(cs, v1, &eq.2);
        let a2 = scope_value_exec(cs, v2, &eq.2);
        match (a1, a2) {
            (Some(x), None) => {
                set_scope_exec(cs, v2, &eq.2, &x);
                true
            },
            (None, Some(y)) => {
                set_scope_exec(cs, v1, &eq.2, &y);
                true
            },
            _ => false,
        }
    }
}

/// Propagates time and scope constraints across equi-joins: up to ten
/// passes over the joins in order (see `apply_eq`), stopping after a pass
/// that changes nothing. When the passes come to rest, every join is
/// settled.
pub fn propagate_join_constraints(cs: Vec<QueryConstraint>, eqs: &Vec<(i32, i32, String)>) -> (r: Vec<QueryConstraint>)
    ensures
        constraints_view(r@) == rounds(constraints_view(cs@), eqs_view(eqs@), 10),
        !pass_spec(constraints_view(r@), eqs_view(eqs@)).1 ==> settled(constraints_view(r@), eqs_view(eqs@)),
{
    let ghost ev = eqs_view(eqs@);
    let mut cur = cs;
    let mut round: usize = 0;
    while round < 10
        invariant
            ev == eqs_view(eqs@),
            round <= 10,
            rounds(constraints_view(cur@), ev, (10 - round) as nat) == rounds(constraints_view(cs@), ev, 10),
        decreases 10 - round,
    {
        let ghost start = constraints_view(cur@);
        let mut changed = false;
        let n = eqs.len();
        let mut i: usize = 0;
        while i < n
            invariant
                n == eqs@.len(),
                ev == eqs_view(eqs@),
                i <= n,
                (constraints_view(cur@), changed) == pass_spec(start, ev.take(i as int)),
            decreases n - i,
        {
            proof {
                assert(ev.take(i + 1).drop_last() =~= ev.take(i as int));
                assert(ev.take(i + 1).last() == (eqs@[i as int].0, eqs@[i as int].1, eqs@[i as int].2@));
            }
            let ch = apply_eq_exec(&mut cur, &eqs[i]);
            changed = changed || ch;
            i = i + 1;
        }
        proof {
            assert(ev.take(n as int) =~= ev);
        }
        if !changed {
            proof {
                lemma_quiet_pass_settles(start, ev);
            }
            return cur;
        }
        round = round + 1;
    }
    proof {
        if !pass_spec(constraints_view(cur@), ev).1 {
            lemma_quiet_pass_settles(constraints_view(cur@), ev);
        }
    }
    cur
}

// ---------------------------------------------------------------------------
// OR branches
// ---------------------------------------------------------------------------

/// The views of the branches' constraint lists.
pub open spec fn branches_view(bs: Seq<Vec<QueryConstraint>>) -> Seq<Seq<ConstraintView>> {
    bs.map_values(|b: Vec<QueryConstraint>| constraints_view(b@))
}

/// Every branch constrains relation `v`.
pub open spec fn in_all(bs: Seq<Seq<ConstraintView>>, v: i32) -> bool {
    forall|b: int| 0 <= b < bs.len() ==> (#[trigger] lookup(bs[b], v)).is_some()
}

/// The earliest start of relation `v` over the branches, `None` when a
/// branch leaves it open.
pub open spec fn hull_start(bs: Seq<Seq<ConstraintView>>, v: i32) -> Option<i64>
    decreases bs.len(),
{
    if bs.len() == 0 {
        None
    } else {
        let s = match lookup(bs.last(), v) {
            Some(c) => c.1,
            None => None,
        };
        if bs.len() == 1 {
            s
        } else {
            match (hull_start(bs.drop_last(), v), s) {
                (Some(a), Some(b)) => Some(if a <= b { a } else { b }),
                _ => None,
            }
        }
    }
}

/// The latest end of relation `v` over the branches, `None` when a branch
/// leaves it open.
pub open spec fn hull_end(bs: Seq<Seq<ConstraintView>>, v: i32) -> Option<i64>
    decreases bs.len(),
{
    if bs.len() == 0 {
        None
    } else {
        let e = match lookup(bs.last(), v) {
            Some(c) => c.2,
            None => None,
        };
        if bs.len() == 1 {
            e
        } else {
            match (hull_end(bs.drop_last(), v), e) {
                (Some(a), Some(b)) => Some(if a >= b { a } else { b }),
                _ => None,
            }
        }
    }
}

/// Every branch gives relation `v` the scope value of pair `p`.
pub open spec fn agrees(bs: Seq<Seq<ConstraintView>>, v: i32, p: (Seq<char>, Seq<char>)) -> bool {
    forall|b: int| 0 <= b < bs.len() ==> #[trigger] scope_value(bs[b], v, p.0) == Some(p.1)
}

/// The pairs all branches agree on, in order.
pub open spec fn common_scopes(ps: Seq<(Seq<char>, Seq<char>)>, bs: Seq<Seq<ConstraintView>>, v: i32) -> Seq<(Seq<char>, Seq<char>)>
    decreases ps.len(),
{
    if ps.len() == 0 {
        Seq::empty()
    } else {
        let prev = common_scopes(ps.drop_last(), bs, v);
        if agrees(bs, v, ps.last()) {
            prev.push(ps.last())
        } else {
            prev
        }
    }
}

/// What an OR of branches guarantees, from the first `n` constraints of the
/// first branch: for each relation (once) that every branch constrains, the
/// hull of its time ranges and the scope values all branches agree on.
pub open spec fn hull_upto(bs: Seq<Seq<ConstraintView>>, n: int) -> Seq<ConstraintView>
    decreases n,
{
    if n <= 0 || bs.len() == 0 {
        Seq::empty()
    } else {
        let prev = hull_upto(bs, n - 1);
        let c = bs[0][n - 1];
        if first_of(bs[0], c.0, n - 1) && in_all(bs, c.0) {
            prev.push((c.0, hull_start(bs, c.0), hull_end(bs, c.0), common_scopes(c.3, bs, c.0)))
        } else {
            prev
        }
    }
}

/// What an OR of branches guarantees (see `hull_upto`).
pub open spec fn or_hull(bs: Seq<Seq<ConstraintView>>) -> Seq<ConstraintView> {
    if bs.len() == 0 {
        Seq::empty()
    } else {
        hull_upto(bs, bs[0].len() as int)
    }
}

/// The scope pairs with each of `hs` set in turn.
pub open spec fn insert_all(ps: Seq<(Seq<char>, Seq<char>)>, hs: Seq<(Seq<char>, Seq<char>)>) -> Seq<(Seq<char>, Seq<char>)>
    decreases hs.len(),
{
    if hs.len() == 0 {
        ps
    } else {
        let p = insert_all(ps, hs.drop_last());
        insert_scope(p, hs.last().0, hs.last().1)
    }
}

/// Relation `h.0`'s constraint narrowed by the hull entry `h`: the later
/// start, the earlier end, and the hull's scope values.
pub open spec fn narrow(cs: Seq<ConstraintView>, h: ConstraintView) -> Seq<ConstraintView> {
    let v = h.0;
    let cur = match lookup(cs, v) {
        Some(c) => c,
        None => (v, None, None, Seq::empty()),
    };
    let ns = match h.1 {
        Some(s) => Some(
            match cur.1 {
                Some(m) => if m >= s { m } else { s },
                None => s,
            },
        ),
        None => cur.1,
    };
    let ne = match h.2 {
        Some(e) => Some(
            match cur.2 {
                Some(m) => if m <= e { m } else { e },
                None => e,
            },
        ),
        None => cur.2,
    };
    let nc = (v, ns, ne, insert_all(cur.3, h.3));
    let i = idx_of(cs, v);
    if i >= 0 {
        cs.update(i, nc)
    } else {
        cs.push(nc)
    }
}

/// The constraints narrowed by each hull entry in turn.
pub open spec fn narrow_all(cs: Seq<ConstraintView>, hs: Seq<ConstraintView>) -> Seq<ConstraintView>
    decreases hs.len(),
{
    if hs.len() == 0 {
        cs
    } else {
        narrow(narrow_all(cs, hs.drop_last()), hs.last())
    }
}

/// Law: the hull's range contains every branch's range: where it has a
/// start, no branch starts before it, and where it has an end, no branch
/// ends after it.
pub proof fn lemma_hull_contains_branches(bs: Seq<Seq<ConstraintView>>, v: i32, b: int)
    requires
        0 <= b < bs.len(),
    ensures
        hull_start(bs, v) matches Some(s) ==> (lookup(bs[b], v) matches Some(c) && c.1 matches Some(x) && s <= x),
        hull_end(bs, v) matches Some(e) ==> (lookup(bs[b], v) matches Some(c) && c.2 matches Some(x) && x <= e),
    decreases bs.len(),
{
    if bs.len() > 1 && b < bs.len() - 1 {
        lemma_hull_contains_branches(bs.drop_last(), v, b);
        assert(bs.drop_last()[b] == bs[b]);
    }
}

fn start_in(b: &Vec<QueryConstraint>, v: i32) -> (r: (bool, Option<i64>, Option<i64>))
    ensures
        r.0 == lookup(constraints_view(b@), v).is_some(),
        lookup(constraints_view(b@), v) matches Some(c) ==> r.1 == c.1 && r.2 == c.2,
        lookup(constraints_view(b@), v) is None ==> r.1 is None && r.2 is None,
{
    match find_varno(b, v) {
        Some(i) => (true, b[i].start, b[i].end),
        None => (false, None, None),
    }
}

fn hull_times_exec(bs: &Vec<Vec<QueryConstraint>>, v: i32) -> (r: (Option<i64>, Option<i64>))
    ensures
        r.0 == hull_start(branches_view(bs@), v),
        r.1 == hull_end(branches_view(bs@), v),
{
    let ghost bv = branches_view(bs@);
    let n = bs.len();
    let mut s: Option<i64> = None;
    let mut e: Option<i64> = None;
    let mut k: usize = 0;
    while k < n
        invariant
            n == bs@.len(),
            bv == branches_view(bs@),
            k <= n,
            s == hull_start(bv.take(k as int), v),
            e == hull_end(bv.take(k as int), v),
        decreases n - k,
    {
        let (_, bs_k, be_k) = start_in(&bs[k], v);
        proof {
            assert(bv.take(k + 1).drop_last() =~= bv.take(k as int));
            assert(bv.take(k + 1).last() == constraints_view(bs@[k as int]@));
        }
        if k == 0 {
            s = bs_k;
            e = be_k;
        } else {
            s = match (s, bs_k) {
                (Some(a), Some(b)) => Some(if a <= b { a } else { b }),
                _ => None,
            };
            e = match (e, be_k) {
                (Some(a), Some(b)) => Some(if a >= b { a } else { b }),
                _ => None,
            };
        }
        k = k + 1;
    }
    proof {
        assert(bv.take(n as int) =~= bv);
    }
    (s, e)
}

fn in_all_exec(bs: &Vec<Vec<QueryConstraint>>, v: i32) -> (r: bool)
    ensures
        r == in_all(branches_view(bs@), v),
{
    let ghost bv = branches_view(bs@);
    let n = bs.len();
    let mut k: usize = 0;
    while k < n
        invariant
            n == bs@.len(),
            bv == branches_view(bs@),
            k <= n,
            forall|b: int| 0 <= b < k ==> (#[trigger] lookup(bv[b], v)).is_some(),
        decreases n - k,
    {
        let (found, _, _) = start_in(&bs[k], v);
        proof {
            assert(bv[k as int] == constraints_view(bs@[k as int]@));
        }
        if !found {
            return false;
        }
        k = k + 1;
    }
    true
}

fn agrees_exec(bs: &Vec<Vec<QueryConstraint>>, v: i32, p: &(String, String)) -> (r: bool)
    ensures
        r == agrees(branches_view(bs@), v, (p.0@, p.1@)),
{
    let ghost bv = branches_view(bs@);
    let n = bs.len();
    let mut k: usize = 0;
    while k < n
        invariant
            n == bs@.len(),
            bv == branches_view(bs@),
            k <= n,
            forall|b: int| 0 <= b < k ==> #[trigger] scope_value(bv[b], v, p.0@) == Some(p.1@),
        decreases n - k,
    {
        let x = scope_value_exec(&bs[k], v, &p.0);
        proof {
            assert(bv[k as int] == constraints_view(bs@[k as int]@));
        }
        let ok = match &x {
            Some(t) => *t == p.1,
            None => false,
        };
        if !ok {
            return false;
        }
        k = k + 1;
    }
    true
}

fn common_scopes_exec(ps: &Vec<(String, String)>, bs: &Vec<Vec<QueryConstraint>>, v: i32) -> (r: Vec<(String, String)>)
    ensures
        pairs_view(r@) == common_scopes(pairs_view(ps@), branches_view(bs@), v),
{
    let ghost pv = pairs_view(ps@);
    let ghost bv = branches_view(bs@);
    let n = ps.len();
    let mut out: Vec<(String, String)> = Vec::new();
    let mut i: usize = 0;
    while i < n
        invariant
            n == ps@.len(),
            pv == pairs_view(ps@),
            bv == branches_view(bs@),
            i <= n,
            pairs_view(out@) == common_scopes(pv.take(i as int), bv, v),
        decreases n - i,
    {
        proof {
            assert(pv.take(i + 1).drop_last() =~= pv.take(i as int));
            assert(pv.take(i + 1).last() == (ps@[i as int].0@, ps@[i as int].1@));
        }
        if agrees_exec(bs, v, &ps[i]) {
            let p = (ps[i].0.clone(), ps[i].1.clone());
            proof {
                assert(pairs_view(out@.push(p)) =~= pairs_view(out@).push((p.0@, p.1@)));
            }
            out.push(p);
        }
        i = i + 1;
    }
    proof {
        assert(pv.take(n as int) =~= pv);
    }
    out
}

/// What an OR of branches guarantees (see `or_hull`): for each relation
/// that every branch constrains, in the order of the first branch, the
/// hull of the time ranges and the scope values all branches agree on.
pub fn or_hull_of(bs: &Vec<Vec<QueryConstraint>>) -> (r: Vec<QueryConstraint>)
    ensures
        constraints_view(r@) == or_hull(branches_view(bs@)),
{
    let ghost bv = branches_view(bs@);
    let mut out: Vec<QueryConstraint> = Vec::new();
    if bs.len() == 0 {
        proof {
            assert(constraints_view(out@) =~= Seq::<ConstraintView>::empty());
        }
        return out;
    }
    let b0 = &bs[0];
    let ghost c0 = constraints_view(b0@);
    proof {
        assert(bv[0] == c0);
    }
    let n = b0.len();
    let mut i: usize = 0;
    proof {
        assert(constraints_view(out@) =~= hull_upto(bv, 0));
    }
    while i < n
        invariant
            n == b0@.len(),
            bs@.len() > 0,
            bv == branches_view(bs@),
            c0 == constraints_view(b0@),
            bv[0] == c0,
            *b0 == bs@[0],
            i <= n,
            constraints_view(out@) == hull_upto(bv, i as int),
        decreases n - i,
    {
        let v = b0[i].varno;
        proof {
            assert(c0[i as int].0 == v);
        }
        let first = match find_varno(b0, v) {
            Some(j) => j == i,
            None => false,
        };
        if first && in_all_exec(bs, v) {
            let (hs, he) = hull_times_exec(bs, v);
            let sc = common_scopes_exec(&b0[i].scopes, bs, v);
            let c = QueryConstraint { varno: v, start: hs, end: he, scopes: sc };
            proof {
                assert(first_of(c0, v, i as int));
                assert(c0[i as int].3 == pairs_view(b0@[i as int].scopes@));
                assert(constraints_view(out@.push(c)) =~= constraints_view(out@).push(constraint_view(c)));
            }
            out.push(c);
        } else {
            proof {
                if first_of(c0, v, i as int) {
                    if !first {
                        let j = choose|j: int| first_of(c0, v, j);
                        assert(c0[i as int].0 == v);
                    }
                }
            }
        }
        i = i + 1;
    }
    out
}

fn insert_all_exec(ps: &mut Vec<(String, String)>, hs: &Vec<(String, String)>)
    ensures
        pairs_view(final(ps)@) == insert_all(pairs_view(old(ps)@), pairs_view(hs@)),
{
    let ghost start = pairs_view(ps@);
    let ghost hv = pairs_view(hs@);
    let n = hs.len();
    let mut i: usize = 0;
    while i < n
        invariant
            n == hs@.len(),
            hv == pairs_view(hs@),
            i <= n,
            pairs_view(ps@) == insert_all(start, hv.take(i as int)),
        decreases n - i,
    {
        proof {
            assert(hv.take(i + 1).drop_last() =~= hv.take(i as int));
            assert(hv.take(i + 1).last() == (hs@[i as int].0@, hs@[i as int].1@));
        }
        insert_scope_exec(ps, &hs[i].0, &hs[i].1);
        i = i + 1;
    }
    proof {
        assert(hv.take(n as int) =~= hv);
    }
}

fn narrow_exec(cs: &mut Vec<QueryConstraint>, h: &QueryConstraint)
    ensures
        constraints_view(final(cs)@) == narrow(constraints_view(old(cs)@), constraint_view(*h)),
{
    let ghost cv = constraints_view(cs@);
    let v = h.varno;
    let found = find_varno(cs, v);
    let (cur_s, cur_e, mut scopes) = match found {
        Some(i) => (cs[i].start, cs[i].end, clone_pairs(&cs[i].scopes)),
        None => (None, None, Vec::new()),
    };
    proof {
        match found {
            Some(i) => {
                assert(cv[i as int].3 == pairs_view(cs@[i as int].scopes@));
            },
            None => {
                assert(pairs_view(scopes@) =~= Seq::<(Seq<char>, Seq<char>)>::empty());
            },
        }
    }
    let ns = match h.start {
        Some(s) => Some(
            match cur_s {
                Some(m) => if m >= s { m } else { s },
                None => s,
            },
        ),
        None => cur_s,
    };
    let ne = match h.end {
        Some(e) => Some(
            match cur_e {
                Some(m) => if m <= e { m } else { e },
                None => e,
            },
        ),
        None => cur_e,
    };
    insert_all_exec(&mut scopes, &h.scopes);
    let c = QueryConstraint { varno: v, start: ns, end: ne, scopes };
    match found {
        Some(i) => {
            proof {
                lemma_idx_at(cv, v, i as int);
            }
            cs.set(i, c);
            proof {
                assert(constraints_view(cs@) =~= cv.update(i as int, constraint_view(c)));
            }
        },
        None => {
            proof {
                assert(!exists|i: int| first_of(cv, v, i));
            }
            cs.push(c);
            proof {
                assert(constraints_view(cs@) =~= cv.push(constraint_view(c)));
            }
        },
    }
}

/// Narrows the constraints by what an OR of branches guarantees: each
/// relation every branch constrains gets the later of its start and the
/// branches' earliest start, the earlier of its end and their latest end,
/// and the scope values all branches agree on.
pub fn merge_or_branches(main: Vec<QueryConstraint>, branches: &Vec<Vec<QueryConstraint>>) -> (r: Vec<QueryConstraint>)
    ensures
        constraints_view(r@) == narrow_all(constraints_view(main@), or_hull(branches_view(branches@))),
{
    let hull = or_hull_of(branches);
    let ghost hv = constraints_view(hull@);
    let ghost start = constraints_view(main@);
    let mut cur = main;
    let n = hull.len();
    let mut i: usize = 0;
    while i < n
        invariant
            n == hull@.len(),
            hv == constraints_view(hull@),
            i <= n,
            constraints_view(cur@) == narrow_all(start, hv.take(i as int)),
        decreases n - i,
    {
        proof {
            assert(hv.take(i + 1).drop_last() =~= hv.take(i as int));
            assert(hv.take(i + 1).last() == constraint_view(hull@[i as int]));
        }
        narrow_exec(&mut cur, &hull[i]);
        i = i + 1;
    }
    proof {
        assert(hv.take(n as int) =~= hv);
    }
    cur
}

} // verus!
