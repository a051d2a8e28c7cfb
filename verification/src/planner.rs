//! Query slicing over the rollup tiers: a time range is cut into segments
//! read from the coarsest tier whose buckets fit, with the ranges that the
//! changelog marks dirty read from the base table.
use vstd::prelude::*;
use crate::catalog::trunc_div;
use crate::text::chars_eq;

verus! {

/// One piece of a sliced time range: `[t_start, t_end)` read from `source`.
pub struct Segment {
    pub source: String,
    pub t_start: i64,
    pub t_end: i64,
}

/// A rollup tier that may serve a query: its table and bucket size.
pub struct Tier {
    pub name: String,
    pub frame_seconds: i32,
}

/// The view of a segment.
pub open spec fn seg_view(s: Segment) -> (Seq<char>, int, int) {
    (s.source@, s.t_start as int, s.t_end as int)
}

/// The views of a list of segments.
pub open spec fn segs_view(v: Seq<Segment>) -> Seq<(Seq<char>, int, int)> {
    v.map_values(|s: Segment| seg_view(s))
}

/// The views of a list of tiers.
pub open spec fn tiers_view(v: Seq<Tier>) -> Seq<(Seq<char>, int)> {
    v.map_values(|t: Tier| (t.name@, t.frame_seconds as int))
}

/// A tier may serve the query: a positive bucket no larger than the cap.
pub open spec fn tier_eligible(frame: int, max_frame_secs: Option<i64>) -> bool {
    frame > 0 && match max_frame_secs {
        Some(m) => frame <= m,
        None => true,
    }
}

/// The start of the bucket of size `f` that holds `curr`, buckets being
/// aligned to `-offset` (rounding toward zero).
pub open spec fn bucket_start(curr: int, offset: int, f: int) -> int {
    trunc_div(curr + offset, f) * f - offset
}

/// A bucket of size `f` starts at `curr` and ends by `end`.
pub open spec fn bucket_fits(curr: int, end: int, offset: int, f: int) -> bool {
    bucket_start(curr, offset, f) == curr && curr + f <= end
}

/// Among the first `n` tiers, the index of the eligible one with the
/// largest bucket that starts at `curr` and ends by `end` (the first such
/// one on ties), or -1.
pub open spec fn best_tier(
    tiers: Seq<(Seq<char>, int)>,
    n: int,
    curr: int,
    end: int,
    offset: int,
    max_frame_secs: Option<i64>,
) -> int
    decreases n,
{
    if n <= 0 {
        -1
    } else {
        let b = best_tier(tiers, n - 1, curr, end, offset, max_frame_secs);
        let f = tiers[n - 1].1;
        if tier_eligible(f, max_frame_secs) && bucket_fits(curr, end, offset, f) && (b < 0 || f
            > tiers[b].1) {
            n - 1
        } else {
            b
        }
    }
}

/// The smallest bucket among the eligible tiers of the first `n`, or 0.
pub open spec fn min_eligible_frame(tiers: Seq<(Seq<char>, int)>, n: int, max_frame_secs: Option<i64>) -> int
    decreases n,
{
    if n <= 0 {
        0
    } else {
        let m = min_eligible_frame(tiers, n - 1, max_frame_secs);
        let f = tiers[n - 1].1;
        if tier_eligible(f, max_frame_secs) && (m == 0 || f < m) {
            f
        } else {
            m
        }
    }
}

/// The step used where no tier fits: the smallest eligible bucket, else 60.
pub open spec fn fallback_frame(tiers: Seq<(Seq<char>, int)>, max_frame_secs: Option<i64>) -> int {
    let m = min_eligible_frame(tiers, tiers.len() as int, max_frame_secs);
    if m == 0 {
        60
    } else {
        m
    }
}

/// Bound on the times and offsets a query is sliced with, which keeps every
/// bucket computation inside `i64`.
pub open spec fn time_bound() -> int {
    0x1000_0000_0000_0000
}

/// The value is within the time bound.
pub open spec fn bounded_time(x: int) -> bool {
    -time_bound() <= x <= time_bound()
}

proof fn lemma_best_tier_range(
    tiers: Seq<(Seq<char>, int)>,
    n: int,
    curr: int,
    end: int,
    offset: int,
    max_frame_secs: Option<i64>,
)
    requires
        0 <= n <= tiers.len(),
    ensures
        -1 <= best_tier(tiers, n, curr, end, offset, max_frame_secs) < n,
        best_tier(tiers, n, curr, end, offset, max_frame_secs) >= 0 ==> ({
            let b = best_tier(tiers, n, curr, end, offset, max_frame_secs);
            tier_eligible(tiers[b].1, max_frame_secs) && bucket_fits(curr, end, offset, tiers[b].1)
        }),
    decreases n,
{
    if n > 0 {
        lemma_best_tier_range(tiers, n - 1, curr, end, offset, max_frame_secs);
    }
}

proof fn lemma_min_frame_range(tiers: Seq<(Seq<char>, int)>, n: int, max_frame_secs: Option<i64>)
    requires
        n <= tiers.len(),
        forall|k: int| 0 <= k < tiers.len() ==> tiers[k].1 <= i32::MAX,
    ensures
        0 <= min_eligible_frame(tiers, n, max_frame_secs) <= i32::MAX,
    decreases n,
{
    if n > 0 {
        lemma_min_frame_range(tiers, n - 1, max_frame_secs);
    }
}

fn bucket_start_exec(curr: i64, offset: i64, f: i64) -> (r: i64)
    requires
        bounded_time(curr as int),
        bounded_time(offset as int),
        0 < f <= i32::MAX,
    ensures
        r == bucket_start(curr as int, offset as int, f as int),
{
    let (q, _) = crate::catalog::div_trunc(curr + offset, f);
    proof {
        assert(crate::catalog::abs(curr + offset) / (f as int) <= crate::catalog::abs(curr + offset)) by {
            vstd::arithmetic::div_mod::lemma_div_is_ordered_by_denominator(
                crate::catalog::abs(curr + offset),
                1,
                f as int,
            );
        }
        assert(-2 * time_bound() <= q * f <= 2 * time_bound() + f) by (nonlinear_arith)
            requires
                q == trunc_div(curr + offset, f as int),
                -2 * time_bound() <= curr + offset <= 2 * time_bound(),
                0 < f,
        {
            vstd::arithmetic::div_mod::lemma_fundamental_div_mod(
                crate::catalog::abs(curr + offset),
                f as int,
            );
        }
    }
    q * f - offset
}

fn pick_tier(tiers: &Vec<Tier>, curr: i64, end: i64, offset: i64, max_frame_secs: Option<i64>) -> (r: Option<usize>)
    requires
        bounded_time(curr as int),
        bounded_time(offset as int),
        bounded_time(end as int),
    ensures
        match r {
            Some(k) => k as int == best_tier(tiers_view(tiers@), tiers@.len() as int, curr as int, end as int, offset as int, max_frame_secs),
            None => best_tier(tiers_view(tiers@), tiers@.len() as int, curr as int, end as int, offset as int, max_frame_secs) == -1,
        },
{
    let ghost tv = tiers_view(tiers@);
    let n = tiers.len();
    let mut best: Option<usize> = None;
    let mut best_frame: i32 = 0;
    let mut k: usize = 0;
    while k < n
        invariant
            n == tiers@.len(),
            tv == tiers_view(tiers@),
            tv.len() == n,
            k <= n,
            bounded_time(curr as int),
            bounded_time(offset as int),
            bounded_time(end as int),
            match best {
                Some(b) => b < k && b as int == best_tier(tv, k as int, curr as int, end as int, offset as int, max_frame_secs)
                    && best_frame == tv[b as int].1,
                None => best_tier(tv, k as int, curr as int, end as int, offset as int, max_frame_secs) == -1,
            },
        decreases n - k,
    {
        proof {
            lemma_best_tier_range(tv, k as int, curr as int, end as int, offset as int, max_frame_secs);
        }
        let f = tiers[k].frame_seconds;
        proof {
            assert(tv[k as int].1 == f);
        }
        let eligible = f > 0 && match max_frame_secs {
            Some(m) => (f as i64) <= m,
            None => true,
        };
        if eligible {
            let bs = bucket_start_exec(curr, offset, f as i64);
            let better = match best {
                Some(_) => f > best_frame,
                None => true,
            };
            if bs == curr && curr + (f as i64) <= end && better {
                best = Some(k);
                best_frame = f;
            }
        }
        k = k + 1;
    }
    best
}

fn smallest_frame(tiers: &Vec<Tier>, max_frame_secs: Option<i64>) -> (r: i64)
    ensures
        r == fallback_frame(tiers_view(tiers@), max_frame_secs),
        0 < r <= i32::MAX,
{
    let ghost tv = tiers_view(tiers@);
    let n = tiers.len();
    let mut m: i32 = 0;
    let mut k: usize = 0;
    while k < n
        invariant
            n == tiers@.len(),
            tv == tiers_view(tiers@),
            k <= n,
            tv.len() == n,
            m == min_eligible_frame(tv, k as int, max_frame_secs),
            m >= 0,
        decreases n - k,
    {
        let f = tiers[k].frame_seconds;
        proof {
            assert(tv[k as int].1 == f);
        }
        let eligible = f > 0 && match max_frame_secs {
            Some(mx) => (f as i64) <= mx,
            None => true,
        };
        if eligible && (m == 0 || f < m) {
            m = f;
        }
        k = k + 1;
    }
    if m == 0 {
        60
    } else {
        m as i64
    }
}

/// The half-open ranges `a` and `b` share no time.
pub open spec fn no_overlap(a: (int, int), b: (int, int)) -> bool {
    a.1 <= b.0 || b.1 <= a.0 || a.1 <= a.0 || b.1 <= b.0
}

/// The views of a list of time ranges.
pub open spec fn ranges_view(v: Seq<(i64, i64)>) -> Seq<(int, int)> {
    v.map_values(|r: (i64, i64)| (r.0 as int, r.1 as int))
}

/// A segment is read from the base table or from an eligible tier.
pub open spec fn valid_source(src: Seq<char>, base: Seq<char>, tiers: Seq<(Seq<char>, int)>, max_frame_secs: Option<i64>) -> bool {
    src == base || exists|k: int|
        0 <= k < tiers.len() && tier_eligible(tiers[k].1, max_frame_secs) && #[trigger] tiers[k].0 == src
}

/// A segment read from a tier shares no time with a dirty range.
pub open spec fn fresh(seg: (Seq<char>, int, int), base: Seq<char>, dirty: Seq<(int, int)>) -> bool {
    seg.0 != base ==> forall|j: int| 0 <= j < dirty.len() ==> no_overlap((seg.1, seg.2), #[trigger] dirty[j])
}

/// Every segment is well sourced, fresh and within the time bound.
pub open spec fn segs_ok(
    v: Seq<(Seq<char>, int, int)>,
    base: Seq<char>,
    tiers: Seq<(Seq<char>, int)>,
    dirty: Seq<(int, int)>,
    max_frame_secs: Option<i64>,
) -> bool {
    forall|i: int|
        0 <= i < v.len() ==> valid_source((#[trigger] v[i]).0, base, tiers, max_frame_secs) && fresh(
            v[i],
            base,
            dirty,
        ) && bounded_time(v[i].1) && bounded_time(v[i].2)
}

/// Every piece of the pool is within the time bound and shares no time with
/// the first `n` dirty ranges.
pub open spec fn pool_ok(pool: Seq<(int, int)>, dirty: Seq<(int, int)>, n: int) -> bool {
    forall|i: int|
        0 <= i < pool.len() ==> bounded_time((#[trigger] pool[i]).0) && bounded_time(pool[i].1) && forall|j: int|
            0 <= j < n ==> no_overlap(pool[i], #[trigger] dirty[j])
}

proof fn lemma_pool_push(pool: Seq<(int, int)>, q: (int, int), dirty: Seq<(int, int)>, n: int)
    requires
        pool_ok(pool, dirty, n),
        bounded_time(q.0),
        bounded_time(q.1),
        forall|j: int| 0 <= j < n ==> no_overlap(q, #[trigger] dirty[j]),
    ensures
        pool_ok(pool.push(q), dirty, n),
{
    assert forall|i: int| 0 <= i < pool.push(q).len() implies bounded_time((#[trigger] pool.push(q)[i]).0)
        && bounded_time(pool.push(q)[i].1) && forall|j: int|
        0 <= j < n ==> no_overlap(pool.push(q)[i], #[trigger] dirty[j]) by {
        if i < pool.len() {
            assert(pool.push(q)[i] == pool[i]);
        }
    }
}

proof fn lemma_segs_push(
    v: Seq<(Seq<char>, int, int)>,
    x: (Seq<char>, int, int),
    base: Seq<char>,
    tiers: Seq<(Seq<char>, int)>,
    dirty: Seq<(int, int)>,
    max_frame_secs: Option<i64>,
)
    requires
        segs_ok(v, base, tiers, dirty, max_frame_secs),
        valid_source(x.0, base, tiers, max_frame_secs),
        fresh(x, base, dirty),
        bounded_time(x.1),
        bounded_time(x.2),
    ensures
        segs_ok(v.push(x), base, tiers, dirty, max_frame_secs),
{
    assert forall|i: int| 0 <= i < v.push(x).len() implies valid_source(
        (#[trigger] v.push(x)[i]).0,
        base,
        tiers,
        max_frame_secs,
    ) && fresh(v.push(x)[i], base, dirty) && bounded_time(v.push(x)[i].1) && bounded_time(
        v.push(x)[i].2,
    ) by {
        if i < v.len() {
            assert(v.push(x)[i] == v[i]);
        }
    }
}

proof fn lemma_next_boundary(c: int, f: int)
    requires
        f > 0,
    ensures
        trunc_div(c + f, f) * f > c,
{
    let y = c + f;
    let a = crate::catalog::abs(y);
    vstd::arithmetic::div_mod::lemma_fundamental_div_mod(a, f);
    let q = a / f;
    assert(0 <= a % f < f) by {
        vstd::arithmetic::div_mod::lemma_mod_bound(a, f);
    }
    if y >= 0 {
        assert(trunc_div(y, f) == q);
        assert(q * f > y - f) by (nonlinear_arith)
            requires
                a == f * q + a % f,
                a % f < f,
                a == y,
        ;
    } else {
        assert(trunc_div(y, f) == -q);
        assert(-q * f >= y) by (nonlinear_arith)
            requires
                a == f * q + a % f,
                a % f >= 0,
                a == -y,
        ;
    }
}

/// `[s, e)` is a non-empty run of whole buckets of size `f`, buckets being
/// aligned to `-offset`.
pub open spec fn aligned_span(s: int, e: int, offset: int, f: int) -> bool {
    f > 0 && s < e && (s + offset) % f == 0 && (e - s) % f == 0
}

/// A segment read from a tier starts on a bucket boundary of an eligible
/// tier of its name and covers whole buckets of it.
pub open spec fn tier_aligned(
    seg: (Seq<char>, int, int),
    base: Seq<char>,
    tiers: Seq<(Seq<char>, int)>,
    offset: int,
    max_frame_secs: Option<i64>,
) -> bool {
    seg.0 != base ==> exists|k: int|
        0 <= k < tiers.len() && tier_eligible(tiers[k].1, max_frame_secs) && #[trigger] tiers[k].0 == seg.0
            && aligned_span(seg.1, seg.2, offset, tiers[k].1)
}

/// Every segment read from a tier is aligned to that tier's buckets.
pub open spec fn all_aligned(
    v: Seq<(Seq<char>, int, int)>,
    base: Seq<char>,
    tiers: Seq<(Seq<char>, int)>,
    offset: int,
    max_frame_secs: Option<i64>,
) -> bool {
    forall|i: int| 0 <= i < v.len() ==> tier_aligned(#[trigger] v[i], base, tiers, offset, max_frame_secs)
}

/// No two tiers share a name.
pub open spec fn names_distinct(tiers: Seq<(Seq<char>, int)>) -> bool {
    forall|i: int, j: int|
        0 <= i < tiers.len() && 0 <= j < tiers.len() && i != j ==> (#[trigger] tiers[i]).0 != (#[trigger] tiers[j]).0
}

proof fn lemma_aligned_push(
    v: Seq<(Seq<char>, int, int)>,
    x: (Seq<char>, int, int),
    base: Seq<char>,
    tiers: Seq<(Seq<char>, int)>,
    offset: int,
    max_frame_secs: Option<i64>,
)
    requires
        all_aligned(v, base, tiers, offset, max_frame_secs),
        tier_aligned(x, base, tiers, offset, max_frame_secs),
    ensures
        all_aligned(v.push(x), base, tiers, offset, max_frame_secs),
{
    assert forall|i: int| 0 <= i < v.push(x).len() implies tier_aligned(#[trigger] v.push(x)[i], base, tiers, offset, max_frame_secs) by {
        if i < v.len() {
            assert(v.push(x)[i] == v[i]);
        }
    }
}

proof fn lemma_mod_sum_zero(a: int, b: int, f: int)
    requires
        f > 0,
        a % f == 0,
        b % f == 0,
    ensures
        (a + b) % f == 0,
{
    vstd::arithmetic::div_mod::lemma_fundamental_div_mod(a, f);
    vstd::arithmetic::div_mod::lemma_fundamental_div_mod(b, f);
    let q = a / f + b / f;
    assert(a + b == q * f) by (nonlinear_arith)
        requires
            a == f * (a / f) + a % f,
            b == f * (b / f) + b % f,
            a % f == 0,
            b % f == 0,
            q == a / f + b / f,
    ;
    vstd::arithmetic::div_mod::lemma_mod_multiples_basic(q, f);
}

/// A bucket that starts where `bucket_start` puts it is aligned.
proof fn lemma_bucket_aligned(curr: int, offset: int, f: int)
    requires
        f > 0,
        bucket_start(curr, offset, f) == curr,
    ensures
        aligned_span(curr, curr + f, offset, f),
{
    let q = trunc_div(curr + offset, f);
    assert(curr + offset == q * f);
    vstd::arithmetic::div_mod::lemma_mod_multiples_basic(q, f);
    vstd::arithmetic::div_mod::lemma_mod_self_0(f);
}

/// Where the clean stretch from `x` ends: the first dirty range starting
/// after `x`, else `te`.
pub open spec fn next_cut(x: int, dirty: Seq<(int, int)>, te: int) -> int
    decreases dirty.len(),
{
    if dirty.len() == 0 {
        te
    } else {
        let m = next_cut(x, dirty.drop_last(), te);
        let d = dirty.last().0;
        if x < d && d < m {
            d
        } else {
            m
        }
    }
}

proof fn lemma_next_cut_le(x: int, dirty: Seq<(int, int)>, te: int, j: int)
    requires
        -1 <= j < dirty.len(),
        j >= 0 ==> x < dirty[j].0,
    ensures
        next_cut(x, dirty, te) <= te,
        j >= 0 ==> next_cut(x, dirty, te) <= dirty[j].0,
    decreases dirty.len(),
{
    if dirty.len() > 0 {
        if j == dirty.len() - 1 {
            lemma_next_cut_le(x, dirty.drop_last(), te, -1);
        } else {
            lemma_next_cut_le(x, dirty.drop_last(), te, j);
        }
    }
}

/// No eligible tier has a bucket that starts at `s` and ends by `e`.
pub open spec fn no_tier_fits(tiers: Seq<(Seq<char>, int)>, s: int, e: int, offset: int, max_frame_secs: Option<i64>) -> bool {
    forall|k: int|
        0 <= k < tiers.len() && tier_eligible(#[trigger] tiers[k].1, max_frame_secs) ==> !bucket_fits(s, e, offset, tiers[k].1)
}

proof fn lemma_best_none(
    tiers: Seq<(Seq<char>, int)>,
    n: int,
    curr: int,
    end: int,
    offset: int,
    max_frame_secs: Option<i64>,
)
    requires
        0 <= n <= tiers.len(),
        best_tier(tiers, n, curr, end, offset, max_frame_secs) == -1,
    ensures
        forall|k: int|
            0 <= k < n && tier_eligible(#[trigger] tiers[k].1, max_frame_secs) ==> !bucket_fits(curr, end, offset, tiers[k].1),
    decreases n,
{
    if n > 0 {
        lemma_best_none(tiers, n - 1, curr, end, offset, max_frame_secs);
    }
}

/// A segment read from the base table that shares no time with a dirty
/// range starts where no eligible tier bucket fits before the next dirty
/// range (or `te`).
pub open spec fn base_where_needed(
    seg: (Seq<char>, int, int),
    base: Seq<char>,
    tiers: Seq<(Seq<char>, int)>,
    dirty: Seq<(int, int)>,
    te: int,
    offset: int,
    max_frame_secs: Option<i64>,
) -> bool {
    (seg.0 == base && forall|j: int| 0 <= j < dirty.len() ==> no_overlap((seg.1, seg.2), #[trigger] dirty[j]))
        ==> no_tier_fits(tiers, seg.1, next_cut(seg.1, dirty, te), offset, max_frame_secs)
}

/// Every base segment is read only where no tier bucket fits.
pub open spec fn all_needed(
    v: Seq<(Seq<char>, int, int)>,
    base: Seq<char>,
    tiers: Seq<(Seq<char>, int)>,
    dirty: Seq<(int, int)>,
    te: int,
    offset: int,
    max_frame_secs: Option<i64>,
) -> bool {
    forall|i: int| 0 <= i < v.len() ==> base_where_needed(#[trigger] v[i], base, tiers, dirty, te, offset, max_frame_secs)
}

/// No tier has the base table's name.
pub open spec fn base_not_tier(base: Seq<char>, tiers: Seq<(Seq<char>, int)>) -> bool {
    forall|k: int| 0 <= k < tiers.len() ==> (#[trigger] tiers[k]).0 != base
}

proof fn lemma_needed_push(
    v: Seq<(Seq<char>, int, int)>,
    x: (Seq<char>, int, int),
    base: Seq<char>,
    tiers: Seq<(Seq<char>, int)>,
    dirty: Seq<(int, int)>,
    te: int,
    offset: int,
    max_frame_secs: Option<i64>,
)
    requires
        all_needed(v, base, tiers, dirty, te, offset, max_frame_secs),
        base_where_needed(x, base, tiers, dirty, te, offset, max_frame_secs),
    ensures
        all_needed(v.push(x), base, tiers, dirty, te, offset, max_frame_secs),
{
    assert forall|i: int| 0 <= i < v.push(x).len() implies base_where_needed(
        #[trigger] v.push(x)[i],
        base,
        tiers,
        dirty,
        te,
        offset,
        max_frame_secs,
    ) by {
        if i < v.len() {
            assert(v.push(x)[i] == v[i]);
        }
    }
}

/// Every piece of the pool ends at `te` or where one of the first `n` dirty
/// ranges starts.
pub open spec fn pool_ends(pool: Seq<(int, int)>, dirty: Seq<(int, int)>, n: int, te: int) -> bool {
    forall|i: int|
        0 <= i < pool.len() ==> (#[trigger] pool[i]).1 == te || exists|j: int| 0 <= j < n && dirty[j].0 == pool[i].1
}

proof fn lemma_pool_ends_push(pool: Seq<(int, int)>, q: (int, int), dirty: Seq<(int, int)>, n: int, te: int)
    requires
        pool_ends(pool, dirty, n, te),
        q.1 == te || exists|j: int| 0 <= j < n && dirty[j].0 == q.1,
    ensures
        pool_ends(pool.push(q), dirty, n, te),
{
    assert forall|i: int| 0 <= i < pool.push(q).len() implies (#[trigger] pool.push(q)[i]).1 == te || exists|j: int|
        0 <= j < n && dirty[j].0 == pool.push(q)[i].1 by {
        if i < pool.len() {
            assert(pool.push(q)[i] == pool[i]);
        }
    }
}

/// A segment read from a tier reads a tier of its name whose bucket is at
/// least as long as that of every eligible tier whose bucket fits at the
/// segment's start before the next dirty range (or `te`).
pub open spec fn tier_coarsest(
    seg: (Seq<char>, int, int),
    base: Seq<char>,
    tiers: Seq<(Seq<char>, int)>,
    dirty: Seq<(int, int)>,
    te: int,
    offset: int,
    max_frame_secs: Option<i64>,
) -> bool {
    seg.0 != base ==> exists|k: int|
        0 <= k < tiers.len() && #[trigger] tiers[k].0 == seg.0 && forall|k2: int|
            0 <= k2 < tiers.len() && tier_eligible(#[trigger] tiers[k2].1, max_frame_secs) && bucket_fits(
                seg.1,
                next_cut(seg.1, dirty, te),
                offset,
                tiers[k2].1,
            ) ==> tiers[k2].1 <= tiers[k].1
}

/// Every segment read from a tier reads the coarsest tier that fits.
pub open spec fn all_coarsest(
    v: Seq<(Seq<char>, int, int)>,
    base: Seq<char>,
    tiers: Seq<(Seq<char>, int)>,
    dirty: Seq<(int, int)>,
    te: int,
    offset: int,
    max_frame_secs: Option<i64>,
) -> bool {
    forall|i: int| 0 <= i < v.len() ==> tier_coarsest(#[trigger] v[i], base, tiers, dirty, te, offset, max_frame_secs)
}

proof fn lemma_coarsest_push(
    v: Seq<(Seq<char>, int, int)>,
    x: (Seq<char>, int, int),
    base: Seq<char>,
    tiers: Seq<(Seq<char>, int)>,
    dirty: Seq<(int, int)>,
    te: int,
    offset: int,
    max_frame_secs: Option<i64>,
)
    requires
        all_coarsest(v, base, tiers, dirty, te, offset, max_frame_secs),
        tier_coarsest(x, base, tiers, dirty, te, offset, max_frame_secs),
    ensures
        all_coarsest(v.push(x), base, tiers, dirty, te, offset, max_frame_secs),
{
    assert forall|i: int| 0 <= i < v.push(x).len() implies tier_coarsest(
        #[trigger] v.push(x)[i],
        base,
        tiers,
        dirty,
        te,
        offset,
        max_frame_secs,
    ) by {
        if i < v.len() {
            assert(v.push(x)[i] == v[i]);
        }
    }
}

proof fn lemma_best_max(
    tiers: Seq<(Seq<char>, int)>,
    n: int,
    curr: int,
    end: int,
    offset: int,
    max_frame_secs: Option<i64>,
)
    requires
        0 <= n <= tiers.len(),
        best_tier(tiers, n, curr, end, offset, max_frame_secs) >= 0,
    ensures
        forall|k: int|
            0 <= k < n && tier_eligible(#[trigger] tiers[k].1, max_frame_secs) && bucket_fits(curr, end, offset, tiers[k].1)
                ==> tiers[k].1 <= tiers[best_tier(tiers, n, curr, end, offset, max_frame_secs)].1,
    decreases n,
{
    let b = best_tier(tiers, n - 1, curr, end, offset, max_frame_secs);
    lemma_best_tier_range(tiers, n - 1, curr, end, offset, max_frame_secs);
    if b >= 0 {
        lemma_best_max(tiers, n - 1, curr, end, offset, max_frame_secs);
    } else {
        lemma_best_none(tiers, n - 1, curr, end, offset, max_frame_secs);
    }
}

/// The segments are ordered by start.
pub open spec fn sorted_by_start(v: Seq<(Seq<char>, int, int)>) -> bool {
    forall|i: int| 0 <= i < v.len() - 1 ==> (#[trigger] v[i]).1 <= v[i + 1].1
}

/// No two neighbouring segments touch with the same source.
pub open spec fn merged(v: Seq<(Seq<char>, int, int)>) -> bool {
    forall|i: int| 0 <= i < v.len() - 1 ==> !((#[trigger] v[i]).0 == v[i + 1].0 && v[i].2 == v[i + 1].1)
}

/// 1 when `x` lies in `[s, e)`, else 0.
pub open spec fn covers_at(s: int, e: int, x: int) -> int {
    if s <= x && x < e {
        1
    } else {
        0
    }
}

/// How many of the segments hold the time `x`.
pub open spec fn seg_count(v: Seq<(Seq<char>, int, int)>, x: int) -> int
    decreases v.len(),
{
    if v.len() == 0 {
        0
    } else {
        seg_count(v.drop_last(), x) + covers_at(v.last().1, v.last().2, x)
    }
}

/// How many of the ranges hold the time `x`.
pub open spec fn range_count(v: Seq<(int, int)>, x: int) -> int
    decreases v.len(),
{
    if v.len() == 0 {
        0
    } else {
        range_count(v.drop_last(), x) + covers_at(v.last().0, v.last().1, x)
    }
}

/// Every segment ends after it starts.
pub open spec fn all_nonempty(v: Seq<(Seq<char>, int, int)>) -> bool {
    forall|i: int| 0 <= i < v.len() ==> (#[trigger] v[i]).1 < v[i].2
}

/// Every range ends after it starts.
pub open spec fn ranges_nonempty(v: Seq<(int, int)>) -> bool {
    forall|i: int| 0 <= i < v.len() ==> (#[trigger] v[i]).0 < v[i].1
}

/// The segments tile `[ts, te)`: non-empty, each starting where the one
/// before it ends, the first at `ts` and the last ending at `te`.
pub open spec fn tiles(v: Seq<(Seq<char>, int, int)>, ts: int, te: int) -> bool {
    &&& v.len() > 0
    &&& v[0].1 == ts
    &&& v.last().2 == te
    &&& all_nonempty(v)
    &&& forall|i: int| 0 <= i < v.len() - 1 ==> (#[trigger] v[i]).2 == v[i + 1].1
}

/// A query range that can be tiled: non-empty, with every dirty range
/// non-empty too.
pub open spec fn tileable(ts: int, te: int, dirty: Seq<(int, int)>) -> bool {
    ts < te && ranges_nonempty(dirty)
}

proof fn lemma_seg_count_push(v: Seq<(Seq<char>, int, int)>, y: (Seq<char>, int, int), x: int)
    ensures
        seg_count(v.push(y), x) == seg_count(v, x) + covers_at(y.1, y.2, x),
{
    assert(v.push(y).drop_last() =~= v);
}

proof fn lemma_range_count_push(v: Seq<(int, int)>, y: (int, int), x: int)
    ensures
        range_count(v.push(y), x) == range_count(v, x) + covers_at(y.0, y.1, x),
{
    assert(v.push(y).drop_last() =~= v);
}

proof fn lemma_range_count_take(v: Seq<(int, int)>, i: int, x: int)
    requires
        0 <= i < v.len(),
    ensures
        range_count(v.take(i + 1), x) == range_count(v.take(i), x) + covers_at(v[i].0, v[i].1, x),
{
    assert(v.take(i + 1).drop_last() =~= v.take(i));
}

proof fn lemma_seg_count_insert(v: Seq<(Seq<char>, int, int)>, pos: int, y: (Seq<char>, int, int), x: int)
    requires
        0 <= pos <= v.len(),
    ensures
        seg_count(v.insert(pos, y), x) == seg_count(v, x) + covers_at(y.1, y.2, x),
    decreases v.len(),
{
    if pos == v.len() {
        assert(v.insert(pos, y) =~= v.push(y));
        lemma_seg_count_push(v, y, x);
    } else {
        let w = v.insert(pos, y);
        assert(w.drop_last() =~= v.drop_last().insert(pos, y));
        assert(w.last() == v.last());
        lemma_seg_count_insert(v.drop_last(), pos, y, x);
    }
}

proof fn lemma_seg_count_nonneg(v: Seq<(Seq<char>, int, int)>, x: int)
    ensures
        seg_count(v, x) >= 0,
    decreases v.len(),
{
    if v.len() > 0 {
        lemma_seg_count_nonneg(v.drop_last(), x);
    }
}

proof fn lemma_seg_count_ge(v: Seq<(Seq<char>, int, int)>, i: int, x: int)
    requires
        0 <= i < v.len(),
    ensures
        seg_count(v, x) >= covers_at(v[i].1, v[i].2, x),
    decreases v.len(),
{
    let n = v.len() - 1;
    if i == n {
        lemma_seg_count_nonneg(v.drop_last(), x);
    } else {
        assert(v.drop_last()[i] == v[i]);
        lemma_seg_count_ge(v.drop_last(), i, x);
    }
}

proof fn lemma_seg_count_two(v: Seq<(Seq<char>, int, int)>, i: int, j: int, x: int)
    requires
        0 <= i < v.len(),
        0 <= j < v.len(),
        i != j,
    ensures
        seg_count(v, x) >= covers_at(v[i].1, v[i].2, x) + covers_at(v[j].1, v[j].2, x),
    decreases v.len(),
{
    let n = v.len() - 1;
    let w = v.drop_last();
    if i == n {
        assert(w[j] == v[j]);
        lemma_seg_count_ge(w, j, x);
    } else if j == n {
        assert(w[i] == v[i]);
        lemma_seg_count_ge(w, i, x);
    } else {
        assert(w[i] == v[i] && w[j] == v[j]);
        lemma_seg_count_two(w, i, j, x);
    }
}

proof fn lemma_seg_count_witness(v: Seq<(Seq<char>, int, int)>, x: int) -> (i: int)
    requires
        seg_count(v, x) >= 1,
    ensures
        0 <= i < v.len(),
        covers_at(v[i].1, v[i].2, x) == 1,
    decreases v.len(),
{
    let n = v.len() - 1;
    if covers_at(v[n].1, v[n].2, x) == 1 {
        n
    } else {
        let k = lemma_seg_count_witness(v.drop_last(), x);
        assert(v.drop_last()[k] == v[k]);
        k
    }
}

proof fn lemma_sorted_pairwise(v: Seq<(Seq<char>, int, int)>, i: int, j: int)
    requires
        sorted_by_start(v),
        0 <= i <= j < v.len(),
    ensures
        v[i].1 <= v[j].1,
    decreases j - i,
{
    if i < j {
        lemma_sorted_pairwise(v, i, j - 1);
        assert(v[j - 1].1 <= v[j].1);
    }
}

/// Segments ordered by start that hold each time of `[ts, te)` exactly
/// once and no other time tile that range.
proof fn lemma_count_tiles(v: Seq<(Seq<char>, int, int)>, ts: int, te: int)
    requires
        ts < te,
        sorted_by_start(v),
        all_nonempty(v),
        forall|x: int| #[trigger] seg_count(v, x) == covers_at(ts, te, x),
    ensures
        tiles(v, ts, te),
{
    assert(seg_count(v, ts) == 1);
    let w = lemma_seg_count_witness(v, ts);
    assert(v.len() > 0);
    let n = v.len() - 1;
    // Each segment lies inside the range.
    assert forall|i: int| 0 <= i < v.len() implies ts <= (#[trigger] v[i]).1 && v[i].2 <= te by {
        assert(v[i].1 < v[i].2);
        lemma_seg_count_ge(v, i, v[i].1);
        assert(seg_count(v, v[i].1) == covers_at(ts, te, v[i].1));
        lemma_seg_count_ge(v, i, v[i].2 - 1);
        assert(seg_count(v, v[i].2 - 1) == covers_at(ts, te, v[i].2 - 1));
    }
    // The first segment starts at ts.
    if v[0].1 > ts {
        lemma_sorted_pairwise(v, 0, w);
    }
    // Neighbours touch.
    assert forall|i: int| 0 <= i < v.len() - 1 implies (#[trigger] v[i]).2 == v[i + 1].1 by {
        let e = v[i].2;
        lemma_sorted_pairwise(v, i, i + 1);
        if v[i + 1].1 < e {
            let y = v[i + 1].1;
            assert(v[i + 1].1 < v[i + 1].2);
            lemma_seg_count_two(v, i, i + 1, y);
            assert(seg_count(v, y) == covers_at(ts, te, y));
        } else if v[i + 1].1 > e {
            assert(e < te);
            assert(seg_count(v, e) == covers_at(ts, te, e));
            let j = lemma_seg_count_witness(v, e);
            if j < i {
                lemma_sorted_pairwise(v, j, i);
                lemma_seg_count_two(v, j, i, v[i].1);
                assert(seg_count(v, v[i].1) == covers_at(ts, te, v[i].1));
            } else if j > i {
                lemma_sorted_pairwise(v, i + 1, j);
            }
        }
    }
    // The last segment ends at te.
    let e = v[n].2;
    if e < te {
        assert(seg_count(v, e) == covers_at(ts, te, e));
        let j = lemma_seg_count_witness(v, e);
        if j < n {
            lemma_sorted_pairwise(v, j, n);
            lemma_seg_count_two(v, j, n, v[n].1);
            assert(seg_count(v, v[n].1) == covers_at(ts, te, v[n].1));
        }
    }
}

fn copy_segment(s: &Segment) -> (r: Segment)
    ensures
        seg_view(r) == seg_view(*s),
{
    Segment { source: s.source.clone(), t_start: s.t_start, t_end: s.t_end }
}

proof fn lemma_sorted_insert(v: Seq<(Seq<char>, int, int)>, pos: int, x: (Seq<char>, int, int))
    requires
        sorted_by_start(v),
        0 <= pos <= v.len(),
        forall|i: int| 0 <= i < pos ==> (#[trigger] v[i]).1 < x.1,
        pos < v.len() ==> x.1 <= v[pos].1,
    ensures
        sorted_by_start(v.insert(pos, x)),
{
    let w = v.insert(pos, x);
    assert forall|i: int| 0 <= i < w.len() - 1 implies (#[trigger] w[i]).1 <= w[i + 1].1 by {
        if i + 1 < pos {
            assert(w[i] == v[i] && w[i + 1] == v[i + 1]);
        } else if i + 1 == pos {
            assert(w[i] == v[i] && w[i + 1] == x);
        } else if i == pos {
            assert(w[i] == x && w[i + 1] == v[pos]);
        } else {
            assert(w[i] == v[i - 1] && w[i + 1] == v[i]);
        }
    }
}

/// Orders segments by start, keeping the order of segments that start
/// together.
fn sort_by_start(
    v: Vec<Segment>,
    Ghost(base): Ghost<Seq<char>>,
    Ghost(tv): Ghost<Seq<(Seq<char>, int)>>,
    Ghost(dv): Ghost<Seq<(int, int)>>,
    Ghost(max_frame_secs): Ghost<Option<i64>>,
) -> (r: Vec<Segment>)
    requires
        segs_ok(segs_view(v@), base, tv, dv, max_frame_secs),
    ensures
        r@.len() == v@.len(),
        sorted_by_start(segs_view(r@)),
        forall|offset: int| all_aligned(segs_view(v@), base, tv, offset, max_frame_secs) ==> all_aligned(
            segs_view(r@),
            base,
            tv,
            offset,
            max_frame_secs,
        ),
        forall|te: int, offset: int| all_needed(segs_view(v@), base, tv, dv, te, offset, max_frame_secs) ==> all_needed(
            segs_view(r@),
            base,
            tv,
            dv,
            te,
            offset,
            max_frame_secs,
        ),
        forall|te: int, offset: int| all_coarsest(segs_view(v@), base, tv, dv, te, offset, max_frame_secs) ==> all_coarsest(
            segs_view(r@),
            base,
            tv,
            dv,
            te,
            offset,
            max_frame_secs,
        ),
        segs_ok(segs_view(r@), base, tv, dv, max_frame_secs),
        forall|x: int| #[trigger] seg_count(segs_view(r@), x) == seg_count(segs_view(v@), x),
        all_nonempty(segs_view(v@)) ==> all_nonempty(segs_view(r@)),
{
    let ghost orig = segs_view(v@);
    let n = v.len();
    let mut rest = v;
    let mut out: Vec<Segment> = Vec::new();
    while rest.len() > 0
        invariant
            orig.len() == n,
            rest@.len() + out@.len() == n,
            segs_view(rest@) == orig.take(rest@.len() as int),
            segs_ok(orig, base, tv, dv, max_frame_secs),
            sorted_by_start(segs_view(out@)),
            segs_ok(segs_view(out@), base, tv, dv, max_frame_secs),
            forall|offset: int| all_aligned(orig, base, tv, offset, max_frame_secs) ==> all_aligned(
                segs_view(out@),
                base,
                tv,
                offset,
                max_frame_secs,
            ),
            forall|te: int, offset: int| all_needed(orig, base, tv, dv, te, offset, max_frame_secs) ==> all_needed(
                segs_view(out@),
                base,
                tv,
                dv,
                te,
                offset,
                max_frame_secs,
            ),
            forall|te: int, offset: int| all_coarsest(orig, base, tv, dv, te, offset, max_frame_secs) ==> all_coarsest(
                segs_view(out@),
                base,
                tv,
                dv,
                te,
                offset,
                max_frame_secs,
            ),
            forall|x: int| #[trigger] seg_count(segs_view(out@), x) + seg_count(segs_view(rest@), x) == seg_count(orig, x),
            all_nonempty(orig) ==> all_nonempty(segs_view(out@)),
        decreases rest@.len(),
    {
        let ghost old_rest = rest@;
        let ghost k = rest@.len() - 1;
        let x = rest.pop().unwrap();
        proof {
            assert(segs_view(old_rest)[k] == seg_view(old_rest[k]));
            assert(segs_view(rest@) =~= orig.take(k));
            assert(seg_view(x) == orig[k]);
        }
        let key = x.t_start;
        let mut pos: usize = 0;
        while pos < out.len() && out[pos].t_start < key
            invariant
                pos <= out@.len(),
                forall|i: int| 0 <= i < pos ==> (#[trigger] segs_view(out@)[i]).1 < key,
            decreases out@.len() - pos,
        {
            pos = pos + 1;
        }
        let ghost before = segs_view(out@);
        proof {
            lemma_sorted_insert(before, pos as int, seg_view(x));
        }
        out.insert(pos, x);
        proof {
            assert(segs_view(out@) =~= before.insert(pos as int, seg_view(x)));
            assert forall|y: int| #[trigger] seg_count(segs_view(out@), y) + seg_count(segs_view(rest@), y) == seg_count(orig, y) by {
                lemma_seg_count_insert(before, pos as int, seg_view(x), y);
                assert(orig.take(k + 1).drop_last() =~= orig.take(k));
                assert(orig.take(k + 1) =~= segs_view(old_rest));
            }
            assert forall|offset: int| all_aligned(orig, base, tv, offset, max_frame_secs) implies all_aligned(
                segs_view(out@),
                base,
                tv,
                offset,
                max_frame_secs,
            ) by {
                assert forall|i: int| 0 <= i < segs_view(out@).len() implies tier_aligned(
                    #[trigger] segs_view(out@)[i],
                    base,
                    tv,
                    offset,
                    max_frame_secs,
                ) by {
                    if i < pos {
                        assert(segs_view(out@)[i] == before[i]);
                    } else if i == pos {
                        assert(segs_view(out@)[i] == orig[k]);
                    } else {
                        assert(segs_view(out@)[i] == before[i - 1]);
                    }
                }
            }
            assert forall|te: int, offset: int| all_coarsest(orig, base, tv, dv, te, offset, max_frame_secs) implies all_coarsest(
                segs_view(out@),
                base,
                tv,
                dv,
                te,
                offset,
                max_frame_secs,
            ) by {
                assert forall|i: int| 0 <= i < segs_view(out@).len() implies tier_coarsest(
                    #[trigger] segs_view(out@)[i],
                    base,
                    tv,
                    dv,
                    te,
                    offset,
                    max_frame_secs,
                ) by {
                    if i < pos {
                        assert(segs_view(out@)[i] == before[i]);
                    } else if i == pos {
                        assert(segs_view(out@)[i] == orig[k]);
                    } else {
                        assert(segs_view(out@)[i] == before[i - 1]);
                    }
                }
            }
            assert forall|te: int, offset: int| all_needed(orig, base, tv, dv, te, offset, max_frame_secs) implies all_needed(
                segs_view(out@),
                base,
                tv,
                dv,
                te,
                offset,
                max_frame_secs,
            ) by {
                assert forall|i: int| 0 <= i < segs_view(out@).len() implies base_where_needed(
                    #[trigger] segs_view(out@)[i],
                    base,
                    tv,
                    dv,
                    te,
                    offset,
                    max_frame_secs,
                ) by {
                    if i < pos {
                        assert(segs_view(out@)[i] == before[i]);
                    } else if i == pos {
                        assert(segs_view(out@)[i] == orig[k]);
                    } else {
                        assert(segs_view(out@)[i] == before[i - 1]);
                    }
                }
            }
            if all_nonempty(orig) {
                assert forall|i: int| 0 <= i < segs_view(out@).len() implies (#[trigger] segs_view(out@)[i]).1 < segs_view(out@)[i].2 by {
                    if i < pos {
                        assert(segs_view(out@)[i] == before[i]);
                    } else if i == pos {
                        assert(segs_view(out@)[i] == orig[k]);
                    } else {
                        assert(segs_view(out@)[i] == before[i - 1]);
                    }
                }
            }
            assert forall|i: int| 0 <= i < segs_view(out@).len() implies valid_source(
                (#[trigger] segs_view(out@)[i]).0,
                base,
                tv,
                max_frame_secs,
            ) && fresh(segs_view(out@)[i], base, dv) && bounded_time(segs_view(out@)[i].1)
                && bounded_time(segs_view(out@)[i].2) by {
                if i < pos {
                    assert(segs_view(out@)[i] == before[i]);
                } else if i == pos {
                    assert(segs_view(out@)[i] == orig[k]);
                } else {
                    assert(segs_view(out@)[i] == before[i - 1]);
                }
            }
        }
    }
    proof {
        assert(segs_view(rest@) =~= Seq::<(Seq<char>, int, int)>::empty());
        assert forall|x: int| #[trigger] seg_count(segs_view(out@), x) == seg_count(orig, x) by {
            assert(seg_count(segs_view(rest@), x) == 0);
        }
    }
    out
}

proof fn lemma_join_fresh(a: int, b: int, c: int, d: (int, int))
    requires
        no_overlap((a, b), d),
        no_overlap((b, c), d),
    ensures
        no_overlap((a, c), d),
{
}

/// Joins neighbouring segments that touch and share a source.
fn merge_touching(
    v: &Vec<Segment>,
    Ghost(base): Ghost<Seq<char>>,
    Ghost(tv): Ghost<Seq<(Seq<char>, int)>>,
    Ghost(dv): Ghost<Seq<(int, int)>>,
    Ghost(max_frame_secs): Ghost<Option<i64>>,
    Ghost(offset): Ghost<int>,
    Ghost(te): Ghost<int>,
) -> (r: Vec<Segment>)
    requires
        sorted_by_start(segs_view(v@)),
        segs_ok(segs_view(v@), base, tv, dv, max_frame_secs),
    ensures
        all_coarsest(segs_view(v@), base, tv, dv, te, offset, max_frame_secs) ==> all_coarsest(
            segs_view(r@),
            base,
            tv,
            dv,
            te,
            offset,
            max_frame_secs,
        ),
        all_nonempty(segs_view(v@)) && all_needed(segs_view(v@), base, tv, dv, te, offset, max_frame_secs) ==> all_needed(
            segs_view(r@),
            base,
            tv,
            dv,
            te,
            offset,
            max_frame_secs,
        ),
        names_distinct(tv) && all_aligned(segs_view(v@), base, tv, offset, max_frame_secs) ==> all_aligned(
            segs_view(r@),
            base,
            tv,
            offset,
            max_frame_secs,
        ),
        sorted_by_start(segs_view(r@)),
        merged(segs_view(r@)),
        segs_ok(segs_view(r@), base, tv, dv, max_frame_secs),
        all_nonempty(segs_view(v@)) ==> all_nonempty(segs_view(r@)),
        all_nonempty(segs_view(v@)) ==> forall|x: int| #[trigger] seg_count(segs_view(r@), x) == seg_count(segs_view(v@), x),
{
    let ghost vv = segs_view(v@);
    let n = v.len();
    let mut out: Vec<Segment> = Vec::new();
    let mut i: usize = 0;
    while i < n
        invariant
            n == v@.len(),
            vv == segs_view(v@),
            sorted_by_start(vv),
            segs_ok(vv, base, tv, dv, max_frame_secs),
            i <= n,
            sorted_by_start(segs_view(out@)),
            merged(segs_view(out@)),
            segs_ok(segs_view(out@), base, tv, dv, max_frame_secs),
            names_distinct(tv) && all_aligned(vv, base, tv, offset, max_frame_secs) ==> all_aligned(
                segs_view(out@),
                base,
                tv,
                offset,
                max_frame_secs,
            ),
            all_coarsest(vv, base, tv, dv, te, offset, max_frame_secs) ==> all_coarsest(
                segs_view(out@),
                base,
                tv,
                dv,
                te,
                offset,
                max_frame_secs,
            ),
            all_nonempty(vv) && all_needed(vv, base, tv, dv, te, offset, max_frame_secs) ==> all_needed(
                segs_view(out@),
                base,
                tv,
                dv,
                te,
                offset,
                max_frame_secs,
            ),
            out@.len() > 0 ==> i > 0 && segs_view(out@).last().1 <= vv[i - 1].1,
            all_nonempty(vv) ==> all_nonempty(segs_view(out@)),
            all_nonempty(vv) ==> forall|x: int| #[trigger] seg_count(segs_view(out@), x) == seg_count(vv.take(i as int), x),
        decreases n - i,
    {
        let seg = copy_segment(&v[i]);
        proof {
            assert(seg_view(seg) == vv[i as int]);
        }
        let len = out.len();
        let ghost before = segs_view(out@);
        let join = len > 0 && out[len - 1].source == seg.source && out[len - 1].t_end == seg.t_start;
        if join {
            let mut last = out.pop().unwrap();
            proof {
                assert(seg_view(last) == before[len - 1]);
            }
            last.t_end = seg.t_end;
            out.push(last);
            proof {
                assert(segs_view(out@) =~= before.update(len - 1, seg_view(last)));
                if all_nonempty(vv) {
                    assert(before.update(len - 1, seg_view(last)) =~= before.drop_last().push(seg_view(last)));
                    assert(before[len - 1].1 < before[len - 1].2);
                    assert(vv[i as int].1 < vv[i as int].2);
                    assert forall|x: int| #[trigger] seg_count(segs_view(out@), x) == seg_count(vv.take(i + 1), x) by {
                        lemma_seg_count_push(before.drop_last(), seg_view(last), x);
                        assert(before.drop_last().push(before[len - 1]) =~= before);
                        lemma_seg_count_push(before.drop_last(), before[len - 1], x);
                        assert(vv.take(i + 1).drop_last() =~= vv.take(i as int));
                    }
                    assert forall|p: int| 0 <= p < segs_view(out@).len() implies (#[trigger] segs_view(out@)[p]).1 < segs_view(out@)[p].2 by {
                        if p < len - 1 {
                            assert(segs_view(out@)[p] == before[p]);
                        }
                    }
                }
                assert forall|j: int| 0 <= j < dv.len() && seg_view(last).0 != base implies no_overlap(
                    (seg_view(last).1, seg_view(last).2),
                    #[trigger] dv[j],
                ) by {
                    assert(fresh(before[len - 1], base, dv));
                    assert(fresh(vv[i as int], base, dv));
                    lemma_join_fresh(before[len - 1].1, before[len - 1].2, vv[i as int].2, dv[j]);
                }
                assert(fresh(seg_view(last), base, dv));
                if names_distinct(tv) && all_aligned(vv, base, tv, offset, max_frame_secs) {
                    assert(tier_aligned(before[len - 1], base, tv, offset, max_frame_secs));
                    assert(tier_aligned(vv[i as int], base, tv, offset, max_frame_secs));
                    if seg_view(last).0 != base {
                        let k1 = choose|k: int|
                            0 <= k < tv.len() && tier_eligible(tv[k].1, max_frame_secs) && #[trigger] tv[k].0 == before[len - 1].0
                                && aligned_span(before[len - 1].1, before[len - 1].2, offset, tv[k].1);
                        let k2 = choose|k: int|
                            0 <= k < tv.len() && tier_eligible(tv[k].1, max_frame_secs) && #[trigger] tv[k].0 == vv[i as int].0
                                && aligned_span(vv[i as int].1, vv[i as int].2, offset, tv[k].1);
                        assert(k1 == k2);
                        let f = tv[k1].1;
                        lemma_mod_sum_zero(before[len - 1].2 - before[len - 1].1, vv[i as int].2 - vv[i as int].1, f);
                        assert(aligned_span(seg_view(last).1, seg_view(last).2, offset, f));
                        assert(tv[k1].0 == seg_view(last).0);
                    }
                    assert(tier_aligned(seg_view(last), base, tv, offset, max_frame_secs));
                    assert forall|p: int| 0 <= p < segs_view(out@).len() implies tier_aligned(
                        #[trigger] segs_view(out@)[p],
                        base,
                        tv,
                        offset,
                        max_frame_secs,
                    ) by {
                        if p < len - 1 {
                            assert(segs_view(out@)[p] == before[p]);
                        }
                    }
                }
                assert forall|p: int| 0 <= p < segs_view(out@).len() implies valid_source(
                    (#[trigger] segs_view(out@)[p]).0,
                    base,
                    tv,
                    max_frame_secs,
                ) && fresh(segs_view(out@)[p], base, dv) && bounded_time(segs_view(out@)[p].1)
                    && bounded_time(segs_view(out@)[p].2) by {
                    if p < len - 1 {
                        assert(segs_view(out@)[p] == before[p]);
                    }
                }
                if all_coarsest(vv, base, tv, dv, te, offset, max_frame_secs) {
                    assert(tier_coarsest(before[len - 1], base, tv, dv, te, offset, max_frame_secs));
                    assert(tier_coarsest(seg_view(last), base, tv, dv, te, offset, max_frame_secs));
                    assert forall|p: int| 0 <= p < segs_view(out@).len() implies tier_coarsest(
                        #[trigger] segs_view(out@)[p],
                        base,
                        tv,
                        dv,
                        te,
                        offset,
                        max_frame_secs,
                    ) by {
                        if p < len - 1 {
                            assert(segs_view(out@)[p] == before[p]);
                        }
                    }
                }
                if all_nonempty(vv) && all_needed(vv, base, tv, dv, te, offset, max_frame_secs) {
                    assert(base_where_needed(before[len - 1], base, tv, dv, te, offset, max_frame_secs));
                    assert(vv[i as int].1 < vv[i as int].2);
                    if seg_view(last).0 == base && forall|j: int|
                        0 <= j < dv.len() ==> no_overlap((seg_view(last).1, seg_view(last).2), #[trigger] dv[j]) {
                        assert forall|j: int| 0 <= j < dv.len() implies no_overlap(
                            (before[len - 1].1, before[len - 1].2),
                            #[trigger] dv[j],
                        ) by {
                            assert(no_overlap((seg_view(last).1, seg_view(last).2), dv[j]));
                        }
                    }
                    assert(base_where_needed(seg_view(last), base, tv, dv, te, offset, max_frame_secs));
                    assert forall|p: int| 0 <= p < segs_view(out@).len() implies base_where_needed(
                        #[trigger] segs_view(out@)[p],
                        base,
                        tv,
                        dv,
                        te,
                        offset,
                        max_frame_secs,
                    ) by {
                        if p < len - 1 {
                            assert(segs_view(out@)[p] == before[p]);
                        }
                    }
                }
                assert forall|p: int| 0 <= p < segs_view(out@).len() - 1 implies (#[trigger] segs_view(out@)[p]).1
                    <= segs_view(out@)[p + 1].1 by {
                    assert(before[p].1 <= before[p + 1].1);
                }
                assert forall|p: int| 0 <= p < segs_view(out@).len() - 1 implies !((#[trigger] segs_view(out@)[p]).0
                    == segs_view(out@)[p + 1].0 && segs_view(out@)[p].2 == segs_view(out@)[p + 1].1) by {
                    assert(!(before[p].0 == before[p + 1].0 && before[p].2 == before[p + 1].1));
                }
            }
        } else {
            out.push(seg);
            proof {
                assert(segs_view(out@) =~= before.push(seg_view(seg)));
                lemma_segs_push(before, seg_view(seg), base, tv, dv, max_frame_secs);
                if names_distinct(tv) && all_aligned(vv, base, tv, offset, max_frame_secs) {
                    assert(tier_aligned(vv[i as int], base, tv, offset, max_frame_secs));
                    lemma_aligned_push(before, seg_view(seg), base, tv, offset, max_frame_secs);
                }
                if all_coarsest(vv, base, tv, dv, te, offset, max_frame_secs) {
                    assert(tier_coarsest(vv[i as int], base, tv, dv, te, offset, max_frame_secs));
                    lemma_coarsest_push(before, seg_view(seg), base, tv, dv, te, offset, max_frame_secs);
                }
                if all_nonempty(vv) && all_needed(vv, base, tv, dv, te, offset, max_frame_secs) {
                    assert(base_where_needed(vv[i as int], base, tv, dv, te, offset, max_frame_secs));
                    lemma_needed_push(before, seg_view(seg), base, tv, dv, te, offset, max_frame_secs);
                }
                if all_nonempty(vv) {
                    assert forall|x: int| #[trigger] seg_count(segs_view(out@), x) == seg_count(vv.take(i + 1), x) by {
                        lemma_seg_count_push(before, seg_view(seg), x);
                        assert(vv.take(i + 1).drop_last() =~= vv.take(i as int));
                    }
                    assert forall|p: int| 0 <= p < segs_view(out@).len() implies (#[trigger] segs_view(out@)[p]).1 < segs_view(out@)[p].2 by {
                        if p < len {
                            assert(segs_view(out@)[p] == before[p]);
                        }
                    }
                }
                if len > 0 {
                    assert(vv[i - 1].1 <= vv[i as int].1);
                }
                assert forall|p: int| 0 <= p < segs_view(out@).len() - 1 implies (#[trigger] segs_view(out@)[p]).1
                    <= segs_view(out@)[p + 1].1 by {
                    if p < len - 1 {
                        assert(before[p].1 <= before[p + 1].1);
                    }
                }
                assert forall|p: int| 0 <= p < segs_view(out@).len() - 1 implies !((#[trigger] segs_view(out@)[p]).0
                    == segs_view(out@)[p + 1].0 && segs_view(out@)[p].2 == segs_view(out@)[p + 1].1) by {
                    if p < len - 1 {
                        assert(!(before[p].0 == before[p + 1].0 && before[p].2 == before[p + 1].1));
                    }
                }
            }
        }
        i = i + 1;
    }
    proof {
        assert(vv.take(n as int) =~= vv);
    }
    out
}

fn base_segment(base_table: &str, t_start: i64, t_end: i64) -> (s: Segment)
    ensures
        seg_view(s) == (base_table@, t_start as int, t_end as int),
{
    Segment { source: base_table.to_owned(), t_start, t_end }
}

/// Slices `[ts, te)` into segments. The ranges the changelog marks dirty
/// are cut out of the range and read from the base table; each remaining
/// clean piece is walked from its start, taking at each point the largest
/// eligible tier bucket (aligned to `-offset_seconds`) that starts there
/// and ends within the piece, or else reading the base table up to the next
/// boundary of the smallest eligible bucket (60 seconds without tiers). The
/// segments come out ordered by start, with touching segments of the same
/// source joined. When the range and every dirty range are non-empty, the
/// segments tile the range: each time of `[ts, te)` is read from exactly
/// one segment, and a base-table segment outside the dirty ranges starts
/// only where no eligible tier bucket fits before the next dirty range (or
/// `te`), provided no tier bears the base table's name. Every tier segment
/// reads a tier whose bucket is at least as long as that of any eligible
/// tier fitting at its start before the next dirty range (or `te`); with
/// distinctly named tiers it starts on a bucket boundary of that tier
/// (shifted by `offset_seconds`) and covers whole buckets.
///
/// `tiers` are the rollup tiers worth reading (those with markedly fewer
/// rows than the base table); a tier is eligible when its bucket is
/// positive and, with `max_frame_secs`, at most that long.
pub fn resolve_segments(
    base_table: &str,
    ts: i64,
    te: i64,
    tiers: &Vec<Tier>,
    dirty: &Vec<(i64, i64)>,
    offset_seconds: i64,
    max_frame_secs: Option<i64>,
) -> (r: Vec<Segment>)
    requires
        bounded_time(ts as int),
        bounded_time(te as int),
        bounded_time(offset_seconds as int),
        forall|j: int| 0 <= j < dirty@.len() ==> bounded_time((#[trigger] dirty@[j]).0 as int) && bounded_time(dirty@[j].1 as int),
    ensures
        segs_ok(segs_view(r@), base_table@, tiers_view(tiers@), ranges_view(dirty@), max_frame_secs),
        forall|i: int| 0 <= i < r@.len() - 1 ==> (#[trigger] r@[i]).t_start <= r@[i + 1].t_start,
        forall|i: int| 0 <= i < r@.len() - 1 ==> !((#[trigger] r@[i]).source@ == r@[i + 1].source@
            && r@[i].t_end == r@[i + 1].t_start),
        tileable(ts as int, te as int, ranges_view(dirty@)) ==> tiles(segs_view(r@), ts as int, te as int),
        tileable(ts as int, te as int, ranges_view(dirty@)) && base_not_tier(base_table@, tiers_view(tiers@)) ==> all_needed(
            segs_view(r@),
            base_table@,
            tiers_view(tiers@),
            ranges_view(dirty@),
            te as int,
            offset_seconds as int,
            max_frame_secs,
        ),
        all_coarsest(
            segs_view(r@),
            base_table@,
            tiers_view(tiers@),
            ranges_view(dirty@),
            te as int,
            offset_seconds as int,
            max_frame_secs,
        ),
        names_distinct(tiers_view(tiers@)) ==> all_aligned(
            segs_view(r@),
            base_table@,
            tiers_view(tiers@),
            offset_seconds as int,
            max_frame_secs,
        ),
{
    let ghost base = base_table@;
    let ghost tv = tiers_view(tiers@);
    let ghost dv = ranges_view(dirty@);
    let ghost ok = tileable(ts as int, te as int, dv);
    let mut segments: Vec<Segment> = Vec::new();
    let mut pool: Vec<(i64, i64)> = Vec::new();
    pool.push((ts, te));
    let nd = dirty.len();
    let mut di: usize = 0;
    proof {
        assert(pool_ok(ranges_view(pool@), dv, 0));
        assert(ranges_view(pool@) =~= Seq::<(int, int)>::empty().push((ts as int, te as int)));
        assert forall|x: int| #[trigger] seg_count(segs_view(segments@), x) + range_count(ranges_view(pool@), x)
            == covers_at(ts as int, te as int, x) by {
            lemma_range_count_push(Seq::<(int, int)>::empty(), (ts as int, te as int), x);
            assert(segs_view(segments@).len() == 0);
        }
        assert(all_nonempty(segs_view(segments@)));
    }
    while di < nd
        invariant
            nd == dirty@.len(),
            dv == ranges_view(dirty@),
            base == base_table@,
            tv == tiers_view(tiers@),
            di <= nd,
            forall|j: int| 0 <= j < dirty@.len() ==> bounded_time((#[trigger] dirty@[j]).0 as int) && bounded_time(dirty@[j].1 as int),
            pool_ok(ranges_view(pool@), dv, di as int),
            segs_ok(segs_view(segments@), base, tv, dv, max_frame_secs),
            all_aligned(segs_view(segments@), base, tv, offset_seconds as int, max_frame_secs),
            pool_ends(ranges_view(pool@), dv, di as int, te as int),
            all_coarsest(segs_view(segments@), base, tv, dv, te as int, offset_seconds as int, max_frame_secs),
            ok && base_not_tier(base, tv) ==> all_needed(segs_view(segments@), base, tv, dv, te as int, offset_seconds as int, max_frame_secs),
            ok == tileable(ts as int, te as int, dv),
            ok ==> ranges_nonempty(ranges_view(pool@)),
            ok ==> all_nonempty(segs_view(segments@)),
            ok ==> forall|x: int| #[trigger] seg_count(segs_view(segments@), x) + range_count(ranges_view(pool@), x)
                == covers_at(ts as int, te as int, x),
        decreases nd - di,
    {
        let (d_s, d_e) = dirty[di];
        proof {
            assert(dv[di as int] == (d_s as int, d_e as int));
            if ok {
                assert(dv[di as int].0 < dv[di as int].1);
            }
        }
        let mut new_pool: Vec<(i64, i64)> = Vec::new();
        let np = pool.len();
        let mut pi: usize = 0;
        while pi < np
            invariant
                np == pool@.len(),
                nd == dirty@.len(),
                dv == ranges_view(dirty@),
                base == base_table@,
                tv == tiers_view(tiers@),
                di < nd,
                dv[di as int] == (d_s as int, d_e as int),
                bounded_time(d_s as int),
                bounded_time(d_e as int),
                pi <= np,
                pool_ok(ranges_view(pool@), dv, di as int),
                pool_ok(ranges_view(new_pool@), dv, di + 1),
                segs_ok(segs_view(segments@), base, tv, dv, max_frame_secs),
                all_aligned(segs_view(segments@), base, tv, offset_seconds as int, max_frame_secs),
                pool_ends(ranges_view(pool@), dv, di as int, te as int),
                pool_ends(ranges_view(new_pool@), dv, di + 1, te as int),
                all_coarsest(segs_view(segments@), base, tv, dv, te as int, offset_seconds as int, max_frame_secs),
                ok && base_not_tier(base, tv) ==> all_needed(segs_view(segments@), base, tv, dv, te as int, offset_seconds as int, max_frame_secs),
                ok ==> d_s < d_e,
                ok ==> ranges_nonempty(ranges_view(pool@)),
                ok ==> ranges_nonempty(ranges_view(new_pool@)),
                ok ==> all_nonempty(segs_view(segments@)),
                ok ==> forall|x: int| #[trigger] seg_count(segs_view(segments@), x) + range_count(ranges_view(new_pool@), x)
                    + range_count(ranges_view(pool@), x) - range_count(ranges_view(pool@).take(pi as int), x)
                    == covers_at(ts as int, te as int, x),
            decreases np - pi,
        {
            let (p_s, p_e) = pool[pi];
            let ghost pv = ranges_view(pool@);
            let ghost n0 = ranges_view(new_pool@);
            let ghost s0 = segs_view(segments@);
            proof {
                assert(pv[pi as int] == (p_s as int, p_e as int));
                if ok {
                    assert(p_s < p_e);
                }
            }
            if d_e <= p_s || d_s >= p_e {
                proof {
                    assert(ranges_view(new_pool@.push((p_s, p_e))) =~= ranges_view(new_pool@).push((p_s as int, p_e as int)));
                    lemma_pool_push(ranges_view(new_pool@), (p_s as int, p_e as int), dv, di + 1);
                    assert(pv[pi as int].1 == te || exists|j: int| 0 <= j < di && dv[j].0 == pv[pi as int].1);
                    lemma_pool_ends_push(ranges_view(new_pool@), (p_s as int, p_e as int), dv, di + 1, te as int);
                }
                new_pool.push((p_s, p_e));
                proof {
                    if ok {
                        assert forall|x: int| #[trigger] seg_count(segs_view(segments@), x) + range_count(ranges_view(new_pool@), x)
                            + range_count(pv, x) - range_count(pv.take(pi + 1), x)
                            == covers_at(ts as int, te as int, x) by {
                            lemma_range_count_push(n0, (p_s as int, p_e as int), x);
                            lemma_range_count_take(pv, pi as int, x);
                        }
                        assert forall|i: int| 0 <= i < ranges_view(new_pool@).len() implies (#[trigger] ranges_view(new_pool@)[i]).0
                            < ranges_view(new_pool@)[i].1 by {
                            if i < n0.len() {
                                assert(ranges_view(new_pool@)[i] == n0[i]);
                            }
                        }
                    }
                }
            } else {
                proof {
                    assert forall|j: int| 0 <= j < di implies no_overlap((p_s as int, p_e as int), #[trigger] dv[j]) by {}
                }
                if d_s > p_s {
                    proof {
                        assert(ranges_view(new_pool@.push((p_s, d_s))) =~= ranges_view(new_pool@).push((p_s as int, d_s as int)));
                        assert forall|j: int| 0 <= j < di + 1 implies no_overlap((p_s as int, d_s as int), #[trigger] dv[j]) by {
                            if j < di {
                                assert(no_overlap((p_s as int, p_e as int), dv[j]));
                            }
                        }
                        lemma_pool_push(ranges_view(new_pool@), (p_s as int, d_s as int), dv, di + 1);
                        assert(dv[di as int].0 == d_s);
                        lemma_pool_ends_push(ranges_view(new_pool@), (p_s as int, d_s as int), dv, di + 1, te as int);
                    }
                    new_pool.push((p_s, d_s));
                }
                if d_e < p_e {
                    proof {
                        assert(ranges_view(new_pool@.push((d_e, p_e))) =~= ranges_view(new_pool@).push((d_e as int, p_e as int)));
                        assert forall|j: int| 0 <= j < di + 1 implies no_overlap((d_e as int, p_e as int), #[trigger] dv[j]) by {
                            if j < di {
                                assert(no_overlap((p_s as int, p_e as int), dv[j]));
                            }
                        }
                        lemma_pool_push(ranges_view(new_pool@), (d_e as int, p_e as int), dv, di + 1);
                        assert(pv[pi as int].1 == te || exists|j: int| 0 <= j < di && dv[j].0 == pv[pi as int].1);
                        lemma_pool_ends_push(ranges_view(new_pool@), (d_e as int, p_e as int), dv, di + 1, te as int);
                    }
                    new_pool.push((d_e, p_e));
                }
                let lo = if p_s > d_s {
                    p_s
                } else {
                    d_s
                };
                let hi = if p_e < d_e {
                    p_e
                } else {
                    d_e
                };
                let seg = base_segment(base_table, lo, hi);
                proof {
                    assert(segs_view(segments@.push(seg)) =~= segs_view(segments@).push(seg_view(seg)));
                    lemma_segs_push(segs_view(segments@), seg_view(seg), base, tv, dv, max_frame_secs);
                    lemma_aligned_push(segs_view(segments@), seg_view(seg), base, tv, offset_seconds as int, max_frame_secs);
                    lemma_coarsest_push(segs_view(segments@), seg_view(seg), base, tv, dv, te as int, offset_seconds as int, max_frame_secs);
                    if ok && base_not_tier(base, tv) {
                        assert(!no_overlap((lo as int, hi as int), dv[di as int]));
                        assert(base_where_needed(seg_view(seg), base, tv, dv, te as int, offset_seconds as int, max_frame_secs));
                        lemma_needed_push(segs_view(segments@), seg_view(seg), base, tv, dv, te as int, offset_seconds as int, max_frame_secs);
                    }
                }
                segments.push(seg);
                proof {
                    if ok {
                        let lcov = |x: int| if d_s > p_s { covers_at(p_s as int, d_s as int, x) } else { 0 };
                        let rcov = |x: int| if d_e < p_e { covers_at(d_e as int, p_e as int, x) } else { 0 };
                        assert forall|x: int| #[trigger] range_count(ranges_view(new_pool@), x) == range_count(n0, x) + lcov(x)
                            + rcov(x) by {
                            if d_s > p_s {
                                lemma_range_count_push(n0, (p_s as int, d_s as int), x);
                                if d_e < p_e {
                                    lemma_range_count_push(n0.push((p_s as int, d_s as int)), (d_e as int, p_e as int), x);
                                }
                            } else if d_e < p_e {
                                lemma_range_count_push(n0, (d_e as int, p_e as int), x);
                            }
                        }
                        assert forall|x: int| #[trigger] seg_count(segs_view(segments@), x) + range_count(ranges_view(new_pool@), x)
                            + range_count(pv, x) - range_count(pv.take(pi + 1), x)
                            == covers_at(ts as int, te as int, x) by {
                            lemma_seg_count_push(s0, seg_view(seg), x);
                            lemma_range_count_take(pv, pi as int, x);
                            assert(range_count(ranges_view(new_pool@), x) == range_count(n0, x) + lcov(x) + rcov(x));
                        }
                        assert forall|i: int| 0 <= i < ranges_view(new_pool@).len() implies (#[trigger] ranges_view(new_pool@)[i]).0
                            < ranges_view(new_pool@)[i].1 by {
                            if i < n0.len() {
                                assert(ranges_view(new_pool@)[i] == n0[i]);
                            }
                        }
                        assert forall|i: int| 0 <= i < segs_view(segments@).len() implies (#[trigger] segs_view(segments@)[i]).1
                            < segs_view(segments@)[i].2 by {
                            if i < s0.len() {
                                assert(segs_view(segments@)[i] == s0[i]);
                            }
                        }
                    }
                }
            }
            pi = pi + 1;
        }
        proof {
            assert(ranges_view(pool@).take(np as int) =~= ranges_view(pool@));
        }
        pool = new_pool;
        di = di + 1;
    }
    let fallback = smallest_frame(tiers, max_frame_secs);
    let npool = pool.len();
    let mut ci: usize = 0;
    while ci < npool
        invariant
            npool == pool@.len(),
            nd == dirty@.len(),
            dv == ranges_view(dirty@),
            base == base_table@,
            tv == tiers_view(tiers@),
            tv.len() == tiers@.len(),
            ci <= npool,
            0 < fallback <= i32::MAX,
            bounded_time(offset_seconds as int),
            pool_ok(ranges_view(pool@), dv, nd as int),
            segs_ok(segs_view(segments@), base, tv, dv, max_frame_secs),
            all_aligned(segs_view(segments@), base, tv, offset_seconds as int, max_frame_secs),
            pool_ends(ranges_view(pool@), dv, nd as int, te as int),
            all_coarsest(segs_view(segments@), base, tv, dv, te as int, offset_seconds as int, max_frame_secs),
            ok && base_not_tier(base, tv) ==> all_needed(segs_view(segments@), base, tv, dv, te as int, offset_seconds as int, max_frame_secs),
            ok ==> ranges_nonempty(ranges_view(pool@)),
            ok ==> all_nonempty(segs_view(segments@)),
            ok ==> forall|x: int| #[trigger] seg_count(segs_view(segments@), x) + range_count(ranges_view(pool@), x)
                - range_count(ranges_view(pool@).take(ci as int), x) == covers_at(ts as int, te as int, x),
        decreases npool - ci,
    {
        let (clean_s, clean_e) = pool[ci];
        let ghost pv = ranges_view(pool@);
        proof {
            assert(pv[ci as int] == (clean_s as int, clean_e as int));
            assert(pv[ci as int].1 == te || exists|j: int| 0 <= j < nd && dv[j].0 == pv[ci as int].1);
            if ok {
                assert(clean_s < clean_e);
                assert forall|x: int| #[trigger] seg_count(segs_view(segments@), x) + covers_at(clean_s as int, clean_e as int, x)
                    + range_count(pv, x) - range_count(pv.take(ci + 1), x) == covers_at(ts as int, te as int, x) by {
                    lemma_range_count_take(pv, ci as int, x);
                }
            }
        }
        let mut curr = clean_s;
        while curr < clean_e
            invariant
                nd == dirty@.len(),
                dv == ranges_view(dirty@),
                base == base_table@,
                tv == tiers_view(tiers@),
                tv.len() == tiers@.len(),
                0 < fallback <= i32::MAX,
                bounded_time(offset_seconds as int),
                bounded_time(clean_s as int),
                bounded_time(clean_e as int),
                clean_s <= curr,
                curr <= clean_e || curr == clean_s,
                forall|j: int| 0 <= j < nd ==> no_overlap((clean_s as int, clean_e as int), #[trigger] dv[j]),
                segs_ok(segs_view(segments@), base, tv, dv, max_frame_secs),
                all_aligned(segs_view(segments@), base, tv, offset_seconds as int, max_frame_secs),
                clean_e == te || exists|j: int| 0 <= j < nd && dv[j].0 == clean_e,
                all_coarsest(segs_view(segments@), base, tv, dv, te as int, offset_seconds as int, max_frame_secs),
                ok && base_not_tier(base, tv) ==> all_needed(segs_view(segments@), base, tv, dv, te as int, offset_seconds as int, max_frame_secs),
                pv == ranges_view(pool@),
                ci < npool,
                ok ==> clean_s < clean_e,
                ok ==> all_nonempty(segs_view(segments@)),
                ok ==> forall|x: int| #[trigger] seg_count(segs_view(segments@), x) + covers_at(curr as int, clean_e as int, x)
                    + range_count(pv, x) - range_count(pv.take(ci + 1), x) == covers_at(ts as int, te as int, x),
            decreases clean_e - curr,
        {
            let ghost s0 = segs_view(segments@);
            match pick_tier(tiers, curr, clean_e, offset_seconds, max_frame_secs) {
                Some(k) => {
                    proof {
                        lemma_best_tier_range(tv, tv.len() as int, curr as int, clean_e as int, offset_seconds as int, max_frame_secs);
                        assert(tv[k as int] == (tiers@[k as int].name@, tiers@[k as int].frame_seconds as int));
                    }
                    let f = tiers[k].frame_seconds as i64;
                    let bucket_end = curr + f;
                    let seg = Segment { source: tiers[k].name.clone(), t_start: curr, t_end: bucket_end };
                    proof {
                        assert(tv[k as int].0 == seg.source@);
                        assert(tier_eligible(tv[k as int].1, max_frame_secs));
                        assert(valid_source(seg.source@, base, tv, max_frame_secs));
                        assert forall|j: int| 0 <= j < dv.len() implies no_overlap((curr as int, bucket_end as int), #[trigger] dv[j]) by {
                            assert(no_overlap((clean_s as int, clean_e as int), dv[j]));
                        }
                        assert(segs_view(segments@.push(seg)) =~= segs_view(segments@).push(seg_view(seg)));
                        lemma_segs_push(segs_view(segments@), seg_view(seg), base, tv, dv, max_frame_secs);
                        lemma_bucket_aligned(curr as int, offset_seconds as int, f as int);
                        assert(tier_aligned(seg_view(seg), base, tv, offset_seconds as int, max_frame_secs));
                        lemma_aligned_push(segs_view(segments@), seg_view(seg), base, tv, offset_seconds as int, max_frame_secs);
                        lemma_best_max(tv, tv.len() as int, curr as int, clean_e as int, offset_seconds as int, max_frame_secs);
                        if clean_e == te {
                            lemma_next_cut_le(curr as int, dv, te as int, -1);
                        } else {
                            let j = choose|j: int| 0 <= j < nd && dv[j].0 == clean_e;
                            lemma_next_cut_le(curr as int, dv, te as int, j);
                        }
                        assert(tier_coarsest(seg_view(seg), base, tv, dv, te as int, offset_seconds as int, max_frame_secs));
                        lemma_coarsest_push(segs_view(segments@), seg_view(seg), base, tv, dv, te as int, offset_seconds as int, max_frame_secs);
                        if ok && base_not_tier(base, tv) {
                            assert(tv[k as int].0 != base);
                            lemma_needed_push(segs_view(segments@), seg_view(seg), base, tv, dv, te as int, offset_seconds as int, max_frame_secs);
                        }
                    }
                    segments.push(seg);
                    proof {
                        if ok {
                            assert(f > 0);
                            assert forall|x: int| #[trigger] seg_count(segs_view(segments@), x) + covers_at(bucket_end as int, clean_e as int, x)
                                + range_count(pv, x) - range_count(pv.take(ci + 1), x) == covers_at(ts as int, te as int, x) by {
                                lemma_seg_count_push(s0, seg_view(seg), x);
                                assert(seg_count(s0, x) + covers_at(curr as int, clean_e as int, x)
                                    + range_count(pv, x) - range_count(pv.take(ci + 1), x) == covers_at(ts as int, te as int, x));
                            }
                            assert forall|i: int| 0 <= i < segs_view(segments@).len() implies (#[trigger] segs_view(segments@)[i]).1
                                < segs_view(segments@)[i].2 by {
                                if i < s0.len() {
                                    assert(segs_view(segments@)[i] == s0[i]);
                                }
                            }
                        }
                    }
                    curr = bucket_end;
                },
                None => {
                    let (q, _) = crate::catalog::div_trunc(curr + offset_seconds + fallback, fallback);
                    proof {
                        lemma_next_boundary(curr + offset_seconds, fallback as int);
                        assert(crate::catalog::abs(curr + offset_seconds + fallback) / (fallback as int)
                            <= crate::catalog::abs(curr + offset_seconds + fallback)) by {
                            vstd::arithmetic::div_mod::lemma_div_is_ordered_by_denominator(
                                crate::catalog::abs(curr + offset_seconds + fallback),
                                1,
                                fallback as int,
                            );
                        }
                        assert(q * fallback <= 3 * time_bound() + 2 * fallback) by (nonlinear_arith)
                            requires
                                q == trunc_div(curr + offset_seconds + fallback, fallback as int),
                                -3 * time_bound() <= curr + offset_seconds + fallback <= 3 * time_bound(),
                                0 < fallback,
                        {
                            vstd::arithmetic::div_mod::lemma_fundamental_div_mod(
                                crate::catalog::abs(curr + offset_seconds + fallback),
                                fallback as int,
                            );
                        }
                    }
                    let next_boundary = q * fallback - offset_seconds;
                    let segment_end = if clean_e < next_boundary {
                        clean_e
                    } else {
                        next_boundary
                    };
                    let seg = base_segment(base_table, curr, segment_end);
                    proof {
                        assert(segs_view(segments@.push(seg)) =~= segs_view(segments@).push(seg_view(seg)));
                        lemma_segs_push(segs_view(segments@), seg_view(seg), base, tv, dv, max_frame_secs);
                        lemma_aligned_push(segs_view(segments@), seg_view(seg), base, tv, offset_seconds as int, max_frame_secs);
                        lemma_coarsest_push(segs_view(segments@), seg_view(seg), base, tv, dv, te as int, offset_seconds as int, max_frame_secs);
                        if ok && base_not_tier(base, tv) {
                            lemma_best_none(tv, tv.len() as int, curr as int, clean_e as int, offset_seconds as int, max_frame_secs);
                            if clean_e == te {
                                lemma_next_cut_le(curr as int, dv, te as int, -1);
                            } else {
                                let j = choose|j: int| 0 <= j < nd && dv[j].0 == clean_e;
                                lemma_next_cut_le(curr as int, dv, te as int, j);
                            }
                            assert(no_tier_fits(tv, curr as int, next_cut(curr as int, dv, te as int), offset_seconds as int, max_frame_secs));
                            lemma_needed_push(segs_view(segments@), seg_view(seg), base, tv, dv, te as int, offset_seconds as int, max_frame_secs);
                        }
                    }
                    segments.push(seg);
                    proof {
                        if ok {
                            assert(curr < segment_end);
                            assert forall|x: int| #[trigger] seg_count(segs_view(segments@), x) + covers_at(segment_end as int, clean_e as int, x)
                                + range_count(pv, x) - range_count(pv.take(ci + 1), x) == covers_at(ts as int, te as int, x) by {
                                lemma_seg_count_push(s0, seg_view(seg), x);
                                assert(seg_count(s0, x) + covers_at(curr as int, clean_e as int, x)
                                    + range_count(pv, x) - range_count(pv.take(ci + 1), x) == covers_at(ts as int, te as int, x));
                            }
                            assert forall|i: int| 0 <= i < segs_view(segments@).len() implies (#[trigger] segs_view(segments@)[i]).1
                                < segs_view(segments@)[i].2 by {
                                if i < s0.len() {
                                    assert(segs_view(segments@)[i] == s0[i]);
                                }
                            }
                        }
                    }
                    curr = segment_end;
                },
            }
        }
        proof {
            if ok {
                assert forall|x: int| #[trigger] seg_count(segs_view(segments@), x) + range_count(pv, x)
                    - range_count(pv.take(ci + 1), x) == covers_at(ts as int, te as int, x) by {
                    assert(seg_count(segs_view(segments@), x) + covers_at(curr as int, clean_e as int, x)
                        + range_count(pv, x) - range_count(pv.take(ci + 1), x) == covers_at(ts as int, te as int, x));
                }
            }
        }
        ci = ci + 1;
    }
    proof {
        assert(ranges_view(pool@).take(npool as int) =~= ranges_view(pool@));
    }
    let sorted = sort_by_start(segments, Ghost(base), Ghost(tv), Ghost(dv), Ghost(max_frame_secs));
    let r = merge_touching(&sorted, Ghost(base), Ghost(tv), Ghost(dv), Ghost(max_frame_secs), Ghost(offset_seconds as int), Ghost(te as int));
    proof {
        if ok {
            assert forall|x: int| #[trigger] seg_count(segs_view(r@), x) == covers_at(ts as int, te as int, x) by {
                assert(seg_count(segs_view(segments@), x) + range_count(ranges_view(pool@), x)
                    - range_count(ranges_view(pool@).take(npool as int), x) == covers_at(ts as int, te as int, x));
                assert(seg_count(segs_view(sorted@), x) == seg_count(segs_view(segments@), x));
            }
            lemma_count_tiles(segs_view(r@), ts as int, te as int);
        }
        assert forall|i: int| 0 <= i < r@.len() - 1 implies (#[trigger] r@[i]).t_start <= r@[i + 1].t_start by {
            assert(segs_view(r@)[i].1 <= segs_view(r@)[i + 1].1);
        }
        assert forall|i: int| 0 <= i < r@.len() - 1 implies !((#[trigger] r@[i]).source@ == r@[i + 1].source@
            && r@[i].t_end == r@[i + 1].t_start) by {
            assert(!(segs_view(r@)[i].0 == segs_view(r@)[i + 1].0 && segs_view(r@)[i].2 == segs_view(r@)[i + 1].1));
        }
    }
    r
}

/// The span of data seen: the earliest start and the latest end among the
/// observed `(start, end)` ranges, `None` where nothing was observed.
pub fn data_range(observed: &Vec<(i64, i64)>) -> (r: Option<(i64, i64)>)
    ensures
        observed@.len() == 0 <==> r is None,
        r matches Some((lo, hi)) ==> {
            &&& exists|i: int| 0 <= i < observed@.len() && observed@[i].0 == lo
            &&& exists|j: int| 0 <= j < observed@.len() && observed@[j].1 == hi
            &&& forall|i: int| 0 <= i < observed@.len() ==> lo <= (#[trigger] observed@[i]).0 && observed@[i].1 <= hi
        },
{
    let n = observed.len();
    if n == 0 {
        return None;
    }
    let mut lo: i64 = observed[0].0;
    let mut hi: i64 = observed[0].1;
    let mut i: usize = 1;
    while i < n
        invariant
            n == observed@.len(),
            1 <= i <= n,
            exists|k: int| 0 <= k < i && observed@[k].0 == lo,
            exists|k: int| 0 <= k < i && observed@[k].1 == hi,
            forall|k: int| 0 <= k < i ==> lo <= (#[trigger] observed@[k]).0 && observed@[k].1 <= hi,
        decreases n - i,
    {
        let (a, b) = observed[i];
        if a < lo {
            lo = a;
        }
        if b > hi {
            hi = b;
        }
        i = i + 1;
    }
    Some((lo, hi))
}

} // verus!
