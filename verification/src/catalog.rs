//! The tenant timeline that maps (time, tenant) pairs to storage slots, and
//! the per-table settings read from a table's column metadata.
use vstd::prelude::*;
use crate::rollup::{opt_str, opt_text, strings_view};
use crate::text::{
    chars_of, double_char, int_text, push_chars, push_doubled, push_i64, push_str, replace_chars,
    replace_spec, string_from_chars,
};
use crate::worker::{json_array_text, json_string_array};

verus! {

/// One epoch of the tenant timeline: from `start_t` (inclusive) to `end_t`
/// (exclusive) every second owns `tenant_scale` consecutive slots, the first
/// of them at `base_offset`.
#[derive(Clone, Copy, Debug)]
pub struct TimelineEpoch {
    pub start_t: i64,
    pub end_t: i64,
    pub tenant_scale: i64,
    pub base_offset: i64,
}

/// The absolute value.
pub open spec fn abs(a: int) -> int {
    if a < 0 {
        -a
    } else {
        a
    }
}

/// Rust's `/` on integers: the quotient rounded toward zero.
pub open spec fn trunc_div(a: int, b: int) -> int {
    if (a >= 0) == (b >= 0) {
        abs(a) / abs(b)
    } else {
        -(abs(a) / abs(b))
    }
}

/// Rust's `%` on integers: the remainder of `trunc_div`, with the sign of `a`.
pub open spec fn trunc_rem(a: int, b: int) -> int {
    if a >= 0 {
        abs(a) % abs(b)
    } else {
        -(abs(a) % abs(b))
    }
}

fn div_pos(a: i64, b: i64) -> (r: (i64, i64))
    requires
        b > 0,
    ensures
        r.0 == trunc_div(a as int, b as int),
        r.1 == trunc_rem(a as int, b as int),
{
    let q = a / b;
    let m = a % b;
    proof {
        if a < 0 {
            assert(q == -((-a) as int / (b as int)));
            assert(m == -((-a) as int % (b as int)));
            assert(abs(a as int) == -a);
            assert(abs(b as int) == b);
        } else {
            assert(q == (a as int / (b as int)));
            assert(m == (a as int % (b as int)));
        }
    }
    (q, m)
}

fn div_by_min(a: i64, b: i64) -> (r: (i64, i64))
    requires
        b == i64::MIN,
    ensures
        r.0 == trunc_div(a as int, b as int),
        r.1 == trunc_rem(a as int, b as int),
{
    if a == i64::MIN {
        (1, 0)
    } else {
        proof {
            assert(abs(a as int) < 0x8000_0000_0000_0000);
            assert(abs(b as int) == 0x8000_0000_0000_0000);
            vstd::arithmetic::div_mod::lemma_basic_div(abs(a as int), abs(b as int));
            vstd::arithmetic::div_mod::lemma_small_mod(abs(a as int) as nat, abs(b as int) as nat);
        }
        (0, a)
    }
}

/// `(a / b, a % b)` with Rust's rounding toward zero.
pub fn div_trunc(a: i64, b: i64) -> (r: (i64, i64))
    requires
        b != 0,
        !(a == i64::MIN && b == -1),
    ensures
        r.0 == trunc_div(a as int, b as int),
        r.1 == trunc_rem(a as int, b as int),
{
    if b > 0 {
        div_pos(a, b)
    } else if b == i64::MIN {
        div_by_min(a, b)
    } else {
        let nb: i64 = -b;
        let (q, m) = div_pos(a, nb);
        proof {
            assert(abs(b as int) == nb);
            if a < 0 {
                assert(abs(a as int) / (nb as int) <= abs(a as int)) by {
                    vstd::arithmetic::div_mod::lemma_div_is_ordered_by_denominator(
                        abs(a as int),
                        1,
                        nb as int,
                    );
                }
                if nb == 1 {
                    assert(a != i64::MIN);
                }
                assert(q > i64::MIN) by {
                    if nb > 1 {
                        vstd::arithmetic::div_mod::lemma_div_decreases(abs(a as int), nb as int);
                    }
                }
            }
        }
        (-q, m)
    }
}

/// The epoch covers the time `t`.
pub open spec fn in_epoch(t: int, e: TimelineEpoch) -> bool {
    e.start_t <= t < e.end_t
}

/// The index of the first epoch at or after `i` that covers `t`, or the
/// number of epochs when none does.
pub open spec fn first_match_from(t: int, es: Seq<TimelineEpoch>, i: int) -> int
    decreases es.len() - i,
{
    if i < 0 || i >= es.len() {
        es.len() as int
    } else if in_epoch(t, es[i]) {
        i
    } else {
        first_match_from(t, es, i + 1)
    }
}

/// The epoch whose layout places time `t`: the first one covering it; for a
/// time before the first epoch, the first epoch; otherwise the last one.
pub open spec fn chosen_epoch(t: int, es: Seq<TimelineEpoch>) -> TimelineEpoch {
    let k = first_match_from(t, es, 0);
    if k < es.len() {
        es[k]
    } else if t < es[0].start_t {
        es[0]
    } else {
        es.last()
    }
}

/// The slot of tenant `tenant_id` at relative time `t_rel`.
pub open spec fn slot_spec(t_rel: int, tenant_id: int, es: Seq<TimelineEpoch>, fallback_scale: int) -> int {
    if es.len() == 0 {
        t_rel * fallback_scale + tenant_id
    } else {
        let e = chosen_epoch(t_rel, es);
        e.base_offset + (t_rel - e.start_t) * e.tenant_scale + tenant_id
    }
}

/// `v` fits in an `i64`.
pub open spec fn fits_i64(v: int) -> bool {
    i64::MIN <= v <= i64::MAX
}

/// Every intermediate value of the slot computation fits in an `i64`.
pub open spec fn slot_fits(t_rel: int, tenant_id: int, es: Seq<TimelineEpoch>, fallback_scale: int) -> bool {
    if es.len() == 0 {
        fits_i64(t_rel * fallback_scale) && fits_i64(t_rel * fallback_scale + tenant_id)
    } else {
        let e = chosen_epoch(t_rel, es);
        &&& fits_i64(t_rel - e.start_t)
        &&& fits_i64((t_rel - e.start_t) * e.tenant_scale)
        &&& fits_i64(e.base_offset + (t_rel - e.start_t) * e.tenant_scale)
        &&& fits_i64(slot_spec(t_rel, tenant_id, es, fallback_scale))
    }
}

proof fn lemma_first_match_step(t: int, es: Seq<TimelineEpoch>, i: int)
    requires
        0 <= i < es.len(),
        !in_epoch(t, es[i]),
    ensures
        first_match_from(t, es, i) == first_match_from(t, es, i + 1),
{
}

proof fn lemma_first_match_bounds(t: int, es: Seq<TimelineEpoch>, i: int)
    requires
        0 <= i,
    ensures
        first_match_from(t, es, i) <= es.len(),
        first_match_from(t, es, i) < es.len() ==> i <= first_match_from(t, es, i) && in_epoch(
            t,
            es[first_match_from(t, es, i)],
        ),
    decreases es.len() - i,
{
    if i < es.len() && !in_epoch(t, es[i]) {
        lemma_first_match_bounds(t, es, i + 1);
    }
}

/// Computes the storage slot of a tenant at a relative time, laid out by
/// the epoch that covers the time (or, outside every epoch, by the first
/// epoch for earlier times and the last one for later times). Without
/// epochs every second owns `fallback_scale` slots from slot 0.
pub fn compute_slot_index(t_rel: i64, tenant_id: i64, epochs: &[TimelineEpoch], fallback_scale: i64) -> (r: i64)
    requires
        slot_fits(t_rel as int, tenant_id as int, epochs@, fallback_scale as int),
    ensures
        r == slot_spec(t_rel as int, tenant_id as int, epochs@, fallback_scale as int),
{
    if epochs.len() == 0 {
        return (t_rel * fallback_scale) + tenant_id;
    }
    let n = epochs.len();
    let mut i: usize = 0;
    while i < n
        invariant
            n == epochs@.len(),
            n > 0,
            i <= n,
            first_match_from(t_rel as int, epochs@, 0) == first_match_from(t_rel as int, epochs@, i as int),
            slot_fits(t_rel as int, tenant_id as int, epochs@, fallback_scale as int),
        decreases n - i,
    {
        let epoch = epochs[i];
        if t_rel >= epoch.start_t && t_rel < epoch.end_t {
            let offset_in_epoch = t_rel - epoch.start_t;
            return epoch.base_offset + (offset_in_epoch * epoch.tenant_scale) + tenant_id;
        }
        proof {
            lemma_first_match_step(t_rel as int, epochs@, i as int);
        }
        i = i + 1;
    }
    let first = epochs[0];
    if t_rel < first.start_t {
        let offset = t_rel - first.start_t;
        return first.base_offset + (offset * first.tenant_scale) + tenant_id;
    }
    let last = epochs[n - 1];
    let offset = t_rel - last.start_t;
    last.base_offset + (offset * last.tenant_scale) + tenant_id
}

/// The number of slots per second at relative time `t_rel`: that of the
/// first epoch covering it, else that of the last epoch.
pub open spec fn tenant_scale_spec(t_rel: int, es: Seq<TimelineEpoch>, fallback_scale: int) -> int {
    if es.len() == 0 {
        fallback_scale
    } else {
        let k = first_match_from(t_rel, es, 0);
        if k < es.len() {
            es[k].tenant_scale as int
        } else {
            es.last().tenant_scale as int
        }
    }
}

/// Returns the number of slots per second at a relative time.
pub fn compute_tenant_scale(t_rel: i64, epochs: &[TimelineEpoch], fallback_scale: i64) -> (r: i64)
    ensures
        r == tenant_scale_spec(t_rel as int, epochs@, fallback_scale as int),
{
    if epochs.len() == 0 {
        return fallback_scale;
    }
    let n = epochs.len();
    let mut i: usize = 0;
    while i < n
        invariant
            n == epochs@.len(),
            n > 0,
            i <= n,
            first_match_from(t_rel as int, epochs@, 0) == first_match_from(t_rel as int, epochs@, i as int),
        decreases n - i,
    {
        let epoch = epochs[i];
        if t_rel >= epoch.start_t && t_rel < epoch.end_t {
            return epoch.tenant_scale;
        }
        proof {
            lemma_first_match_step(t_rel as int, epochs@, i as int);
        }
        i = i + 1;
    }
    epochs[n - 1].tenant_scale
}

/// The index of the last epoch among the first `hi` whose base offset is at
/// most `slot`, or 0 when there is none.
pub open spec fn pick_below(slot: int, es: Seq<TimelineEpoch>, hi: int) -> int
    decreases hi,
{
    if hi <= 0 {
        0
    } else if slot >= es[hi - 1].base_offset {
        hi - 1
    } else {
        pick_below(slot, es, hi - 1)
    }
}

/// The epoch a slot is read back through: the last one whose base offset is
/// at most the slot, else the first.
pub open spec fn slot_epoch(slot: int, es: Seq<TimelineEpoch>) -> TimelineEpoch {
    es[pick_below(slot, es, es.len() as int)]
}

/// The (relative time, tenant) pair that a slot is read back as.
pub open spec fn reverse_spec(slot: int, es: Seq<TimelineEpoch>, fallback_scale: int) -> (int, int) {
    if es.len() == 0 {
        (trunc_div(slot, fallback_scale), trunc_rem(slot, fallback_scale))
    } else {
        let e = slot_epoch(slot, es);
        let off = slot - e.base_offset;
        (e.start_t + trunc_div(off, e.tenant_scale as int), trunc_rem(off, e.tenant_scale as int))
    }
}

/// The read-back divides by a non-zero scale and stays inside `i64`.
pub open spec fn reverse_fits(slot: int, es: Seq<TimelineEpoch>, fallback_scale: int) -> bool {
    if es.len() == 0 {
        fallback_scale != 0 && !(slot == i64::MIN && fallback_scale == -1)
    } else {
        let e = slot_epoch(slot, es);
        let off = slot - e.base_offset;
        &&& e.tenant_scale != 0
        &&& fits_i64(off)
        &&& !(off == i64::MIN && e.tenant_scale == -1)
        &&& fits_i64(e.start_t + trunc_div(off, e.tenant_scale as int))
    }
}

proof fn lemma_pick_bounds(slot: int, es: Seq<TimelineEpoch>, hi: int)
    requires
        0 < hi <= es.len(),
    ensures
        0 <= pick_below(slot, es, hi) < hi,
    decreases hi,
{
    if slot < es[hi - 1].base_offset {
        if hi > 1 {
            lemma_pick_bounds(slot, es, hi - 1);
        } else {
            assert(pick_below(slot, es, 0) == 0);
        }
    }
}

/// Reads a slot back as its (relative time, tenant) pair.
pub fn reverse_slot_index(slot_index: i64, epochs: &[TimelineEpoch], fallback_scale: i64) -> (r: (i64, i64))
    requires
        reverse_fits(slot_index as int, epochs@, fallback_scale as int),
    ensures
        (r.0 as int, r.1 as int) == reverse_spec(slot_index as int, epochs@, fallback_scale as int),
{
    if epochs.len() == 0 {
        return div_trunc(slot_index, fallback_scale);
    }
    let n = epochs.len();
    let mut k: usize = 0;
    let mut hi: usize = n;
    let ghost len = n as int;
    proof {
        lemma_pick_bounds(slot_index as int, epochs@, len);
    }
    while hi > 0
        invariant_except_break
            k == 0,
        invariant
            n == epochs@.len(),
            len == n,
            n > 0,
            hi <= n,
            pick_below(slot_index as int, epochs@, len) == pick_below(slot_index as int, epochs@, hi as int),
        ensures
            k == pick_below(slot_index as int, epochs@, len),
            k < n,
        decreases hi,
    {
        if slot_index >= epochs[hi - 1].base_offset {
            k = hi - 1;
            break;
        }
        hi = hi - 1;
    }
    let target = epochs[k];
    let offset_in_epoch = slot_index - target.base_offset;
    let (q, m) = div_trunc(offset_in_epoch, target.tenant_scale);
    let t_rel = target.start_t + q;
    (t_rel, m)
}

// ---------------------------------------------------------------------------
// The slot layout reads back what it wrote
// ---------------------------------------------------------------------------

/// Two consecutive epochs meet: the second starts where the first ends, and
/// its slots start right after the first epoch's last slot.
pub open spec fn epochs_meet(a: TimelineEpoch, b: TimelineEpoch) -> bool {
    &&& b.start_t == a.end_t
    &&& b.base_offset == a.base_offset + (a.end_t - a.start_t) * a.tenant_scale
}

/// A timeline as the catalog keeps it: epochs of positive length and scale,
/// in order, each meeting the next.
pub open spec fn timeline_wf(es: Seq<TimelineEpoch>) -> bool {
    &&& forall|i: int|
        0 <= i < es.len() ==> #[trigger] es[i].start_t < es[i].end_t && es[i].tenant_scale > 0
    &&& forall|i: int| 0 < i < es.len() ==> epochs_meet(es[i - 1], #[trigger] es[i])
}

proof fn lemma_base_after(es: Seq<TimelineEpoch>, k: int, j: int)
    requires
        timeline_wf(es),
        0 <= k < j < es.len(),
    ensures
        es[j].base_offset >= es[k].base_offset + (es[k].end_t - es[k].start_t) * es[k].tenant_scale,
        es[j].start_t >= es[k].end_t,
    decreases j - k,
{
    assert(epochs_meet(es[j - 1], es[j]));
    if j > k + 1 {
        lemma_base_after(es, k, j - 1);
        let e = es[j - 1];
        assert(e.start_t < e.end_t && e.tenant_scale > 0);
        assert((e.end_t - e.start_t) * e.tenant_scale > 0) by (nonlinear_arith)
            requires
                e.end_t - e.start_t > 0,
                e.tenant_scale > 0,
        ;
    }
}

proof fn lemma_pick_is(slot: int, es: Seq<TimelineEpoch>, k: int, hi: int)
    requires
        0 <= k < hi <= es.len(),
        slot >= es[k].base_offset,
        forall|j: int| k < j < hi ==> slot < #[trigger] es[j].base_offset,
    ensures
        pick_below(slot, es, hi) == k,
    decreases hi,
{
    if hi - 1 > k {
        assert(slot < es[hi - 1].base_offset);
        lemma_pick_is(slot, es, k, hi - 1);
    }
}

proof fn lemma_no_match_after(t: int, es: Seq<TimelineEpoch>, i: int, j: int)
    requires
        0 <= i <= j < es.len(),
        first_match_from(t, es, i) == es.len(),
    ensures
        !in_epoch(t, es[j]),
    decreases j - i,
{
    if i < j {
        if in_epoch(t, es[i]) {
            assert(first_match_from(t, es, i) == i);
        } else {
            lemma_no_match_after(t, es, i + 1, j);
        }
    }
}

proof fn lemma_past_epochs(t: int, es: Seq<TimelineEpoch>, i: int)
    requires
        timeline_wf(es),
        0 <= i < es.len(),
        es[0].start_t <= t,
        forall|j: int| 0 <= j < es.len() ==> !in_epoch(t, #[trigger] es[j]),
    ensures
        t >= es[i].start_t,
    decreases i,
{
    if i > 0 {
        lemma_past_epochs(t, es, i - 1);
        assert(!in_epoch(t, es[i - 1]));
        assert(epochs_meet(es[i - 1], es[i]));
    }
}

proof fn lemma_read_back(off: int, s: int, q: int, tid: int)
    requires
        s > 0,
        q >= 0,
        0 <= tid < s,
        off == q * s + tid,
    ensures
        trunc_div(off, s) == q,
        trunc_rem(off, s) == tid,
{
    assert(off >= 0) by (nonlinear_arith)
        requires
            q >= 0,
            s > 0,
            tid >= 0,
            off == q * s + tid,
    ;
    vstd::arithmetic::div_mod::lemma_fundamental_div_mod_converse(off, s, q, tid);
}

/// Law: without epochs, a slot reads back as the time and tenant it was
/// computed from, for a positive scale, a time at or after zero and a tenant
/// below the scale.
pub proof fn lemma_flat_slot_roundtrip(t_rel: int, tenant_id: int, fallback_scale: int)
    requires
        fallback_scale > 0,
        t_rel >= 0,
        0 <= tenant_id < fallback_scale,
    ensures
        reverse_spec(slot_spec(t_rel, tenant_id, Seq::empty(), fallback_scale), Seq::empty(), fallback_scale)
            == (t_rel, tenant_id),
{
    let slot = t_rel * fallback_scale + tenant_id;
    lemma_read_back(slot, fallback_scale, t_rel, tenant_id);
}

/// Law: on a well-formed timeline, the slot of a tenant at a time from the
/// first epoch's start on reads back as that time and tenant, when the
/// tenant is below the scale of the epoch that lays the time out.
pub proof fn lemma_slot_roundtrip(t_rel: int, tenant_id: int, es: Seq<TimelineEpoch>, fallback_scale: int)
    requires
        es.len() > 0,
        timeline_wf(es),
        es[0].start_t <= t_rel,
        0 <= tenant_id < chosen_epoch(t_rel, es).tenant_scale,
    ensures
        reverse_spec(slot_spec(t_rel, tenant_id, es, fallback_scale), es, fallback_scale) == (t_rel, tenant_id),
{
    let n = es.len() as int;
    let k0 = first_match_from(t_rel, es, 0);
    lemma_first_match_bounds(t_rel, es, 0);
    let k = if k0 < n {
        k0
    } else {
        n - 1
    };
    let e = es[k];
    assert(e == chosen_epoch(t_rel, es));
    assert(e.start_t < e.end_t && e.tenant_scale > 0);
    if k0 == n {
        assert forall|j: int| 0 <= j < n implies !in_epoch(t_rel, #[trigger] es[j]) by {
            lemma_no_match_after(t_rel, es, 0, j);
        }
        lemma_past_epochs(t_rel, es, n - 1);
    }
    let q = t_rel - e.start_t;
    let s = e.tenant_scale as int;
    let slot = e.base_offset + q * s + tenant_id;
    assert(slot == slot_spec(t_rel, tenant_id, es, fallback_scale));
    assert(q >= 0);
    assert(q * s + tenant_id >= 0) by (nonlinear_arith)
        requires
            q >= 0,
            s > 0,
            tenant_id >= 0,
    ;
    assert forall|j: int| k < j < n implies slot < #[trigger] es[j].base_offset by {
        lemma_base_after(es, k, j);
        assert(t_rel < e.end_t);
        assert(q * s + tenant_id < (e.end_t - e.start_t) * s) by (nonlinear_arith)
            requires
                q + 1 <= e.end_t - e.start_t,
                s > 0,
                tenant_id < s,
        ;
    }
    lemma_pick_is(slot, es, k, n);
    assert(slot_epoch(slot, es) == e);
    lemma_read_back(slot - e.base_offset, s, q, tenant_id);
}

// ---------------------------------------------------------------------------
// Per-table settings
// ---------------------------------------------------------------------------

/// What the catalog reads from a table's `columns_metadata` document: each
/// field holds the entry of that name when it is present with the right
/// JSON type (an integer that fits `i64`, or a string).
pub struct ColumnsMetadata {
    pub tenant_scale: Option<i64>,
    pub cardinality: Option<String>,
    pub kickoff_epoch: Option<i64>,
    pub time_column: Option<String>,
}

/// A column stored as an offset from the bucket time, with the formula
/// that produced it.
pub struct OffsetColumn {
    pub mat_column: String,
    pub formula: String,
}

/// A row of the rollup catalog.
pub struct Metadata {
    pub parent_view: String,
    pub frame_seconds: i32,
    pub base_view: String,
    pub scope_columns: Vec<String>,
    pub columns_metadata: ColumnsMetadata,
}

/// The least power of two that is at least `n`, searching upward from `p`.
pub open spec fn pow2_at_least(n: int, p: int) -> int
    decreases (if p >= n {
        0
    } else {
        n - p
    }),
    when p > 0
{
    if p >= n {
        p
    } else {
        pow2_at_least(n, 2 * p)
    }
}

/// The slots per second of a cardinality class: `d`ozens, `h`undreds,
/// `k` (thousands), `M`illions, `B`illions, `T`rillions.
pub open spec fn cardinality_scale(c: Seq<char>) -> int {
    if c == seq!['d'] {
        16
    } else if c == seq!['h'] {
        128
    } else if c == seq!['k'] {
        1024
    } else if c == seq!['M'] {
        1048576
    } else if c == seq!['B'] {
        1073741824
    } else if c == seq!['T'] {
        1099511627776
    } else {
        1024
    }
}

/// The tenant scale a table's settings ask for: an explicit positive
/// `tenant_scale` rounded up to a power of two (a value past 2^62 rounds to
/// 2^63, which reads back as `i64::MIN`), 1 for an explicit scale that is
/// not positive, else the scale of the `cardinality` class, else 1024.
pub open spec fn tenant_scale_setting(m: ColumnsMetadata) -> int {
    match m.tenant_scale {
        Some(n) => if n > 0 {
            let p = pow2_at_least(n as int, 1);
            if p == 0x8000_0000_0000_0000 {
                i64::MIN as int
            } else {
                p
            }
        } else {
            1
        },
        None => match m.cardinality {
            Some(c) => cardinality_scale(c@),
            None => 1024,
        },
    }
}

fn round_up_pow2(n: i64) -> (r: u64)
    requires
        n > 0,
    ensures
        r as int == pow2_at_least(n as int, 1),
        r <= 0x8000_0000_0000_0000,
{
    let nu: u64 = n as u64;
    let mut p: u64 = 1;
    let ghost mut e: nat = 0;
    proof {
        vstd::arithmetic::power2::lemma2_to64();
    }
    while p < nu
        invariant
            nu == n,
            0 < nu < 0x8000_0000_0000_0000,
            p == vstd::arithmetic::power2::pow2(e),
            1 <= p <= 0x8000_0000_0000_0000,
            pow2_at_least(n as int, p as int) == pow2_at_least(n as int, 1),
        decreases 0x8000_0000_0000_0000 - p,
    {
        proof {
            vstd::arithmetic::power2::lemma2_to64_rest();
            if e > 63 {
                vstd::arithmetic::power2::lemma_pow2_strictly_increases(63, e);
            }
            assert(e < 63);
            if e < 62 {
                vstd::arithmetic::power2::lemma_pow2_strictly_increases(e, 62);
            }
            vstd::arithmetic::power2::lemma_pow2_unfold(e + 1);
        }
        p = p * 2;
        proof {
            e = e + 1;
        }
    }
    p
}

/// The tenant scale of a table, from its settings.
pub fn get_tenant_scale(metadata: &Metadata) -> (r: i64)
    ensures
        r == tenant_scale_setting(metadata.columns_metadata),
{
    match metadata.columns_metadata.tenant_scale {
        Some(n) => {
            if n > 0 {
                let p = round_up_pow2(n);
                if p >= 0x8000_0000_0000_0000 {
                    i64::MIN
                } else {
                    p as i64
                }
            } else {
                1
            }
        },
        None => match &metadata.columns_metadata.cardinality {
            Some(c) => {
                let cs = crate::text::chars_of(c.as_str());
                if cs.len() != 1 {
                    proof {
                        assert(cs@ != seq!['d'] && cs@ != seq!['h'] && cs@ != seq!['k']);
                        assert(cs@ != seq!['M'] && cs@ != seq!['B'] && cs@ != seq!['T']);
                    }
                    1024
                } else {
                    let ch = cs[0];
                    proof {
                        assert(cs@ =~= seq![ch]);
                    }
                    if ch == 'd' {
                        16
                    } else if ch == 'h' {
                        128
                    } else if ch == 'k' {
                        1024
                    } else if ch == 'M' {
                        1048576
                    } else if ch == 'B' {
                        1073741824
                    } else if ch == 'T' {
                        1099511627776
                    } else {
                        1024
                    }
                }
            },
            None => 1024,
        },
    }
}

/// The epoch (in seconds) that a table counts time from: its own
/// `kickoff_epoch` setting, else the configured one.
pub fn get_kickoff(metadata: &Metadata, configured_kickoff: i64) -> (r: i64)
    ensures
        r == match metadata.columns_metadata.kickoff_epoch {
            Some(k) => k,
            None => configured_kickoff,
        },
{
    match metadata.columns_metadata.kickoff_epoch {
        Some(k) => k,
        None => configured_kickoff,
    }
}

/// The statement that lists a base table's dirty ranges overlapping
/// `[ts, te)` (open ends included), oldest first; with a scope object, only
/// those of that scope or of the whole table.
pub open spec fn dirty_ranges_sql_spec(base_view: Seq<char>, ts: int, te: int, scope_json: Option<Seq<char>>) -> Seq<char> {
    let head = "SELECT t_start, t_end FROM spiral.changelog\n                         WHERE base_view = '"@ + double_char(base_view, '\'')
        + "'\n                           AND (t_end IS NULL OR t_end > "@ + int_text(ts)
        + ")\n                           AND (t_start IS NULL OR t_start < "@ + int_text(te) + ")"@;
    match scope_json {
        Some(sv) => head + "\n                           AND (scope_values = '{}'::jsonb OR scope_values = '"@ + double_char(sv, '\'')
            + "'::jsonb)\n                         ORDER BY t_start NULLS FIRST"@,
        None => head + "\n                         ORDER BY t_start NULLS FIRST"@,
    }
}

/// The statement that lists a base table's dirty ranges (see
/// `dirty_ranges_sql_spec`); `scope_json` is the scope object's JSON text.
pub fn dirty_ranges_sql(base_view: &str, ts: i64, te: i64, scope_json: Option<&str>) -> (r: String)
    ensures
        r@ == dirty_ranges_sql_spec(base_view@, ts as int, te as int, opt_str(scope_json)),
{
    let mut v = chars_of("SELECT t_start, t_end FROM spiral.changelog\n                         WHERE base_view = '");
    push_doubled(&mut v, &chars_of(base_view), '\'');
    push_str(&mut v, "'\n                           AND (t_end IS NULL OR t_end > ");
    push_i64(&mut v, ts);
    push_str(&mut v, ")\n                           AND (t_start IS NULL OR t_start < ");
    push_i64(&mut v, te);
    push_str(&mut v, ")");
    match scope_json {
        Some(sv) => {
            push_str(&mut v, "\n                           AND (scope_values = '{}'::jsonb OR scope_values = '");
            push_doubled(&mut v, &chars_of(sv), '\'');
            push_str(&mut v, "'::jsonb)\n                         ORDER BY t_start NULLS FIRST");
        },
        None => {
            push_str(&mut v, "\n                         ORDER BY t_start NULLS FIRST");
        },
    }
    string_from_chars(&v)
}

/// The array literal the scope columns are stored as, given their JSON array
/// text: brackets turned into braces (`[]` where serialising failed).
pub open spec fn scope_array_literal(scope_json: Option<Seq<char>>) -> Seq<char> {
    let json = match scope_json {
        Some(j) => j,
        None => "[]"@,
    };
    replace_spec(replace_spec(json, "["@, "{"@), "]"@, "}"@)
}

/// The statement that records (or updates) a view's catalog row, given the
/// scope columns' JSON array text.
pub open spec fn metadata_insert_spec(
    view: Seq<char>,
    parent: Seq<char>,
    frame_seconds: int,
    base: Seq<char>,
    scope_json: Option<Seq<char>>,
    metadata_json: Seq<char>,
) -> Seq<char> {
    "INSERT INTO spiral.metadata (view_name, parent_view, frame_seconds, base_view, scope_columns, columns_metadata)\n         VALUES ('"@
        + double_char(view, '\'') + "', '"@ + double_char(parent, '\'') + "', "@ + int_text(frame_seconds) + ", '"@
        + double_char(base, '\'') + "', '"@ + scope_array_literal(scope_json) + "'::text[], '"@ + double_char(metadata_json, '\'')
        + "'::jsonb)\n         ON CONFLICT (view_name) DO UPDATE SET parent_view = EXCLUDED.parent_view, frame_seconds = EXCLUDED.frame_seconds, base_view = EXCLUDED.base_view, scope_columns = EXCLUDED.scope_columns, columns_metadata = EXCLUDED.columns_metadata"@
}

/// The statement that records (or updates) a view's catalog row;
/// `metadata_json` is its column metadata's JSON text, and the scope
/// columns are serialised as a JSON array.
pub fn metadata_insert_sql(
    view: &str,
    parent: &str,
    frame_seconds: i32,
    base: &str,
    scope_columns: &Vec<String>,
    metadata_json: &str,
) -> (r: String)
    ensures
        r@ == metadata_insert_spec(
            view@,
            parent@,
            frame_seconds as int,
            base@,
            json_array_text(strings_view(scope_columns@)),
            metadata_json@,
        ),
{
    let json = json_string_array(scope_columns);
    let j: Option<&str> = match &json {
        Some(t) => Some(t.as_str()),
        None => None,
    };
    metadata_insert_from_json(view, parent, frame_seconds, base, j, metadata_json)
}

/// The statement that records (or updates) a view's catalog row, given the
/// scope columns' JSON array text (see `metadata_insert_spec`).
pub fn metadata_insert_from_json(
    view: &str,
    parent: &str,
    frame_seconds: i32,
    base: &str,
    scope_json: Option<&str>,
    metadata_json: &str,
) -> (r: String)
    ensures
        r@ == metadata_insert_spec(view@, parent@, frame_seconds as int, base@, opt_str(scope_json), metadata_json@),
{
    let json = match scope_json {
        Some(j) => chars_of(j),
        None => chars_of("[]"),
    };
    proof {
        reveal_strlit("[");
        reveal_strlit("]");
    }
    let braces = replace_chars(&replace_chars(&json, &chars_of("["), &chars_of("{")), &chars_of("]"), &chars_of("}"));
    let mut v = chars_of(
        "INSERT INTO spiral.metadata (view_name, parent_view, frame_seconds, base_view, scope_columns, columns_metadata)\n         VALUES ('",
    );
    push_doubled(&mut v, &chars_of(view), '\'');
    push_str(&mut v, "', '");
    push_doubled(&mut v, &chars_of(parent), '\'');
    push_str(&mut v, "', ");
    push_i64(&mut v, frame_seconds as i64);
    push_str(&mut v, ", '");
    push_doubled(&mut v, &chars_of(base), '\'');
    push_str(&mut v, "', '");
    push_chars(&mut v, &braces);
    push_str(&mut v, "'::text[], '");
    push_doubled(&mut v, &chars_of(metadata_json), '\'');
    push_str(
        &mut v,
        "'::jsonb)\n         ON CONFLICT (view_name) DO UPDATE SET parent_view = EXCLUDED.parent_view, frame_seconds = EXCLUDED.frame_seconds, base_view = EXCLUDED.base_view, scope_columns = EXCLUDED.scope_columns, columns_metadata = EXCLUDED.columns_metadata",
    );
    string_from_chars(&v)
}

/// The statement that records (or updates) a tier's source definition;
/// `metadata_json` is its metadata's JSON text.
pub open spec fn source_insert_spec(
    view: Seq<char>,
    base: Seq<char>,
    frame_seconds: int,
    base_column: Seq<char>,
    formula: Seq<char>,
    mat_column: Seq<char>,
    strategy: Option<Seq<char>>,
    metadata_json: Seq<char>,
) -> Seq<char> {
    let rgs = match strategy {
        Some(s) => "'"@ + double_char(s, '\'') + "'"@,
        None => "NULL"@,
    };
    "INSERT INTO spiral.sources (view_name, base_view, frame_seconds, base_column, formula, mat_column, rollup_gsub_strategy, metadata)\n         VALUES ('"@
        + double_char(view, '\'') + "', '"@ + double_char(base, '\'') + "', "@ + int_text(frame_seconds) + ", '"@
        + double_char(base_column, '\'') + "', '"@ + double_char(formula, '\'') + "', '"@ + double_char(mat_column, '\'')
        + "', "@ + rgs + ", '"@ + double_char(metadata_json, '\'')
        + "'::jsonb)\n         ON CONFLICT (view_name, base_column, formula) DO UPDATE SET base_view = EXCLUDED.base_view, frame_seconds = EXCLUDED.frame_seconds, mat_column = EXCLUDED.mat_column, rollup_gsub_strategy = EXCLUDED.rollup_gsub_strategy, metadata = EXCLUDED.metadata"@
}

/// The statement that records (or updates) a tier's source definition.
pub fn source_insert_sql(
    view: &str,
    base: &str,
    frame_seconds: i32,
    base_column: &str,
    formula: &str,
    mat_column: &str,
    strategy: Option<&str>,
    metadata_json: &str,
) -> (r: String)
    ensures
        r@ == source_insert_spec(
            view@,
            base@,
            frame_seconds as int,
            base_column@,
            formula@,
            mat_column@,
            opt_str(strategy),
            metadata_json@,
        ),
{
    let mut v = chars_of(
        "INSERT INTO spiral.sources (view_name, base_view, frame_seconds, base_column, formula, mat_column, rollup_gsub_strategy, metadata)\n         VALUES ('",
    );
    push_doubled(&mut v, &chars_of(view), '\'');
    push_str(&mut v, "', '");
    push_doubled(&mut v, &chars_of(base), '\'');
    push_str(&mut v, "', ");
    push_i64(&mut v, frame_seconds as i64);
    push_str(&mut v, ", '");
    push_doubled(&mut v, &chars_of(base_column), '\'');
    push_str(&mut v, "', '");
    push_doubled(&mut v, &chars_of(formula), '\'');
    push_str(&mut v, "', '");
    push_doubled(&mut v, &chars_of(mat_column), '\'');
    push_str(&mut v, "', ");
    let mut rgs: Vec<char> = Vec::new();
    match strategy {
        Some(st) => {
            push_str(&mut rgs, "'");
            push_doubled(&mut rgs, &chars_of(st), '\'');
            push_str(&mut rgs, "'");
        },
        None => push_str(&mut rgs, "NULL"),
    }
    proof {
        assert(rgs@ =~= match opt_str(strategy) {
            Some(s) => "'"@ + double_char(s, '\'') + "'"@,
            None => "NULL"@,
        });
    }
    push_chars(&mut v, &rgs);
    push_str(&mut v, ", '");
    push_doubled(&mut v, &chars_of(metadata_json), '\'');
    push_str(
        &mut v,
        "'::jsonb)\n         ON CONFLICT (view_name, base_column, formula) DO UPDATE SET base_view = EXCLUDED.base_view, frame_seconds = EXCLUDED.frame_seconds, mat_column = EXCLUDED.mat_column, rollup_gsub_strategy = EXCLUDED.rollup_gsub_strategy, metadata = EXCLUDED.metadata",
    );
    string_from_chars(&v)
}

/// The statements that remove a table from the rollup catalog, in order:
/// cancel the workers whose query mentions it, list its tiers (to be
/// dropped), and delete its sources, catalog rows and changelog.
pub open spec fn removal_sql_spec(table: Seq<char>) -> (Seq<char>, Seq<char>, Seq<char>) {
    let name = double_char(table, '\'');
    (
        "SELECT pg_cancel_backend(pid) FROM pg_stat_activity WHERE backend_type LIKE 'Spiral Worker%' AND query LIKE '%"@
            + name + "%'"@,
        "SELECT view_name FROM spiral.metadata WHERE base_view = '"@ + name + "' AND view_name <> '"@ + name + "'"@,
        "DELETE FROM spiral.sources   WHERE view_name = '"@ + name + "' OR base_view = '"@ + name
            + "'; DELETE FROM spiral.metadata  WHERE view_name = '"@ + name + "' OR base_view = '"@ + name
            + "'; DELETE FROM spiral.changelog WHERE base_view = '"@ + name + "';"@,
    )
}

/// The statements that remove a table from the rollup catalog (see
/// `removal_sql_spec`).
pub fn removal_sql(table: &str) -> (r: (String, String, String))
    ensures
        (r.0@, r.1@, r.2@) == removal_sql_spec(table@),
{
    let mut name: Vec<char> = Vec::new();
    push_doubled(&mut name, &chars_of(table), '\'');
    proof {
        assert(name@ =~= double_char(table@, '\''));
    }
    let mut a = chars_of("SELECT pg_cancel_backend(pid) FROM pg_stat_activity WHERE backend_type LIKE 'Spiral Worker%' AND query LIKE '%");
    push_chars(&mut a, &name);
    push_str(&mut a, "%'");
    let mut b = chars_of("SELECT view_name FROM spiral.metadata WHERE base_view = '");
    push_chars(&mut b, &name);
    push_str(&mut b, "' AND view_name <> '");
    push_chars(&mut b, &name);
    push_str(&mut b, "'");
    let mut c = chars_of("DELETE FROM spiral.sources   WHERE view_name = '");
    push_chars(&mut c, &name);
    push_str(&mut c, "' OR base_view = '");
    push_chars(&mut c, &name);
    push_str(&mut c, "'; DELETE FROM spiral.metadata  WHERE view_name = '");
    push_chars(&mut c, &name);
    push_str(&mut c, "' OR base_view = '");
    push_chars(&mut c, &name);
    push_str(&mut c, "'; DELETE FROM spiral.changelog WHERE base_view = '");
    push_chars(&mut c, &name);
    push_str(&mut c, "';");
    (string_from_chars(&a), string_from_chars(&b), string_from_chars(&c))
}

/// The statement that drops one tier of a removed table.
pub fn drop_tier_sql(tier: &str) -> (r: String)
    ensures
        r@ == "DROP TABLE IF EXISTS \""@ + double_char(tier@, '\'') + "\" CASCADE"@,
{
    let mut v = chars_of("DROP TABLE IF EXISTS \"");
    push_doubled(&mut v, &chars_of(tier), '\'');
    push_str(&mut v, "\" CASCADE");
    string_from_chars(&v)
}

/// `value` quoted as a SQL literal between `pre` and `post`.
pub open spec fn literal_between(pre: Seq<char>, value: Seq<char>, post: Seq<char>) -> Seq<char> {
    pre + double_char(value, '\'') + post
}

fn text_with_literal(pre: &str, value: &str, post: &str) -> (r: String)
    ensures
        r@ == literal_between(pre@, value@, post@),
{
    let mut v = chars_of(pre);
    push_doubled(&mut v, &chars_of(value), '\'');
    push_str(&mut v, post);
    string_from_chars(&v)
}

/// The query that lists the catalog rows of a base table's tiers.
pub fn hierarchy_sql(base_table: &str) -> (r: String)
    ensures
        r@ == literal_between("SELECT view_name FROM spiral.metadata WHERE base_view = '"@, base_table@, "'"@),
{
    text_with_literal("SELECT view_name FROM spiral.metadata WHERE base_view = '", base_table, "'")
}

/// The query that lists the tiers built directly on a view, finest first.
pub fn children_sql(view_name: &str) -> (r: String)
    ensures
        r@ == literal_between(
            "SELECT view_name FROM spiral.metadata WHERE parent_view = '"@,
            view_name@,
            "' ORDER BY frame_seconds ASC"@,
        ),
{
    text_with_literal(
        "SELECT view_name FROM spiral.metadata WHERE parent_view = '",
        view_name,
        "' ORDER BY frame_seconds ASC",
    )
}

/// The query that reads a view's catalog row.
pub fn metadata_sql(view_name: &str) -> (r: String)
    ensures
        r@ == literal_between(
            "SELECT parent_view, frame_seconds, base_view, scope_columns, columns_metadata FROM spiral.metadata WHERE view_name = '"@,
            view_name@,
            "'"@,
        ),
{
    text_with_literal(
        "SELECT parent_view, frame_seconds, base_view, scope_columns, columns_metadata FROM spiral.metadata WHERE view_name = '",
        view_name,
        "'",
    )
}

/// The query that tells whether a relation has a catalog row.
pub fn is_spiral_relation_sql(name: &str) -> (r: String)
    ensures
        r@ == literal_between("SELECT 1 FROM spiral.metadata WHERE view_name = '"@, name@, "'"@),
{
    text_with_literal("SELECT 1 FROM spiral.metadata WHERE view_name = '", name, "'")
}

/// The query that reads a table's tenant timeline, oldest epoch first; an
/// open end reads as `i64::MAX`.
pub fn timeline_sql(table_name: &str) -> (r: String)
    ensures
        r@ == literal_between(
            "SELECT start_t, COALESCE(end_t, 9223372036854775807), tenant_scale, base_offset \n             FROM spiral.tenants_timeline \n             WHERE table_name = '"@,
            table_name@,
            "' \n             ORDER BY start_t ASC"@,
        ),
{
    text_with_literal(
        "SELECT start_t, COALESCE(end_t, 9223372036854775807), tenant_scale, base_offset \n             FROM spiral.tenants_timeline \n             WHERE table_name = '",
        table_name,
        "' \n             ORDER BY start_t ASC",
    )
}

/// One timeline row as read: a missing start or offset reads as 0, a
/// missing end as `i64::MAX` and a missing scale as 1024.
pub fn timeline_epoch_from_row(
    start_t: Option<i64>,
    end_t: Option<i64>,
    tenant_scale: Option<i32>,
    base_offset: Option<i64>,
) -> (e: TimelineEpoch)
    ensures
        e.start_t == (match start_t { Some(x) => x, None => 0 }),
        e.end_t == (match end_t { Some(x) => x, None => i64::MAX }),
        e.tenant_scale == (match tenant_scale { Some(x) => x as i64, None => 1024 }),
        e.base_offset == (match base_offset { Some(x) => x, None => 0 }),
{
    TimelineEpoch {
        start_t: match start_t {
            Some(x) => x,
            None => 0,
        },
        end_t: match end_t {
            Some(x) => x,
            None => i64::MAX,
        },
        tenant_scale: match tenant_scale {
            Some(x) => x as i64,
            None => 1024,
        },
        base_offset: match base_offset {
            Some(x) => x,
            None => 0,
        },
    }
}

/// The query that lists a tier's columns kept as range offsets.
pub fn offset_columns_sql(view_name: &str) -> (r: String)
    ensures
        r@ == literal_between(
            "SELECT mat_column, formula FROM spiral.sources\n             WHERE view_name = '"@,
            view_name@,
            "' AND formula IN ('range_max_end', 'range_merge')"@,
        ),
{
    text_with_literal(
        "SELECT mat_column, formula FROM spiral.sources\n             WHERE view_name = '",
        view_name,
        "' AND formula IN ('range_max_end', 'range_merge')",
    )
}

/// The query that groups a base table's dirty scopes by identical range,
/// `per_batch` scopes at most to a batch.
pub open spec fn coalesce_batches_spec(base_view: Seq<char>, per_batch: int) -> Seq<char> {
    "SELECT array_agg(scope_values::text) FROM (\n                SELECT scope_values,\n                       (row_number() OVER (PARTITION BY t_start, t_end ORDER BY scope_values) - 1)\n                         / "@
        + int_text(per_batch) + " AS batch_id\n                FROM spiral.changelog WHERE base_view = '"@
        + double_char(base_view, '\'') + "'\n             ) s GROUP BY t_start, t_end, batch_id"@
}

/// The query that batches a base table's dirty scopes (see
/// `coalesce_batches_spec`).
pub fn coalesce_batches_sql(base_view: &str, max_scopes_per_batch: i64) -> (r: String)
    ensures
        r@ == coalesce_batches_spec(base_view@, max_scopes_per_batch as int),
{
    let mut v = chars_of(
        "SELECT array_agg(scope_values::text) FROM (\n                SELECT scope_values,\n                       (row_number() OVER (PARTITION BY t_start, t_end ORDER BY scope_values) - 1)\n                         / ",
    );
    push_i64(&mut v, max_scopes_per_batch);
    push_str(&mut v, " AS batch_id\n                FROM spiral.changelog WHERE base_view = '");
    push_doubled(&mut v, &chars_of(base_view), '\'');
    push_str(&mut v, "'\n             ) s GROUP BY t_start, t_end, batch_id");
    string_from_chars(&v)
}

/// The statement that snapshots the changelog rows to merge: all of a base
/// table's, or (with a scope) those of one scope object.
pub open spec fn changelog_snapshot_spec(base_view: Seq<char>, scope_json: Option<Seq<char>>) -> Seq<char> {
    match scope_json {
        Some(sv) => "CREATE TEMP TABLE scope_cl_snapshot AS SELECT ctid AS old_ctid, * FROM spiral.changelog WHERE base_view = '"@
            + double_char(base_view, '\'') + "' AND scope_values = '"@ + double_char(sv, '\'') + "'::jsonb"@,
        None => "CREATE TEMP TABLE changelog_snapshot AS SELECT ctid AS old_ctid, * FROM spiral.changelog WHERE base_view = '"@
            + double_char(base_view, '\'') + "'"@,
    }
}

/// The statement that snapshots the changelog rows that a merge of
/// overlapping ranges rewrites (see `changelog_snapshot_spec`).
pub fn changelog_snapshot_sql(base_view: &str, scope_json: Option<&str>) -> (r: String)
    ensures
        r@ == changelog_snapshot_spec(base_view@, opt_str(scope_json)),
{
    match scope_json {
        Some(sv) => {
            let mut v = chars_of(
                "CREATE TEMP TABLE scope_cl_snapshot AS SELECT ctid AS old_ctid, * FROM spiral.changelog WHERE base_view = '",
            );
            push_doubled(&mut v, &chars_of(base_view), '\'');
            push_str(&mut v, "' AND scope_values = '");
            push_doubled(&mut v, &chars_of(sv), '\'');
            push_str(&mut v, "'::jsonb");
            string_from_chars(&v)
        },
        None => text_with_literal(
            "CREATE TEMP TABLE changelog_snapshot AS SELECT ctid AS old_ctid, * FROM spiral.changelog WHERE base_view = '",
            base_view,
            "'",
        ),
    }
}

/// After a removal, all workers are cancelled when no base table is left in
/// the catalog; a count that could not be read counts as one.
pub fn no_tables_remain(remaining: Option<i64>) -> (r: bool)
    ensures
        r == (remaining == Some(0i64)),
{
    match remaining {
        Some(n) => n == 0,
        None => false,
    }
}

/// The query that lists a base table's catalog rows for its status, finest
/// first.
pub fn status_hierarchy_sql(base_table: &str) -> (r: String)
    ensures
        r@ == literal_between(
            "SELECT view_name, frame_seconds, parent_view FROM spiral.metadata WHERE base_view = '"@,
            base_table@,
            "' ORDER BY frame_seconds ASC"@,
        ),
{
    text_with_literal(
        "SELECT view_name, frame_seconds, parent_view FROM spiral.metadata WHERE base_view = '",
        base_table,
        "' ORDER BY frame_seconds ASC",
    )
}

/// The query that counts a view's rows; `None` for an empty name, whose
/// rows are not counted.
pub fn row_count_sql(view_name: &str) -> (r: Option<String>)
    ensures
        view_name@.len() == 0 <==> r is None,
        r matches Some(q) ==> q@ == "SELECT count(*) FROM \""@ + double_char(view_name@, '"') + "\""@,
{
    if view_name.is_empty() {
        return None;
    }
    let mut v = chars_of("SELECT count(*) FROM \"");
    push_doubled(&mut v, &chars_of(view_name), '"');
    push_str(&mut v, "\"");
    Some(string_from_chars(&v))
}

/// The query that counts a base table's dirty ranges.
pub fn dirty_count_sql(base_table: &str) -> (r: String)
    ensures
        r@ == literal_between("SELECT count(*) FROM spiral.changelog WHERE base_view = '"@, base_table@, "'"@),
{
    text_with_literal("SELECT count(*) FROM spiral.changelog WHERE base_view = '", base_table, "'")
}

/// The statement that empties a base table's changelog.
pub fn purge_sql(base_table: &str) -> (r: String)
    ensures
        r@ == literal_between("DELETE FROM spiral.changelog WHERE base_view = '"@, base_table@, "'"@),
{
    text_with_literal("DELETE FROM spiral.changelog WHERE base_view = '", base_table, "'")
}

} // verus!
