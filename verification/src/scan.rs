//! The packed store seen as a table: which pages a time-bounded scan reads,
//! how a slot of a page reads as a row (time, tenant, value), how a row is
//! placed for insertion, and the in-page writes of inserts and deletes.
//! Values are handled as the bits of their `f64`.
use vstd::prelude::*;
use crate::catalog::{div_trunc, trunc_div, trunc_rem};
use crate::storage::{
    addressable, le_u32, physical_spec, slot_location, slot_location_spec, slot_offset,
    tenant_in_range, valid_spiral_page_spec, is_valid_spiral_page, BLCKSZ, DATA_PER_PAGE,
    HEADER_SIZE, SPECIAL_SIZE,
};

verus! {

/// The little-endian 64-bit value of the 8 bytes at `off`.
pub open spec fn le_u64(page: Seq<u8>, off: int) -> int {
    le_u32(page, off) + le_u32(page, off + 4) * 0x1_0000_0000
}

/// The bits of an `f64` that compares unequal to `0.0`: anything but the
/// two zeros (a NaN compares unequal too).
pub open spec fn nonzero_value(bits: u64) -> bool {
    bits & 0x7FFF_FFFF_FFFF_FFFF != 0
}

/// Tests whether the `f64` with these bits is unequal to `0.0`.
pub fn value_is_nonzero(bits: u64) -> (r: bool)
    ensures
        r == nonzero_value(bits),
{
    bits & 0x7FFF_FFFF_FFFF_FFFF != 0
}

/// Reads the 8 bytes at `off` as a little-endian value.
pub fn read_slot_bits(page: &[u8], off: usize) -> (r: u64)
    requires
        off + 8 <= page@.len(),
    ensures
        r as int == le_u64(page@, off as int),
{
    let b0 = page[off] as u64;
    let b1 = page[off + 1] as u64;
    let b2 = page[off + 2] as u64;
    let b3 = page[off + 3] as u64;
    let b4 = page[off + 4] as u64;
    let b5 = page[off + 5] as u64;
    let b6 = page[off + 6] as u64;
    let b7 = page[off + 7] as u64;
    b0 + b1 * 0x100 + b2 * 0x1_0000 + b3 * 0x100_0000 + b4 * 0x1_0000_0000 + b5 * 0x100_0000_0000
        + b6 * 0x1_0000_0000_0000 + b7 * 0x100_0000_0000_0000
}

/// The page with the 8 bytes at `off` replaced by the little-endian bytes
/// of `bits`.
pub open spec fn with_slot(page: Seq<u8>, off: int, bits: u64) -> Seq<u8> {
    Seq::new(
        page.len(),
        |i: int|
            if off <= i < off + 8 {
                ((bits >> (8 * (i - off)) as u64) & 0xff) as u8
            } else {
                page[i]
            },
    )
}

/// Writes the little-endian bytes of `bits` over the 8 bytes at `off`.
pub fn write_slot_bits(page: &mut Vec<u8>, off: usize, bits: u64)
    requires
        off + 8 <= old(page)@.len(),
    ensures
        final(page)@ == with_slot(old(page)@, off as int, bits),
{
    let ghost start = page@;
    let n = page.len();
    let mut k: usize = 0;
    while k < 8
        invariant
            off + 8 <= page@.len(),
            page@.len() == n,
            page@.len() == start.len(),
            k <= 8,
            forall|i: int|
                0 <= i < page@.len() ==> #[trigger] page@[i] == if off <= i < off + k {
                    ((bits >> (8 * (i - off)) as u64) & 0xff) as u8
                } else {
                    start[i]
                },
        decreases 8 - k,
    {
        let kk = k as u64;
        let byte = ((bits >> (8 * kk)) & 0xff) as u8;
        page.set(off + k, byte);
        k = k + 1;
    }
    proof {
        assert(page@ =~= with_slot(start, off as int, bits));
    }
}

/// Law: a value written into a slot reads back as written.
pub proof fn lemma_slot_write_read(page: Seq<u8>, off: int, bits: u64)
    requires
        0 <= off,
        off + 8 <= page.len(),
    ensures
        le_u64(with_slot(page, off, bits), off) == bits,
{
    let w = with_slot(page, off, bits);
    let b0 = w[off] as u64;
    let b1 = w[off + 1] as u64;
    let b2 = w[off + 2] as u64;
    let b3 = w[off + 3] as u64;
    let b4 = w[off + 4] as u64;
    let b5 = w[off + 5] as u64;
    let b6 = w[off + 6] as u64;
    let b7 = w[off + 7] as u64;
    assert(b0 == ((bits >> 0u64) & 0xff) as u8 as u64);
    assert(b1 == ((bits >> 8u64) & 0xff) as u8 as u64);
    assert(b2 == ((bits >> 16u64) & 0xff) as u8 as u64);
    assert(b3 == ((bits >> 24u64) & 0xff) as u8 as u64);
    assert(b4 == ((bits >> 32u64) & 0xff) as u8 as u64);
    assert(b5 == ((bits >> 40u64) & 0xff) as u8 as u64);
    assert(b6 == ((bits >> 48u64) & 0xff) as u8 as u64);
    assert(b7 == ((bits >> 56u64) & 0xff) as u8 as u64);
    assert(b0 + b1 * 0x100 + b2 * 0x1_0000 + b3 * 0x100_0000 + b4 * 0x1_0000_0000 + b5 * 0x100_0000_0000
        + b6 * 0x1_0000_0000_0000 + b7 * 0x100_0000_0000_0000 == bits) by (bit_vector)
        requires
            b0 == ((bits >> 0u64) & 0xff) as u8 as u64,
            b1 == ((bits >> 8u64) & 0xff) as u8 as u64,
            b2 == ((bits >> 16u64) & 0xff) as u8 as u64,
            b3 == ((bits >> 24u64) & 0xff) as u8 as u64,
            b4 == ((bits >> 32u64) & 0xff) as u8 as u64,
            b5 == ((bits >> 40u64) & 0xff) as u8 as u64,
            b6 == ((bits >> 48u64) & 0xff) as u8 as u64,
            b7 == ((bits >> 56u64) & 0xff) as u8 as u64,
    ;
}

/// The row a slot reads as: slot `items_before` of page `blkno` is slot
/// number `blkno * DATA_PER_PAGE + items_before` of the store, whose time is
/// the slot number divided by the tenant scale (plus the kickoff epoch) and
/// whose tenant is the remainder (truncated to 32 bits).
pub open spec fn slot_row_spec(blkno: int, items_before: int, tenant_scale: int, kickoff: int) -> (int, i32) {
    let idx = blkno * DATA_PER_PAGE as int + items_before;
    (trunc_div(idx, tenant_scale) + kickoff, trunc_rem(idx, tenant_scale) as i32)
}

/// The row's time stays inside `i64`.
pub open spec fn slot_row_fits(blkno: int, items_before: int, tenant_scale: int, kickoff: int) -> bool {
    tenant_scale != 0 && crate::catalog::fits_i64(slot_row_spec(blkno, items_before, tenant_scale, kickoff).0)
}

/// Reads slot `items_before` of page `blkno` as (time, tenant).
pub fn slot_row(blkno: u32, items_before: u32, tenant_scale: i64, kickoff: i64) -> (r: (i64, i32))
    requires
        items_before < DATA_PER_PAGE,
        slot_row_fits(blkno as int, items_before as int, tenant_scale as int, kickoff as int),
    ensures
        (r.0 as int, r.1) == slot_row_spec(blkno as int, items_before as int, tenant_scale as int, kickoff as int),
{
    let idx: i64 = blkno as i64 * 1018 + items_before as i64;
    let (q, m) = div_trunc(idx, tenant_scale);
    (q + kickoff, m as i32)
}

/// Law: a reading stored by time and tenant (8-byte slots) is read back by
/// a scan as that time and tenant.
pub proof fn lemma_scan_reads_back_slot(t_rel: int, tenant_id: int, tenant_scale: int, kickoff: int)
    requires
        tenant_scale > 0,
        t_rel >= 0,
        tenant_in_range(tenant_id, tenant_scale),
        addressable(slot_offset(t_rel, tenant_id, tenant_scale, 8)),
    ensures
        ({
            let (b, o) = physical_spec(slot_offset(t_rel, tenant_id, tenant_scale, 8));
            slot_row_spec(b as int, (o as int - HEADER_SIZE as int) / 8, tenant_scale, kickoff) == (
                t_rel + kickoff,
                tenant_id as i32,
            )
        }),
{
    let lo = slot_offset(t_rel, tenant_id, tenant_scale, 8);
    crate::storage::lemma_physical_offset_layout(lo);
    let (b, o) = physical_spec(lo);
    let idx = b as int * DATA_PER_PAGE as int + (o as int - HEADER_SIZE as int) / 8;
    assert(lo == (t_rel * tenant_scale + tenant_id) * 8) by (nonlinear_arith)
        requires
            lo == t_rel * tenant_scale * 8 + tenant_id * 8,
    ;
    assert(lo / 8 == t_rel * tenant_scale + tenant_id) by {
        vstd::arithmetic::div_mod::lemma_div_multiples_vanish(t_rel * tenant_scale + tenant_id, 8);
    }
    assert(idx == t_rel * tenant_scale + tenant_id);
    assert(idx == tenant_scale * t_rel + tenant_id) by (nonlinear_arith)
        requires
            idx == t_rel * tenant_scale + tenant_id,
    ;
    assert(idx >= 0) by (nonlinear_arith)
        requires
            idx == t_rel * tenant_scale + tenant_id,
            t_rel >= 0,
            tenant_scale > 0,
            tenant_id >= 0,
    ;
    vstd::arithmetic::div_mod::lemma_fundamental_div_mod_converse(idx, tenant_scale, t_rel, tenant_id);
    assert(trunc_div(idx, tenant_scale) == t_rel);
    assert(trunc_rem(idx, tenant_scale) == tenant_id);
}

/// A 1-based position addresses a slot of the data area.
pub open spec fn posid_in_page(posid: int) -> bool {
    1 <= posid <= DATA_PER_PAGE
}

/// The in-page offset of the 1-based position `posid`.
pub open spec fn posid_offset(posid: int) -> int {
    HEADER_SIZE as int + (posid - 1) * 8
}

/// The row version a tuple id reads as: `None` for a position outside the
/// data area, a page that does not belong to the store or a zero value;
/// else the slot's time, tenant and value bits.
pub open spec fn row_version_spec(
    page: Seq<u8>,
    blkno: int,
    posid: int,
    tenant_scale: int,
    kickoff: int,
) -> Option<(int, i32, u64)> {
    if !posid_in_page(posid) || !valid_spiral_page_spec(page) {
        None
    } else {
        let bits = le_u64(page, posid_offset(posid)) as u64;
        if !nonzero_value(bits) {
            None
        } else {
            let (t, tenant) = slot_row_spec(blkno, posid - 1, tenant_scale, kickoff);
            Some((t, tenant, bits))
        }
    }
}

/// Fetches the row version a tuple id points to in a page image.
pub fn spiral_tuple_fetch_row_version(page: &[u8], blkno: u32, posid: u16, tenant_scale: i64, kickoff: i64) -> (r: Option<(i64, i32, u64)>)
    requires
        page@.len() == BLCKSZ,
        posid_in_page(posid as int) ==> slot_row_fits(blkno as int, posid - 1, tenant_scale as int, kickoff as int),
    ensures
        match r {
            Some(x) => row_version_spec(page@, blkno as int, posid as int, tenant_scale as int, kickoff as int)
                == Some((x.0 as int, x.1, x.2)),
            None => row_version_spec(page@, blkno as int, posid as int, tenant_scale as int, kickoff as int).is_none(),
        },
{
    if posid < 1 || posid > 1018 {
        return None;
    }
    if !is_valid_spiral_page(page) {
        return None;
    }
    let off: usize = 24 + (posid as usize - 1) * 8;
    let bits = read_slot_bits(page, off);
    if !value_is_nonzero(bits) {
        return None;
    }
    let (t, tenant) = slot_row(blkno, posid as u32 - 1, tenant_scale, kickoff);
    Some((t, tenant, bits))
}

/// A tuple id is valid when its page exists and its position addresses a
/// slot of the data area.
pub fn spiral_tuple_tid_valid(blkno: u32, posid: u16, nblocks: u32) -> (r: bool)
    ensures
        r == (blkno < nblocks && posid_in_page(posid as int)),
{
    blkno < nblocks && posid >= 1 && posid <= 1018
}

/// Deletes the row a tuple id points to: its slot is zeroed when the
/// position addresses the data area of a page of the store; otherwise the
/// page is left alone.
pub fn spiral_tuple_delete(page: &mut Vec<u8>, posid: u16)
    requires
        old(page)@.len() == BLCKSZ,
    ensures
        final(page)@ == if posid_in_page(posid as int) && valid_spiral_page_spec(old(page)@) {
            with_slot(old(page)@, posid_offset(posid as int), 0)
        } else {
            old(page)@
        },
{
    if posid < 1 || posid > 1018 {
        return;
    }
    if !is_valid_spiral_page(page.as_slice()) {
        return;
    }
    let off: usize = 24 + (posid as usize - 1) * 8;
    write_slot_bits(page, off, 0);
}

proof fn lemma_zero_slot(page: Seq<u8>, off: int)
    requires
        0 <= off,
        off + 8 <= page.len(),
    ensures
        le_u64(with_slot(page, off, 0), off) == 0,
{
    lemma_slot_write_read(page, off, 0);
}

proof fn lemma_with_slot_keeps_header(page: Seq<u8>, off: int, bits: u64)
    requires
        page.len() == BLCKSZ,
        HEADER_SIZE <= off,
        off + 8 <= BLCKSZ - SPECIAL_SIZE,
    ensures
        valid_spiral_page_spec(with_slot(page, off, bits)) == valid_spiral_page_spec(page),
{
    let w = with_slot(page, off, bits);
    assert(w[16] == page[16] && w[17] == page[17]);
    assert(w[8188] == page[8188] && w[8189] == page[8189] && w[8190] == page[8190] && w[8191] == page[8191]);
}

/// Law: once a row is deleted, its tuple id no longer reads as a row.
pub proof fn lemma_deleted_row_is_gone(page: Seq<u8>, blkno: int, posid: int, tenant_scale: int, kickoff: int)
    requires
        page.len() == BLCKSZ,
        posid_in_page(posid),
        valid_spiral_page_spec(page),
    ensures
        row_version_spec(with_slot(page, posid_offset(posid), 0), blkno, posid, tenant_scale, kickoff).is_none(),
{
    lemma_zero_slot(page, posid_offset(posid));
    lemma_with_slot_keeps_header(page, posid_offset(posid), 0);
    assert(0u64 & 0x7FFF_FFFF_FFFF_FFFF == 0) by (bit_vector);
}

/// What an inserted row's column is read as: the time, the tenant, the
/// value, or nothing.
#[derive(Clone, Copy, PartialEq, Eq, Structural, Debug)]
pub enum ColumnRole {
    Time,
    Tenant,
    Value,
    Ignored,
}

/// The role of a column by its name: `t` is the time; `tenant_id`,
/// `sensor_id` and `symbol_id` the tenant; `value`, `price`, `reading` and
/// `val` the value.
pub open spec fn column_role_spec(name: Seq<char>) -> ColumnRole {
    if name == "t"@ {
        ColumnRole::Time
    } else if name == "tenant_id"@ || name == "sensor_id"@ || name == "symbol_id"@ {
        ColumnRole::Tenant
    } else if name == "value"@ || name == "price"@ || name == "reading"@ || name == "val"@ {
        ColumnRole::Value
    } else {
        ColumnRole::Ignored
    }
}

/// Classifies a column of an inserted row by its name.
pub fn column_role(name: &str) -> (r: ColumnRole)
    ensures
        r == column_role_spec(name@),
{
    let c = crate::text::chars_of(name);
    if crate::text::chars_eq_str(&c, "t") {
        ColumnRole::Time
    } else if crate::text::chars_eq_str(&c, "tenant_id") || crate::text::chars_eq_str(&c, "sensor_id")
        || crate::text::chars_eq_str(&c, "symbol_id") {
        ColumnRole::Tenant
    } else if crate::text::chars_eq_str(&c, "value") || crate::text::chars_eq_str(&c, "price")
        || crate::text::chars_eq_str(&c, "reading") || crate::text::chars_eq_str(&c, "val") {
        ColumnRole::Value
    } else {
        ColumnRole::Ignored
    }
}

/// Where an inserted row goes: for a time at or after the kickoff epoch and
/// a tenant in `[0, tenant_scale)`, slot number `t_rel * tenant_scale +
/// tenant` of the 8-byte slots (the same layout a scan reads), with the
/// 1-based position it has in its page.
pub open spec fn insert_location_spec(t: int, tenant_id: int, tenant_scale: int, kickoff: int) -> Option<(u32, u32, u16)> {
    let t_rel = t - kickoff;
    if t_rel >= 0 && tenant_in_range(tenant_id, tenant_scale) {
        let (b, o) = physical_spec(slot_offset(t_rel, tenant_id, tenant_scale, 8));
        Some((b, o, ((o - HEADER_SIZE) / 8 + 1) as u16))
    } else {
        None
    }
}

/// Law: a row inserted by time and tenant is read back by a scan, at the
/// position the insert reports, as that time and tenant.
pub proof fn lemma_insert_reads_back(t: int, tenant_id: int, tenant_scale: int, kickoff: int)
    requires
        tenant_scale > 0,
        t - kickoff >= 0,
        tenant_in_range(tenant_id, tenant_scale),
        addressable(slot_offset(t - kickoff, tenant_id, tenant_scale, 8)),
    ensures
        insert_location_spec(t, tenant_id, tenant_scale, kickoff) matches Some((b, o, pos)) && slot_row_spec(
            b as int,
            pos - 1,
            tenant_scale,
            kickoff,
        ) == (t, tenant_id as i32),
{
    let lo = slot_offset(t - kickoff, tenant_id, tenant_scale, 8);
    crate::storage::lemma_physical_offset_layout(lo);
    lemma_scan_reads_back_slot(t - kickoff, tenant_id, tenant_scale, kickoff);
    let (b, o) = physical_spec(lo);
    assert(((o - HEADER_SIZE) / 8 + 1) as u16 - 1 == (o as int - HEADER_SIZE as int) / 8);
}

/// Locates the slot an inserted row is written to.
pub fn insert_location(t: i64, tenant_id: i32, tenant_scale: i64, kickoff: i64) -> (r: Option<(u32, u32, u16)>)
    requires
        crate::catalog::fits_i64(t - kickoff),
        t - kickoff >= 0 && tenant_in_range(tenant_id as int, tenant_scale as int) ==> slot_offset(
            t - kickoff,
            tenant_id as int,
            tenant_scale as int,
            8,
        ) <= i64::MAX,
    ensures
        r == insert_location_spec(t as int, tenant_id as int, tenant_scale as int, kickoff as int),
{
    let t_rel = t - kickoff;
    if t_rel >= 0 && 0 <= tenant_id as i64 && (tenant_id as i64) < tenant_scale {
        proof {
            assert(0 <= t_rel * tenant_scale <= t_rel * tenant_scale + tenant_id) by (nonlinear_arith)
                requires
                    t_rel >= 0,
                    tenant_scale > 0,
                    tenant_id >= 0,
            ;
        }
        assert(0 <= t_rel * tenant_scale * 8 <= t_rel * tenant_scale * 8 + tenant_id * 8) by (nonlinear_arith)
            requires
                t_rel >= 0,
                tenant_scale > 0,
                tenant_id >= 0,
        ;
        let index = (t_rel * tenant_scale * 8) + (tenant_id as i64 * 8);
        let (blkno, off) = crate::storage::logical_to_physical_offset(index);
        proof {
            let q = trunc_div(index as int, 8);
            assert(q >= 0);
            assert(0 <= trunc_rem(q, DATA_PER_PAGE as int) < DATA_PER_PAGE as int);
            assert(off as int == HEADER_SIZE as int + trunc_rem(q, DATA_PER_PAGE as int) * 8);
        }
        let posid = ((off - 24) / 8 + 1) as u16;
        Some((blkno, off, posid))
    } else {
        None
    }
}

/// The slot at `off` is a candidate of a scan from `from`: same alignment,
/// inside the data area's bound.
pub open spec fn scan_candidate(from: int, off: int) -> bool {
    from <= off && (off - from) % 8 == 0 && off + 8 <= BLCKSZ - SPECIAL_SIZE
}

/// Finds the next slot at or after `from` (stepping 8 bytes) whose value is
/// not zero.
pub fn next_live_slot(page: &[u8], from: u32) -> (r: Option<u32>)
    requires
        page@.len() == BLCKSZ,
    ensures
        match r {
            Some(o) => scan_candidate(from as int, o as int) && nonzero_value(le_u64(page@, o as int) as u64)
                && forall|p: int| scan_candidate(from as int, p) && p < o ==> !nonzero_value(#[trigger] le_u64(page@, p) as u64),
            None => forall|p: int| scan_candidate(from as int, p) ==> !nonzero_value(#[trigger] le_u64(page@, p) as u64),
        },
{
    let mut off: u32 = from;
    while off <= 8160
        invariant
            page@.len() == BLCKSZ,
            from <= off,
            (off - from) % 8 == 0,
            forall|p: int| scan_candidate(from as int, p) && p < off ==> !nonzero_value(#[trigger] le_u64(page@, p) as u64),
        decreases 8168 - off,
    {
        let bits = read_slot_bits(page, off as usize);
        if value_is_nonzero(bits) {
            return Some(off);
        }
        proof {
            assert forall|p: int| scan_candidate(from as int, p) && p < off + 8 implies !nonzero_value(#[trigger] le_u64(page@, p) as u64) by {
                if p >= off {
                    assert(p == off);
                }
            }
        }
        off = off + 8;
    }
    None
}

/// The number of slots of the data area whose value is not zero, among the
/// first `n`.
pub open spec fn nonzero_slots(page: Seq<u8>, n: int) -> int
    decreases n,
{
    if n <= 0 {
        0
    } else {
        nonzero_slots(page, n - 1) + if nonzero_value(le_u64(page, HEADER_SIZE as int + 8 * (n - 1)) as u64) {
            1int
        } else {
            0int
        }
    }
}

/// Counts the rows of a page for statistics: its non-zero slots when it
/// belongs to the store, else none.
pub fn count_live_values(page: &[u8]) -> (r: u64)
    requires
        page@.len() == BLCKSZ,
    ensures
        r as int == if valid_spiral_page_spec(page@) {
            nonzero_slots(page@, DATA_PER_PAGE as int)
        } else {
            0
        },
{
    if !is_valid_spiral_page(page) {
        return 0;
    }
    let mut count: u64 = 0;
    let mut i: usize = 0;
    while i < 1018
        invariant
            page@.len() == BLCKSZ,
            i <= 1018,
            count as int == nonzero_slots(page@, i as int),
            count <= i,
        decreases 1018 - i,
    {
        let bits = read_slot_bits(page, 24 + 8 * i);
        if value_is_nonzero(bits) {
            count = count + 1;
        }
        i = i + 1;
    }
    count
}

/// `a * b` clamped to the range of `i64`.
pub open spec fn saturating_mul_spec(a: int, b: int) -> int {
    if a * b > i64::MAX {
        i64::MAX as int
    } else if a * b < i64::MIN {
        i64::MIN as int
    } else {
        a * b
    }
}

fn saturating_mul(a: i64, b: i64) -> (r: i64)
    ensures
        r == saturating_mul_spec(a as int, b as int),
{
    match a.checked_mul(b) {
        Some(v) => v,
        None => {
            if (a < 0) == (b < 0) {
                proof {
                    assert(a * b > 0) by (nonlinear_arith)
                        requires
                            (a < 0) == (b < 0),
                            a != 0,
                            b != 0,
                    ;
                }
                i64::MAX
            } else {
                proof {
                    assert(a * b < 0) by (nonlinear_arith)
                        requires
                            (a < 0) != (b < 0),
                            a != 0,
                            b != 0,
                    ;
                }
                i64::MIN
            }
        },
    }
}

/// The pages a scan reads: for a time range, from the page holding the
/// range's first slot to just past the page holding its last one (capped by
/// the relation's size, slot numbers saturating, pages rounded toward zero
/// and truncated to 32 bits); without a range, every page.
pub open spec fn scan_block_range_spec(range: Option<(i64, i64)>, tenant_scale: int, total_blks: int) -> (u32, u32) {
    match range {
        Some((ts, te)) => {
            let first = trunc_div(saturating_mul_spec(ts as int, tenant_scale), DATA_PER_PAGE as int);
            let last0 = trunc_div(saturating_mul_spec(te as int, tenant_scale), DATA_PER_PAGE as int) + 1;
            let last1 = if last0 < total_blks {
                last0
            } else {
                total_blks
            };
            (
                (if first < 0 {
                    0
                } else {
                    first
                }) as u32,
                (if last1 < 0 {
                    0
                } else {
                    last1
                }) as u32,
            )
        },
        None => (0, total_blks as u32),
    }
}

/// Computes the pages a scan reads.
pub fn scan_block_range(range: Option<(i64, i64)>, tenant_scale: i64, total_blks: u32) -> (r: (u32, u32))
    ensures
        r == scan_block_range_spec(range, tenant_scale as int, total_blks as int),
{
    match range {
        Some((ts, te)) => {
            let (f, _) = div_trunc(saturating_mul(ts, tenant_scale), 1018);
            let (l, _) = div_trunc(saturating_mul(te, tenant_scale), 1018);
            proof {
                assert(crate::catalog::abs(saturating_mul_spec(te as int, tenant_scale as int)) / 1018 <= crate::catalog::abs(saturating_mul_spec(te as int, tenant_scale as int)));
            }
            let l1 = l + 1;
            let l2 = if l1 < total_blks as i64 {
                l1
            } else {
                total_blks as i64
            };
            let first = if f < 0 {
                0
            } else {
                f
            };
            let last = if l2 < 0 {
                0
            } else {
                l2
            };
            (first as u32, last as u32)
        },
        None => (0, total_blks),
    }
}

} // verus!
