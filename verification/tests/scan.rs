use spiral::scan::{
    column_role, count_live_values, spiral_tuple_delete, spiral_tuple_fetch_row_version, insert_location,
    next_live_slot, read_slot_bits, scan_block_range, slot_row, spiral_tuple_tid_valid,
    value_is_nonzero, write_slot_bits, ColumnRole,
};
use spiral::storage::{slot_location, BLCKSZ};

fn store_page() -> Vec<u8> {
    let mut page = vec![0u8; BLCKSZ];
    page[16] = (8168 & 0xff) as u8;
    page[17] = (8168 >> 8) as u8;
    page[8188..8192].copy_from_slice(&0x5049_5241u32.to_le_bytes());
    page
}

#[test]
fn zero_values_and_nan() {
    assert!(!value_is_nonzero(0.0f64.to_bits()));
    assert!(!value_is_nonzero((-0.0f64).to_bits()));
    assert!(value_is_nonzero(1.5f64.to_bits()));
    assert!(value_is_nonzero(f64::NAN.to_bits()));
    assert!(value_is_nonzero(f64::MIN_POSITIVE.to_bits()));
}

#[test]
fn slots_write_and_read() {
    let mut page = store_page();
    write_slot_bits(&mut page, 24 + 8 * 5, 42.25f64.to_bits());
    assert_eq!(f64::from_bits(read_slot_bits(&page, 24 + 8 * 5)), 42.25);
    assert_eq!(&page[64..72], &42.25f64.to_le_bytes());
}

#[test]
fn scan_finds_live_slots() {
    let mut page = store_page();
    assert_eq!(next_live_slot(&page, 24), None);
    write_slot_bits(&mut page, 24 + 8 * 3, 1.0f64.to_bits());
    write_slot_bits(&mut page, 24 + 8 * 7, (-0.0f64).to_bits());
    write_slot_bits(&mut page, 24 + 8 * 9, 2.0f64.to_bits());
    assert_eq!(next_live_slot(&page, 24), Some(48));
    assert_eq!(next_live_slot(&page, 56), Some(96));
    assert_eq!(next_live_slot(&page, 104), None);
    assert_eq!(count_live_values(&page), 2);
    assert_eq!(count_live_values(&vec![0u8; BLCKSZ]), 0);
}

#[test]
fn rows_read_back_from_slots() {
    assert_eq!(slot_row(0, 5, 4, 1000), (1001, 1));
    assert_eq!(slot_row(2, 0, 1024, 0), (1, 1018 * 2 - 1024));
    // A reading placed by time and tenant is scanned back as that time and tenant.
    let (t_rel, tenant, scale, kickoff) = (12_345i64, 77i64, 1024i64, 946_684_800i64);
    let (blkno, off) = slot_location(t_rel, tenant, scale, 8).unwrap();
    let (t, tid) = slot_row(blkno, (off - 24) / 8, scale, kickoff);
    assert_eq!((t, tid as i64), (t_rel + kickoff, tenant));
}

#[test]
fn row_versions_and_deletes() {
    let mut page = store_page();
    write_slot_bits(&mut page, 24 + 8 * 2, 3.5f64.to_bits());
    assert_eq!(spiral_tuple_fetch_row_version(&page, 0, 3, 4, 100), Some((100, 2, 3.5f64.to_bits())));
    assert_eq!(spiral_tuple_fetch_row_version(&page, 0, 4, 4, 100), None);
    assert_eq!(spiral_tuple_fetch_row_version(&page, 0, 0, 4, 100), None);
    assert_eq!(spiral_tuple_fetch_row_version(&page, 0, 1019, 4, 100), None);
    spiral_tuple_delete(&mut page, 3);
    assert_eq!(spiral_tuple_fetch_row_version(&page, 0, 3, 4, 100), None);
    let mut plain = vec![0u8; BLCKSZ];
    plain[40] = 9;
    spiral_tuple_delete(&mut plain, 3);
    assert_eq!(plain[40], 9);
}

#[test]
fn tuple_ids() {
    assert!(spiral_tuple_tid_valid(0, 1, 1));
    assert!(spiral_tuple_tid_valid(3, 1018, 4));
    assert!(!spiral_tuple_tid_valid(4, 1, 4));
    assert!(!spiral_tuple_tid_valid(0, 0, 4));
    assert!(!spiral_tuple_tid_valid(0, 1019, 4));
}

#[test]
fn insert_locations() {
    assert_eq!(column_role("t"), ColumnRole::Time);
    assert_eq!(column_role("sensor_id"), ColumnRole::Tenant);
    assert_eq!(column_role("reading"), ColumnRole::Value);
    assert_eq!(column_role("other"), ColumnRole::Ignored);
    // Tenant 9 at the kickoff second is slot 9.
    assert_eq!(insert_location(100, 9, 1024, 100), Some((0, 24 + 8 * 9, 10)));
    assert_eq!(insert_location(99, 9, 1024, 100), None);
    assert_eq!(insert_location(100, 1024, 1024, 100), None);
    // Slot 8192 is slot 48 of page 8.
    assert_eq!(insert_location(108, 0, 1024, 100), Some((8, 24 + 8 * 48, 49)));
    // (t 1, tenant 1) is slot 1025: slot 7 of page 1, read back as (1, 1).
    assert_eq!(insert_location(1, 1, 1024, 0), Some((1, 24 + 8 * 7, 8)));
    assert_eq!(slot_row(1, 7, 1024, 0), (1, 1));
}

#[test]
fn scan_block_ranges() {
    assert_eq!(scan_block_range(None, 1024, 50), (0, 50));
    assert_eq!(scan_block_range(Some((10, 20)), 1024, 50), (10, 21));
    assert_eq!(scan_block_range(Some((10, 20)), 1024, 15), (10, 15));
    assert_eq!(scan_block_range(Some((-5, -1)), 1024, 15), (0, 0));
    assert_eq!(scan_block_range(Some((0, i64::MAX)), 1024, 15), (0, 15));
}
