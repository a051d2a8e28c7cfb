use spiral::storage::{
    storage_figures, time_span_sql, block_from_bytes, block_location, block_point_location, block_to_bytes, decode_block_point,
    decode_block_range, encode_xor_block, is_valid_spiral_page, logical_to_physical_offset,
    slot_location, spiral_blkno_to_tenant_range, spiral_page_fill_stats, BLCKSZ, BLOCK_SIZE,
    DATA_PER_PAGE, HEADER_SIZE, SPECIAL_SIZE,
};

#[test]
fn page_layout_constants() {
    assert_eq!(HEADER_SIZE, 24);
    assert_eq!(SPECIAL_SIZE, 24);
    assert_eq!(DATA_PER_PAGE, (BLCKSZ - HEADER_SIZE - SPECIAL_SIZE) / 8);
}

#[test]
fn logical_offsets_map_to_pages() {
    assert_eq!(logical_to_physical_offset(0), (0, 24));
    assert_eq!(logical_to_physical_offset(8), (0, 32));
    assert_eq!(logical_to_physical_offset(15), (0, 32));
    assert_eq!(logical_to_physical_offset(8 * 1017), (0, 24 + 8 * 1017));
    assert_eq!(logical_to_physical_offset(8 * 1018), (1, 24));
    assert_eq!(logical_to_physical_offset(8 * 1018 * 7 + 80), (7, 104));
    // A negative offset rounds toward zero and lands before the data area.
    assert_eq!(logical_to_physical_offset(-8), (0, 16));
}

#[test]
fn slot_locations() {
    assert_eq!(slot_location(10, 3, 1024, 8), Some((10, 24 + 63 * 8)));
    assert_eq!(slot_location(0, 1, 4, 16), Some((0, 40)));
    assert_eq!(slot_location(-1, 3, 1024, 8), None);
    assert_eq!(slot_location(1, 1024, 1024, 8), None);
    assert_eq!(slot_location(1, -1, 1024, 8), None);
}

#[test]
fn block_locations() {
    assert_eq!(block_location(2, 2, 4), Some((0, 24 + 2 * 512 + 256)));
    assert_eq!(block_location(-1, 2, 4), None);
    assert_eq!(block_point_location(130, 2, 4), Some((0, 24 + 2 * 512 + 256, 2)));
    assert_eq!(block_point_location(63, 0, 4), Some((0, 24, 63)));
    assert_eq!(block_point_location(5, 4, 4), None);
}

#[test]
fn xor_blocks_roundtrip_small_deltas() {
    let values: Vec<f64> = (0..70).map(|i| 100.0 + (i as f64) * 1e-12).collect();
    let bits: Vec<u64> = values.iter().map(|v| v.to_bits()).collect();
    for w in bits.windows(2) {
        assert!(w[0] ^ w[1] < 0x1_0000);
    }
    let block = encode_xor_block(&bits);
    assert_eq!(block.data.len(), 120);
    for k in 0..61 {
        assert_eq!(decode_block_point(&block, k), bits[k]);
    }
    // Positions past the 60th delta read as the 61st sample.
    assert_eq!(decode_block_point(&block, 63), bits[60]);
    let all = decode_block_range(&block);
    assert_eq!(all, bits[..61].to_vec());
}

#[test]
fn xor_blocks_keep_only_low_delta_bits() {
    let bits = vec![100u64, 101, 103, 0x1_0000 + 103];
    let block = encode_xor_block(&bits);
    assert_eq!(decode_block_point(&block, 0), 100);
    assert_eq!(decode_block_point(&block, 1), 101);
    assert_eq!(decode_block_point(&block, 2), 103);
    assert_eq!(decode_block_point(&block, 3), 103);
    // Past the last sample the deltas are zero.
    assert_eq!(decode_block_point(&block, 10), 103);
}

#[test]
fn block_bytes_roundtrip() {
    let bits = vec![0x0102_0304_0506_0708u64, 0x0102_0304_0506_0709, 0x0102_0304_0506_ff09];
    let block = encode_xor_block(&bits);
    let bytes = block_to_bytes(&block);
    assert_eq!(bytes.len(), BLOCK_SIZE);
    assert_eq!(&bytes[..8], &[8, 7, 6, 5, 4, 3, 2, 1]);
    assert_eq!(&bytes[8..12], &[1, 0, 0, 0xf8]);
    let back = block_from_bytes(&bytes);
    assert_eq!(back.first_bits, block.first_bits);
    assert_eq!(back.data, block.data);
    assert_eq!(decode_block_point(&back, 2), bits[2]);
}

fn store_page() -> Vec<u8> {
    let mut page = vec![0u8; BLCKSZ];
    page[16] = (8168 & 0xff) as u8;
    page[17] = (8168 >> 8) as u8;
    page[8188..8192].copy_from_slice(&0x5049_5241u32.to_le_bytes());
    page
}

#[test]
fn page_validity_and_fill() {
    let zero = vec![0u8; BLCKSZ];
    assert!(!is_valid_spiral_page(&zero));
    let mut page = store_page();
    assert!(is_valid_spiral_page(&page));
    let f = spiral_page_fill_stats(Some(&page));
    assert_eq!((f.max_offset, f.live_tuples, f.dead_tuples, f.unused_slots), (1018, 0, 0, 1018));
    page[24 + 3] = 9;
    page[24 + 8 * 5 + 7] = 1;
    page[24 + 8 * 1017] = 1;
    let f = spiral_page_fill_stats(Some(&page));
    assert_eq!((f.live_tuples, f.unused_slots), (3, 1015));
    let g = spiral_page_fill_stats(None);
    assert_eq!((g.live_tuples, g.unused_slots), (0, 1018));
    page[8188] = 0;
    assert_eq!(spiral_page_fill_stats(Some(&page)).live_tuples, 0);
}

#[test]
fn page_tenant_ranges() {
    let r = spiral_blkno_to_tenant_range(0, 1024, 7);
    assert_eq!((r.t_start, r.t_end, r.tenant_start, r.tenant_end), (0, 0, 0, 1017));
    assert!(!r.is_boundary);
    assert_eq!(r.drift_records, 6);
    assert_eq!(r.tuple_count, 1018);
    assert_eq!(r.kickoff_epoch, 7);
    let r = spiral_blkno_to_tenant_range(1, 1000, 0);
    assert_eq!((r.t_start, r.t_end, r.tenant_start, r.tenant_end), (1, 2, 18, 35));
    assert!(r.is_boundary);
    assert_eq!(r.drift_records, 18);
}

#[test]
fn storage_figures_of_two_pages() {
    let f = storage_figures(2);
    assert_eq!(f.total_pages, 2);
    assert_eq!(f.total_rows_capacity, 2036);
    assert_eq!(f.projected_heap_size_bytes, 97728);
    assert_eq!(f.spiral_size_bytes, 16384);
    assert_eq!(f.spiral_size_kb, 16);
    assert_eq!(f.projected_heap_size_kb, 95);
    let empty = storage_figures(0);
    assert_eq!((empty.spiral_size_kb, empty.projected_heap_size_kb), (0, 0));
}

#[test]
fn time_span_query_uses_time_column() {
    assert_eq!(
        time_span_sql(None, "m"),
        "SELECT extract(epoch from min(t))::bigint, extract(epoch from max(t))::bigint FROM m"
    );
    assert_eq!(
        time_span_sql(Some("ts"), "m"),
        "SELECT extract(epoch from min(ts))::bigint, extract(epoch from max(ts))::bigint FROM m"
    );
}
