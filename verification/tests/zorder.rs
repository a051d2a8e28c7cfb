use spiral::zorder::{
    decode_zorder_2d, fnv1a_64, generate_z_ranges_2d, hilbert_encode, interleave_64,
    spiral_hilbert_2d, spiral_zorder, spiral_zorder_3d, spiral_zorder_contained_by,
    spiral_zorder_core, spiral_zorder_int_array, spiral_zorder_int_array_core, spread_64,
    spread_64_back, zorder_3d_core,
};

#[test]
fn test_zorder_zero() {
    assert_eq!(spiral_zorder_core(0, vec![]), 0);
}

#[test]
fn test_zorder_int_array_basic() {
    assert_eq!(spiral_zorder_int_array_core(1, vec![1]), 3);
}

#[test]
fn test_zorder_3d_basic() {
    assert_eq!(zorder_3d_core(1, 1, 1), 7);
    assert_eq!(zorder_3d_core(2, 0, 0), 8);
}

#[test]
fn test_zorder_large_timestamp_does_not_wrap() {
    let t_over_u32 = u32::MAX as i64 + 1;
    assert_ne!(
        spiral_zorder_int_array_core(t_over_u32, vec![0]),
        spiral_zorder_int_array_core(0, vec![0])
    );
}

#[test]
fn test_zorder_no_collision_within_full_range() {
    let r1 = spiral_zorder_int_array_core(1 << 16, vec![0]);
    let r2 = spiral_zorder_int_array_core((1 << 16) + 1, vec![0]);
    assert_ne!(r1, r2);

    let r3 = spiral_zorder_int_array_core(1_i64 << 32, vec![0]);
    assert_ne!(r3, spiral_zorder_int_array_core(0, vec![0]));
}

#[test]
fn test_zorder_ordering_preserved() {
    let results: Vec<u128> = (0..4)
        .map(|t| spiral_zorder_int_array_core(t, vec![0]))
        .collect();
    for w in results.windows(2) {
        assert!(w[0] < w[1], "z-order not monotone: {} >= {}", w[0], w[1]);
    }
}

#[test]
fn test_zorder_u32_boundary() {
    let near_max = u32::MAX as i64 - 1;
    let at_max = u32::MAX as i64;
    let r1 = spiral_zorder_int_array_core(near_max, vec![0]);
    let r2 = spiral_zorder_int_array_core(at_max, vec![0]);
    assert!(r1 < r2, "z-order not monotone near u32::MAX: {} >= {}", r1, r2);
}

#[test]
fn test_zorder_3d_uses_42_bits() {
    let x = 1i64 << 41;
    let result = zorder_3d_core(x, 0, 0);
    let expected: u128 = 1u128 << 123;
    assert_eq!(result, expected);
}

#[test]
fn test_zorder_deterministic() {
    let r1 = spiral_zorder_core(
        12345,
        vec![Some("sensor_a".to_string()), Some("region_eu".to_string())],
    );
    let r2 = spiral_zorder_core(
        12345,
        vec![Some("sensor_a".to_string()), Some("region_eu".to_string())],
    );
    assert_eq!(r1, r2);
}

#[test]
fn test_zorder_string_hash_stable() {
    assert_eq!(fnv1a_64(b""), 0xcbf2_9ce4_8422_2325);
    assert_eq!(fnv1a_64(b"sensor_a"), 11_461_482_958_241_160_951_u64);

    assert_ne!(fnv1a_64(b"sensor_a"), fnv1a_64(b"sensor_b"));

    let r1 = spiral_zorder_core(
        12345,
        vec![Some("sensor_a".to_string()), Some("region_eu".to_string())],
    );
    let r2 = spiral_zorder_core(
        12345,
        vec![Some("sensor_a".to_string()), Some("region_eu".to_string())],
    );
    assert_eq!(r1, r2, "z-order must be deterministic across calls");

    let za = spiral_zorder_core(0, vec![Some("tenant_a".to_string())]);
    let zb = spiral_zorder_core(0, vec![Some("tenant_b".to_string())]);
    assert_ne!(za, zb, "different tenant strings must not collide");
}

#[test]
fn test_zorder_monotone_for_fixed_string_dimension() {
    let tenant = Some("42".to_string());
    let timestamps: Vec<i64> = vec![0, 1, 100, 1000, 86400, 2_000_000, i32::MAX as i64, i64::MAX];
    let zorders: Vec<u128> = timestamps
        .iter()
        .map(|&t| spiral_zorder_core(t, vec![tenant.clone()]))
        .collect();
    for w in zorders.windows(2) {
        assert!(
            w[0] < w[1],
            "z-order not monotone for fixed tenant: {} >= {} (t values: {:?})",
            w[0],
            w[1],
            timestamps
        );
    }
}

#[test]
fn hilbert_first_cells() {
    assert_eq!(hilbert_encode(0, 0), 0);
    assert_eq!(hilbert_encode(1, 0), 1);
    assert_eq!(hilbert_encode(1, 1), 2);
    assert_eq!(hilbert_encode(0, 1), 3);
}

#[test]
fn decode_inverts_interleave() {
    let x = 123456789u64;
    let y = 987654321u64;
    let z = interleave_64(x, y);
    assert_eq!(decode_zorder_2d(z), (x, y));
    assert_eq!(spread_64_back(spread_64(x)), x);
    assert_eq!(spread_64(0b11), 0b101);
    assert_eq!(interleave_64(0, 1), 2);
    assert_eq!(interleave_64(u64::MAX, u64::MAX), u128::MAX);
}

#[test]
fn z_ranges_of_small_boxes() {
    assert_eq!(generate_z_ranges_2d(0, 0, 1, 1), vec![(0, 3)]);
    assert_eq!(generate_z_ranges_2d(0, 0, 0, 0), vec![(0, 0)]);
    assert_eq!(generate_z_ranges_2d(2, 0, 2, 0), vec![(4, 4)]);
}

#[test]
fn z_ranges_cover_box_points() {
    let (min_x, min_y, max_x, max_y) = (3u64, 1u64, 6u64, 5u64);
    let ranges = generate_z_ranges_2d(min_x, min_y, max_x, max_y);
    for x in 0..10u64 {
        for y in 0..10u64 {
            let k = interleave_64(x, y);
            let inside = min_x <= x && x <= max_x && min_y <= y && y <= max_y;
            let covered = ranges.iter().any(|&(a, b)| a <= k && k <= b);
            assert_eq!(inside, covered, "point ({}, {})", x, y);
        }
    }
}

#[test]
fn sql_keys_render_as_decimal_text() {
    assert_eq!(spiral_zorder(0, vec![]), "0");
    assert_eq!(spiral_zorder_int_array(1, vec![1]), "3");
    assert_eq!(spiral_zorder_3d(1, 1, 1), "7");
    assert_eq!(spiral_zorder_3d(1i64 << 41, 0, 0), (1u128 << 123).to_string());
    assert_eq!(spiral_hilbert_2d(1, 1), "2");
    assert_eq!(spiral_zorder_int_array(-1, vec![]), interleave_64(u64::MAX, 0).to_string());
    let key = spiral_zorder_core(7, vec![Some("sensor_a".to_string()), None]);
    assert_eq!(spiral_zorder(7, vec![Some("sensor_a".to_string()), None]), key.to_string());
}

#[test]
fn contained_by_decodes_the_key() {
    assert!(spiral_zorder_contained_by("3", 0, 0, 1, 1));
    assert!(spiral_zorder_contained_by("+3", 1, 1, 1, 1));
    assert!(!spiral_zorder_contained_by("3", 0, 0, 0, 1));
    // 8 is bit 3, the second bit of y: the point (0, 2).
    assert!(spiral_zorder_contained_by("8", 0, 2, 0, 2));
    assert!(!spiral_zorder_contained_by("8", 0, 0, 5, 1));
    // Text that does not parse counts as key 0, the point (0, 0).
    assert!(!spiral_zorder_contained_by("abc", 1, 1, 2, 2));
    assert!(spiral_zorder_contained_by("abc", 0, 0, 0, 0));
    assert!(spiral_zorder_contained_by("1.5", 0, 0, 0, 0));
}

#[test]
fn z_ranges_come_out_sorted_and_apart() {
    let r = spiral::zorder::generate_z_ranges_2d(3, 5, 40, 21);
    assert!(!r.is_empty());
    for w in r.windows(2) {
        assert!(w[0].0 <= w[0].1);
        assert!(w[0].1 < w[1].0);
    }
}
