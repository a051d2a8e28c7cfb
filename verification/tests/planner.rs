use spiral::planner::{data_range, resolve_segments, Segment, Tier};

fn tiers() -> Vec<Tier> {
    vec![
        Tier { name: "m".to_string(), frame_seconds: 60 },
        Tier { name: "h".to_string(), frame_seconds: 3600 },
    ]
}

fn view(v: &[Segment]) -> Vec<(&str, i64, i64)> {
    v.iter().map(|s| (s.source.as_str(), s.t_start, s.t_end)).collect()
}

#[test]
fn clean_range_uses_coarsest_tiers() {
    let r = resolve_segments("raw", 0, 7325, &tiers(), &vec![], 0, None);
    assert_eq!(view(&r), vec![("h", 0, 7200), ("m", 7200, 7320), ("raw", 7320, 7325)]);
}

#[test]
fn dirty_ranges_read_the_base_table() {
    let r = resolve_segments("raw", 0, 7325, &tiers(), &vec![(100, 200)], 0, None);
    assert_eq!(
        view(&r),
        vec![
            ("m", 0, 60),
            ("raw", 60, 240),
            ("m", 240, 3600),
            ("h", 3600, 7200),
            ("m", 7200, 7320),
            ("raw", 7320, 7325),
        ]
    );
}

#[test]
fn offset_shifts_bucket_boundaries() {
    let r = resolve_segments("raw", 0, 200, &tiers(), &vec![], 30, None);
    assert_eq!(view(&r), vec![("raw", 0, 30), ("m", 30, 150), ("raw", 150, 200)]);
}

#[test]
fn frame_cap_and_invalid_tiers() {
    let r = resolve_segments("raw", 0, 7200, &tiers(), &vec![], 0, Some(60));
    assert_eq!(view(&r), vec![("m", 0, 7200)]);
    let bad = vec![Tier { name: "z".to_string(), frame_seconds: 0 }, Tier { name: "n".to_string(), frame_seconds: -5 }];
    let r = resolve_segments("raw", 0, 130, &bad, &vec![], 0, None);
    assert_eq!(view(&r), vec![("raw", 0, 130)]);
}

#[test]
fn equal_frames_prefer_the_first_tier() {
    let t = vec![
        Tier { name: "a".to_string(), frame_seconds: 60 },
        Tier { name: "b".to_string(), frame_seconds: 60 },
    ];
    let r = resolve_segments("raw", 0, 120, &t, &vec![], 0, None);
    assert_eq!(view(&r), vec![("a", 0, 120)]);
}

#[test]
fn fully_dirty_and_empty_ranges() {
    let r = resolve_segments("raw", 0, 3600, &tiers(), &vec![(-10, 5000)], 0, None);
    assert_eq!(view(&r), vec![("raw", 0, 3600)]);
    let r = resolve_segments("raw", 100, 100, &tiers(), &vec![], 0, None);
    assert!(r.is_empty());
}

#[test]
fn segments_tile_the_range_and_avoid_dirty_data() {
    let dirty = vec![(500, 700), (650, 900), (4000, 4100)];
    let (ts, te) = (-125, 9000);
    let r = resolve_segments("raw", ts, te, &tiers(), &dirty, 15, None);
    assert_eq!(r[0].t_start, ts);
    assert_eq!(r.last().unwrap().t_end, te);
    for w in r.windows(2) {
        assert_eq!(w[0].t_end, w[1].t_start);
        assert!(w[0].source != w[1].source);
    }
    for s in &r {
        assert!(s.t_start < s.t_end);
        if s.source != "raw" {
            for &(a, b) in &dirty {
                assert!(s.t_end <= a || b <= s.t_start);
            }
        }
    }
}

fn assert_tiles(r: &[Segment], ts: i64, te: i64) {
    assert!(!r.is_empty());
    assert_eq!(r[0].t_start, ts);
    assert_eq!(r[r.len() - 1].t_end, te);
    for w in r.windows(2) {
        assert_eq!(w[0].t_end, w[1].t_start);
    }
    for s in r {
        assert!(s.t_start < s.t_end);
    }
}

#[test]
fn segments_tile_the_query_range() {
    let dirty = vec![(-500, 10), (7000, 7100), (3000, 3000 + 1), (50, 20000)];
    let r = resolve_segments("raw", -1234, 9999, &tiers(), &dirty, 17, None);
    assert_tiles(&r, -1234, 9999);
    let r = resolve_segments("raw", 5, 86400 * 2 + 7, &tiers(), &vec![(3600, 3700)], -45, Some(3600));
    assert_tiles(&r, 5, 86400 * 2 + 7);
}

#[test]
fn data_range_spans_every_observation() {
    assert_eq!(data_range(&vec![]), None);
    assert_eq!(data_range(&vec![(10, 20)]), Some((10, 20)));
    assert_eq!(data_range(&vec![(10, 20), (5, 15), (12, 30)]), Some((5, 30)));
}
