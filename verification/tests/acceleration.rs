use spiral::acceleration::{order_sources, query_columns, should_rewrite, union_sql};
use spiral::catalog::OffsetColumn;
use spiral::planner::Segment;

fn seg(s: &str, a: i64, b: i64) -> Segment {
    Segment { source: s.to_string(), t_start: a, t_end: b }
}

fn strings(v: &[&str]) -> Vec<String> {
    v.iter().map(|s| s.to_string()).collect()
}

#[test]
fn rewrite_only_when_a_tier_is_read() {
    assert!(!should_rewrite("m", &vec![]));
    assert!(!should_rewrite("m", &vec![seg("m", 0, 10)]));
    assert!(should_rewrite("m", &vec![seg("m_1h", 0, 3600)]));
    assert!(should_rewrite("m", &vec![seg("m", 0, 10), seg("m", 10, 20)]));
    let many: Vec<Segment> = (0..101).map(|i| seg("m_1m", i * 60, i * 60 + 60)).collect();
    assert!(!should_rewrite("m", &many));
    let hundred: Vec<Segment> = (0..100).map(|i| seg("m_1m", i * 60, i * 60 + 60)).collect();
    assert!(should_rewrite("m", &hundred));
}

#[test]
fn sources_are_ordered_coarsest_first_then_by_name() {
    let frames = vec![("b_1m".to_string(), 60), ("a_1m".to_string(), 60), ("x_1h".to_string(), 3600)];
    let order = order_sources("m", &strings(&["b_1m", "m", "a_1m", "x_1h", "b_1m"]), &frames);
    assert_eq!(
        order,
        vec![("x_1h".to_string(), 3600), ("a_1m".to_string(), 60), ("b_1m".to_string(), 60), ("m".to_string(), 0)]
    );
}

#[test]
fn query_columns_add_aggregates_once() {
    let base = strings(&["t", "v", "tenant"]);
    let q = vec![
        ("v".to_string(), Some("sum".to_string())),
        ("v".to_string(), None),
        ("v".to_string(), Some("sum".to_string())),
        ("tenant".to_string(), Some("max".to_string())),
    ];
    assert_eq!(
        query_columns(&base, Some(&q)),
        vec![
            ("v".to_string(), None),
            ("tenant".to_string(), None),
            ("v".to_string(), Some("sum".to_string())),
            ("tenant".to_string(), Some("max".to_string())),
        ]
    );
    assert_eq!(query_columns(&base, None), vec![("v".to_string(), None), ("tenant".to_string(), None)]);
}

#[test]
fn union_reads_each_source_over_its_segments() {
    let segments = vec![seg("m_1h", 0, 3600), seg("m", 3600, 3700), seg("m_1m", 3700, 3760), seg("m_1h", 7200, 10800)];
    let times = vec![
        ("A".to_string(), "B".to_string()),
        ("C".to_string(), "D".to_string()),
        ("E".to_string(), "F".to_string()),
        ("G".to_string(), "H".to_string()),
    ];
    let cols = vec![("v".to_string(), None), ("v".to_string(), Some("SUM".to_string())), ("e".to_string(), None)];
    let offsets = vec![OffsetColumn { mat_column: "e".to_string(), formula: "range_max_end".to_string() }];
    let rows = vec![
        ("m_1h".to_string(), "v".to_string(), "stats".to_string(), "v_stats".to_string()),
        ("m_1m".to_string(), "v".to_string(), "sum".to_string(), "v".to_string()),
    ];
    let scope = vec![("tenant".to_string(), "o'k".to_string())];
    let frames = vec![("m_1m".to_string(), 60), ("m_1h".to_string(), 3600)];
    let (sql, order) = union_sql("m", &segments, &times, &cols, &offsets, &rows, &scope, &frames);
    let off = "t + make_interval(secs => \"e\"::double precision) AS \"e\"";
    let expected = format!(
        "SELECT t::timestamptz, \"v_stats\" AS spiral_col_0, \"v_stats\" AS spiral_col_1, {off} AS spiral_col_2 FROM \"m_1h\" WHERE t <@ '{{ [\"A\", \"B\"), [\"G\", \"H\") }}'::tstzmultirange AND \"tenant\" = 'o''k' UNION ALL SELECT t::timestamptz, \"v\" AS spiral_col_0, \"v\" AS spiral_col_1, {off} AS spiral_col_2 FROM \"m_1m\" WHERE t >= 'E'::timestamptz AND t < 'F'::timestamptz AND \"tenant\" = 'o''k' UNION ALL SELECT t::timestamptz, \"v\" AS spiral_col_0, \"v\" AS spiral_col_1, \"e\" AS spiral_col_2 FROM \"m\" WHERE t >= 'C'::timestamptz AND t < 'D'::timestamptz AND \"tenant\" = 'o''k'"
    );
    assert_eq!(sql, expected);
    assert_eq!(order.iter().map(|o| o.0.as_str()).collect::<Vec<_>>(), vec!["m_1h", "m_1m", "m"]);
}
