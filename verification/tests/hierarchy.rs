use spiral::hierarchy::{base_prefix, hierarchy_tier};
use spiral::rollup::SourceDef;

fn strings(v: &[&str]) -> Vec<String> {
    v.iter().map(|s| s.to_string()).collect()
}

fn directive(col: &str, formula: &str, alias: Option<&str>) -> (String, String, Option<String>) {
    (col.to_string(), formula.to_string(), alias.map(|a| a.to_string()))
}

fn src_view(v: &[SourceDef]) -> Vec<(&str, &str, &str, Option<&str>)> {
    v.iter()
        .map(|s| {
            (s.base_column.as_str(), s.formula.as_str(), s.mat_column.as_str(), s.rollup_gsub_strategy.as_deref())
        })
        .collect()
}

#[test]
fn prefix_drops_a_trailing_frame_suffix() {
    assert_eq!(base_prefix("cpu_15m"), "cpu");
    assert_eq!(base_prefix("a_1h_2d"), "a_1h");
    assert_eq!(base_prefix("cpu_2n"), "cpu");
    assert_eq!(base_prefix("cpu_1mon"), "cpu_1mon");
    assert_eq!(base_prefix("plain"), "plain");
}

#[test]
fn first_tier_materialises_directives() {
    let custom = vec![
        directive("price", "stats", None),
        directive("vol", "sum", Some("v")),
        directive("x", "OHLC", None),
        directive("tenant_id", "sum", None),
        directive("w", "max", Some("v")),
    ];
    let t = hierarchy_tier(
        "metrics",
        "1m",
        60,
        true,
        "metrics",
        &strings(&["tenant_id", "ts"]),
        &custom,
        "ts",
        &vec![],
    )
    .unwrap();
    assert_eq!(t.child_name, "metrics_1m");
    assert_eq!(
        t.create_sql,
        "CREATE TABLE IF NOT EXISTS metrics_1m AS SELECT to_timestamp(((spiral(\"ts\") / 60) * 60)::double precision) as t, \"tenant_id\", spiral_stats(\"price\") as \"price\", sum(\"vol\") as \"v\", spiral_ohlcv(\"x\", spiral(\"ts\")) as \"x\" FROM metrics WHERE 1=0 GROUP BY (spiral(\"ts\") / 60) * 60, \"tenant_id\"; CREATE INDEX IF NOT EXISTS idx_z_metrics_1m ON metrics_1m (spiral_zorder(spiral(t), ARRAY[\"tenant_id\", \"ts\"]::text[]));"
    );
    assert_eq!(
        src_view(&t.sources),
        vec![("price", "stats", "price", None), ("vol", "sum", "v", None), ("x", "ohlcv", "x", None)]
    );
}

#[test]
fn coarser_tier_merges_parent_sources() {
    let parent = vec![
        SourceDef { base_column: "price".to_string(), formula: "stats".to_string(), mat_column: "price".to_string(), rollup_gsub_strategy: None },
        SourceDef { base_column: "vol".to_string(), formula: "sum".to_string(), mat_column: "v".to_string(), rollup_gsub_strategy: None },
        SourceDef { base_column: "x".to_string(), formula: "ohlcv".to_string(), mat_column: "x".to_string(), rollup_gsub_strategy: Some("s".to_string()) },
        SourceDef { base_column: "e".to_string(), formula: "range_merge".to_string(), mat_column: "e".to_string(), rollup_gsub_strategy: None },
        SourceDef { base_column: "t".to_string(), formula: "sum".to_string(), mat_column: "t".to_string(), rollup_gsub_strategy: None },
    ];
    let t = hierarchy_tier("m", "1h", 3600, false, "m_1m", &vec![], &vec![], "ts", &parent).unwrap();
    assert_eq!(t.child_name, "m_1h");
    assert_eq!(
        t.create_sql,
        "CREATE TABLE IF NOT EXISTS m_1h AS SELECT to_timestamp(((spiral(\"ts\") / 3600) * 3600)::double precision) as t, spiral_stats_merge(\"price\") as \"price\", sum(\"v\") as \"v\", spiral_ohlcv_merge(\"x\") as \"x\", max(\"e\") as \"e\" FROM m_1m WHERE 1=0 GROUP BY (spiral(\"ts\") / 3600) * 3600; CREATE UNIQUE INDEX IF NOT EXISTS idx_u_m_1h ON m_1h(t);"
    );
    assert_eq!(
        src_view(&t.sources),
        vec![
            ("price", "stats", "price", None),
            ("vol", "sum", "v", None),
            ("x", "ohlcv", "x", Some("s")),
            ("e", "range_merge", "e", None),
        ]
    );
}

#[test]
fn tier_named_like_its_parent_is_skipped() {
    assert!(hierarchy_tier("m", "1m", 60, false, "m_1m", &vec![], &vec![], "t", &vec![]).is_none());
}

use spiral::hierarchy::state_family_of;

#[test]
fn state_families_by_lowered_formula() {
    assert_eq!(state_family_of("stats"), Some("stats"));
    assert_eq!(state_family_of("ohlc"), Some("ohlcv"));
    assert_eq!(state_family_of("my_sketch"), Some("sketch"));
    assert_eq!(state_family_of("tdigest"), Some("tdigest"));
    assert_eq!(state_family_of("sum"), None);
}

#[test]
fn several_formulas_on_one_column_get_distinct_names() {
    // `price numeric, -- Spiral: ohlc, stats` and `vol int -- Spiral: sum`.
    let custom = vec![
        directive("price", "ohlc", None),
        directive("price", "stats", None),
        directive("vol", "sum", None),
    ];
    let t = hierarchy_tier("ticks", "1m", 60, true, "ticks", &strings(&["symbol_id"]), &custom, "t", &vec![])
        .unwrap();
    assert_eq!(
        src_view(&t.sources),
        vec![("price", "ohlcv", "price_ohlcv", None), ("price", "stats", "price_stats", None), ("vol", "sum", "vol", None)]
    );
    assert!(t.create_sql.contains("spiral_ohlcv(\"price\", spiral(\"t\")) as \"price_ohlcv\", spiral_stats(\"price\") as \"price_stats\", sum(\"vol\") as \"vol\""));
}
