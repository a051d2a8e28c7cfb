use spiral::rollup::{calendar_field_for_seconds, parse_frames, DEFAULT_FRAMES};

#[test]
fn test_parse_frames_basic() {
    let frames = parse_frames("1m,1h,1d");
    assert_eq!(frames.len(), 3);
    assert_eq!(frames[0].seconds, 60);
    assert_eq!(frames[1].seconds, 3600);
    assert_eq!(frames[2].seconds, 86400);
    assert!(frames.iter().all(|f| f.calendar_field.is_none()));
}

#[test]
fn test_parse_frames_capital_m_month() {
    let frames = parse_frames("1h,1d,1M");
    assert_eq!(frames.len(), 3);
    assert_eq!(frames[2].seconds, 2_592_000);
    assert_eq!(frames[2].name, "1mo");
    assert_eq!(frames[2].calendar_field.as_deref(), Some("month"));
}

#[test]
fn test_parse_frames_word_suffixes() {
    let frames = parse_frames("1h,1d,1mon");
    assert_eq!(frames.len(), 3);
    assert_eq!(frames[2].seconds, 2_592_000);
    assert_eq!(frames[2].name, "1mo");
    assert_eq!(frames[2].calendar_field.as_deref(), Some("month"));

    let frames2 = parse_frames("1h,1d,1month");
    assert_eq!(frames2.len(), 3);
    assert_eq!(frames2[2].name, "1mo");
    assert_eq!(frames2[2].calendar_field.as_deref(), Some("month"));
}

#[test]
fn test_parse_frames_quarter_and_year() {
    let frames = parse_frames("1h,1Q,1Y");
    assert_eq!(frames.len(), 3);
    assert_eq!(frames[1].seconds, 7_776_000);
    assert_eq!(frames[1].calendar_field.as_deref(), Some("quarter"));
    assert_eq!(frames[2].seconds, 31_536_000);
    assert_eq!(frames[2].calendar_field.as_deref(), Some("year"));
}

#[test]
fn test_parse_frames_invalid_ignored() {
    let frames = parse_frames("0s,-1m,abc");
    assert_eq!(frames.len(), 0);
}

#[test]
fn test_calendar_field_for_seconds() {
    assert_eq!(calendar_field_for_seconds(2_592_000), Some("month"));
    assert_eq!(calendar_field_for_seconds(7_776_000), Some("quarter"));
    assert_eq!(calendar_field_for_seconds(31_536_000), Some("year"));
    assert_eq!(calendar_field_for_seconds(3600), None);
    assert_eq!(calendar_field_for_seconds(86400), None);
}

#[test]
fn documented_frame_list_with_spaces() {
    let frames = parse_frames("1m, 1h, 1M");
    assert_eq!(frames.len(), 3);
    assert_eq!(frames[0].seconds, 60);
    assert_eq!(frames[0].name, "1m");
    assert_eq!(frames[1].seconds, 3600);
    assert_eq!(frames[2].seconds, 2_592_000);
    assert!(frames[2].calendar_field.is_some());
    assert_eq!(parse_frames("0s, -1m, abc").len(), 0);
}

#[test]
fn default_frames_parse() {
    let frames = parse_frames(DEFAULT_FRAMES);
    let secs: Vec<i32> = frames.iter().map(|f| f.seconds).collect();
    assert_eq!(secs, vec![60, 86400, 2_592_000]);
}

#[test]
fn every_unit_and_word() {
    let frames = parse_frames("30s,5m,2h,3d,1w,2M,1quarter,2year,10,3mo");
    let got: Vec<(String, i32, Option<String>)> = frames
        .iter()
        .map(|f| (f.name.clone(), f.seconds, f.calendar_field.clone()))
        .collect();
    assert_eq!(
        got,
        vec![
            ("30s".to_string(), 30, None),
            ("5m".to_string(), 300, None),
            ("2h".to_string(), 7200, None),
            ("3d".to_string(), 259_200, None),
            ("1w".to_string(), 604_800, None),
            ("2mo".to_string(), 5_184_000, Some("month".to_string())),
            ("1quarter".to_string(), 7_776_000, Some("quarter".to_string())),
            ("2year".to_string(), 63_072_000, Some("year".to_string())),
            ("10".to_string(), 10, None),
            ("3mo".to_string(), 7_776_000, Some("month".to_string())),
        ]
    );
}

#[test]
fn empty_and_blank_entries_are_skipped() {
    assert_eq!(parse_frames("").len(), 0);
    assert_eq!(parse_frames(" , ,1h,").len(), 1);
    assert_eq!(parse_frames("+2h")[0].seconds, 7200);
    assert_eq!(parse_frames("1x").len(), 0);
    // A negative calendar count is rejected before its seconds are computed.
    assert_eq!(parse_frames("-5month").len(), 0);
}

use spiral::rollup::{derive_child_sql, ChildCatalog, SourceDef};

fn source(base: &str, formula: &str, mat: &str, strategy: Option<&str>) -> SourceDef {
    SourceDef {
        base_column: base.to_string(),
        formula: formula.to_string(),
        mat_column: mat.to_string(),
        rollup_gsub_strategy: strategy.map(|s| s.to_string()),
    }
}

fn catalog(parent_frame: Option<i32>, parent_sources: Vec<SourceDef>) -> ChildCatalog {
    ChildCatalog {
        child_exists: false,
        parent_frame_seconds: parent_frame,
        parent_time_column: Some("ts".to_string()),
        child_sources: vec![],
        parent_sources,
        child_columns: vec![],
        parent_columns: vec!["t".to_string(), "sensor_id".to_string(), "v".to_string()],
    }
}

#[test]
fn child_of_base_table() {
    let cat = catalog(None, vec![source("v", "stats", "v_stats", None), source("c", "count", "c", None)]);
    let (sql, sources) = derive_child_sql("t_1m", "t", 60, &vec!["sensor_id".to_string()], None, &cat);
    let expected = "CREATE TABLE t_1m AS\n             SELECT to_timestamp(((spiral(\"ts\") / 60) * 60)::double precision) as t, \"sensor_id\", spiral_stats(\"v\") as \"v_stats\", count(\"c\") as \"c\"\n             FROM t\n             GROUP BY (spiral(\"ts\") / 60) * 60, \"sensor_id\";\n             CREATE INDEX IF NOT EXISTS idx_z_t_1m ON t_1m (\n                    spiral_zorder(spiral(t), ARRAY[\"sensor_id\"]::text[])\n                );";
    assert_eq!(sql, expected);
    assert_eq!(sources.len(), 2);
    assert_eq!(sources[0].mat_column, "v_stats");
}

#[test]
fn child_of_tier_merges_states() {
    let cat = catalog(
        Some(60),
        vec![
            source("v", "stats", "v_stats", None),
            source("c", "count", "c", None),
            source("x", "ohlc", "x_o", Some("my_agg(rollup(\"\\1\")) as \"\\1\"")),
            source("r", "range_max_end", "r_end", None),
        ],
    );
    let (sql, _) = derive_child_sql("t_1d", "t_1m", 86400, &vec![], Some("month"), &cat);
    let expected = "CREATE TABLE t_1d AS\n             SELECT date_trunc('month', \"t\") as t, spiral_stats_merge(\"v_stats\") as \"v_stats\", sum(\"c\") as \"c\", my_agg(\"x_o\") as \"x_o\", max(\"r_end\") as \"r_end\"\n             FROM t_1m\n             GROUP BY date_trunc('month', \"t\");\n             CREATE UNIQUE INDEX IF NOT EXISTS idx_u_t_1d ON t_1d(t);";
    assert_eq!(sql, expected);
}

#[test]
fn child_without_sources_sums_columns() {
    let cat = catalog(None, vec![]);
    let (sql, sources) = derive_child_sql("t_1h", "t", 3600, &vec!["sensor_id".to_string()], None, &cat);
    assert!(sql.contains(", sum(\"v\") as \"v\"\n"));
    assert!(!sql.contains("sum(\"t\")"));
    assert!(!sql.contains("sum(\"sensor_id\")"));
    assert_eq!(sources.len(), 1);
    assert_eq!(
        (sources[0].base_column.as_str(), sources[0].formula.as_str(), sources[0].mat_column.as_str()),
        ("v", "sum", "v")
    );
    assert!(sources[0].rollup_gsub_strategy.is_none());
}

#[test]
fn range_offsets_from_base_table() {
    let cat = catalog(None, vec![source("until", "range_merge", "until_off", None)]);
    let (sql, _) = derive_child_sql("e_1m", "e", 60, &vec![], None, &cat);
    assert!(sql.contains("date_part('epoch', max(\"until\") - to_timestamp(((spiral(\"ts\") / 60) * 60)::double precision))::int4 as \"until_off\""));
}

#[test]
fn frames_of_a_joined_list_are_the_frames_of_each_part() {
    let view = |v: Vec<spiral::rollup::Frame>| -> Vec<(String, i32)> { v.iter().map(|f| (f.name.clone(), f.seconds)).collect() };
    let a = "1m, 2h,bad";
    let b = "1mon,0s,1d";
    let joined = view(spiral::rollup::parse_frames(&format!("{},{}", a, b)));
    let mut parts = view(spiral::rollup::parse_frames(a));
    parts.extend(view(spiral::rollup::parse_frames(b)));
    assert_eq!(joined, parts);
}
