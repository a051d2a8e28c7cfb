use spiral::refresh::{
    incremental_refresh_sql, refresh_step, scope_json_to_where, select_part_of, RefreshStep,
    RefreshTarget,
};
use spiral::rollup::{derive_child_sql, ChildCatalog, SourceDef};

#[allow(clippy::too_many_arguments)]
fn expected_upsert(
    view_name: &str,
    all_cols_joined: &str,
    select_part: &str,
    source_table: &str,
    safe_key: &str,
    source_changelog_scope_match: &str,
    source_time_col: &str,
    frame_seconds: i32,
    extra_filter: &str,
    group_by_clause: &str,
    on_conflict: &str,
) -> String {
    let fm1 = frame_seconds as i64 - 1;
    format!(
        "INSERT INTO \"{view_name}\" ({all_cols_joined})
             SELECT {select_part} FROM \"{source_table}\" AS s
             WHERE EXISTS (
                 SELECT 1 FROM spiral.changelog c
                 WHERE c.base_view = '{safe_key}'
                   AND {source_changelog_scope_match}
                   AND spiral(s.\"{source_time_col}\") >= (c.t_start/{frame_seconds})*{frame_seconds}
                   AND spiral(s.\"{source_time_col}\") < ((c.t_end + {fm1})/{frame_seconds})*{frame_seconds}
             )
             {extra_filter}
             GROUP BY {group_by_clause}
             {on_conflict}"
    )
}

#[allow(clippy::too_many_arguments)]
fn expected_delete(
    view_name: &str,
    target_scope_where: &str,
    safe_key: &str,
    changelog_scope_match: &str,
    frame_seconds: i32,
    source_table: &str,
    source_time_col: &str,
    source_scope_match: &str,
) -> String {
    let fm1 = frame_seconds as i64 - 1;
    format!(
        "DELETE FROM \"{view_name}\" AS target
             WHERE {target_scope_where}
               AND EXISTS (
                 SELECT 1 FROM spiral.changelog c
                 WHERE c.base_view = '{safe_key}'
                   AND {changelog_scope_match}
                   AND spiral(target.t) >= (c.t_start/{frame_seconds})*{frame_seconds}
                   AND spiral(target.t) < ((c.t_end + {fm1})/{frame_seconds})*{frame_seconds}
               )
               AND NOT EXISTS (
                 SELECT 1 FROM \"{source_table}\" AS s
                 WHERE (spiral(s.\"{source_time_col}\") / {frame_seconds}) * {frame_seconds} = spiral(target.t)
                 {source_scope_match}
               )"
    )
}

fn strings(v: &[&str]) -> Vec<String> {
    v.iter().map(|s| s.to_string()).collect()
}

fn tier_target() -> RefreshTarget {
    RefreshTarget {
        frame_seconds: 60,
        parent_view: "BASE".to_string(),
        base_view: "t".to_string(),
        scope_columns: strings(&["sensor_id"]),
        view_columns: strings(&["t", "sensor_id", "v_stats", "c"]),
        base_time_column: Some("ts".to_string()),
    }
}

const SELECT_PART: &str = "to_timestamp(((spiral(\"ts\") / 60) * 60)::double precision) as t, \"sensor_id\", spiral_stats(\"v\") as \"v_stats\", count(\"c\") as \"c\"";

#[test]
fn scope_object_becomes_where_clause() {
    assert_eq!(scope_json_to_where("{\"tenant_id\": 42}"), Some("\"tenant_id\" = 42".to_string()));
    assert_eq!(
        scope_json_to_where("{\"b\": \"x'y\", \"a\": true}"),
        Some("\"a\" = true AND \"b\" = 'x''y'".to_string())
    );
    assert_eq!(
        scope_json_to_where("{\"we\\\"ird\": null, \"n\": 1.5, \"l\": [1,2]}"),
        Some("\"l\" = '[1,2]' AND \"n\" = 1.5 AND \"we\"\"ird\" = 'null'".to_string())
    );
    assert_eq!(scope_json_to_where("{\"f\": false}"), Some("\"f\" = false".to_string()));
}

#[test]
fn scope_object_without_entries_gives_nothing() {
    assert_eq!(scope_json_to_where("{}"), None);
    assert_eq!(scope_json_to_where("[1]"), None);
    assert_eq!(scope_json_to_where("not json"), None);
    assert_eq!(scope_json_to_where("42"), None);
}

#[test]
fn select_part_is_cut_from_creating_statement() {
    let cat = ChildCatalog {
        child_exists: false,
        parent_frame_seconds: None,
        parent_time_column: Some("ts".to_string()),
        child_sources: vec![],
        parent_sources: vec![
            SourceDef {
                base_column: "v".to_string(),
                formula: "stats".to_string(),
                mat_column: "v_stats".to_string(),
                rollup_gsub_strategy: None,
            },
            SourceDef {
                base_column: "c".to_string(),
                formula: "count".to_string(),
                mat_column: "c".to_string(),
                rollup_gsub_strategy: None,
            },
        ],
        child_columns: vec![],
        parent_columns: strings(&["t", "sensor_id", "v"]),
    };
    let (sql, _) = derive_child_sql("t_1m", "t", 60, &strings(&["sensor_id"]), None, &cat);
    assert_eq!(select_part_of(&sql), Some(SELECT_PART.to_string()));
    assert_eq!(select_part_of("SELECT a FROM x UNION SELECT b FROM y"), Some("a".to_string()));
    assert_eq!(select_part_of("SELECT  1 "), Some("1".to_string()));
    assert_eq!(select_part_of("CREATE TABLE x ()"), None);
}

#[test]
fn refresh_statements_for_scoped_tier() {
    let (up, del) = incremental_refresh_sql("t_1m", &tier_target(), SELECT_PART, None, None);
    assert_eq!(
        up,
        expected_upsert(
            "t_1m",
            "\"t\", \"sensor_id\", \"v_stats\", \"c\"",
            SELECT_PART,
            "t",
            "t",
            "(c.scope_values = '{}'::jsonb OR c.scope_values = jsonb_build_object('sensor_id', s.\"sensor_id\"))",
            "ts",
            60,
            "",
            "1, \"sensor_id\"",
            "ON CONFLICT (\"sensor_id\", \"t\") DO UPDATE SET \"v_stats\" = EXCLUDED.\"v_stats\", \"c\" = EXCLUDED.\"c\"",
        )
    );
    assert_eq!(
        del,
        expected_delete(
            "t_1m",
            "1=1",
            "t",
            "(c.scope_values = '{}'::jsonb OR c.scope_values = jsonb_build_object('sensor_id', target.\"sensor_id\"))",
            60,
            "t",
            "ts",
            "AND s.\"sensor_id\" = target.\"sensor_id\"",
        )
    );
}

#[test]
fn refresh_statements_for_one_scope() {
    let scope = "{\"sensor_id\": 7}";
    let (up, del) =
        incremental_refresh_sql("t_1m", &tier_target(), SELECT_PART, Some(scope), Some("ignored = 1"));
    assert!(up.contains("AND c.scope_values = '{\"sensor_id\": 7}'::jsonb\n"));
    assert!(up.contains("\n             AND (\"sensor_id\" = 7)\n"));
    assert!(del.contains("WHERE \"sensor_id\" = 7\n"));
    assert!(del.contains("AND c.scope_values = '{\"sensor_id\": 7}'::jsonb\n"));
}

#[test]
fn refresh_statements_for_unscoped_child_tier() {
    let target = RefreshTarget {
        frame_seconds: 3600,
        parent_view: "m_1m".to_string(),
        base_view: "o'm".to_string(),
        scope_columns: vec![],
        view_columns: strings(&["t"]),
        base_time_column: Some("ts".to_string()),
    };
    let (up, del) = incremental_refresh_sql("m_1h", &target, "t", None, Some("x > 0"));
    assert_eq!(
        up,
        expected_upsert(
            "m_1h",
            "\"t\"",
            "t",
            "m_1m",
            "o''m",
            "c.scope_values = '{}'::jsonb",
            "t",
            3600,
            "AND (x > 0)",
            "1",
            "ON CONFLICT DO NOTHING",
        )
    );
    assert_eq!(
        del,
        expected_delete("m_1h", "1=1", "o''m", "c.scope_values = '{}'::jsonb", 3600, "m_1m", "t", "")
    );
}

#[test]
fn refresh_step_decisions() {
    let t = tier_target();
    let child = "CREATE TABLE t_1m AS SELECT a FROM t";
    assert!(matches!(refresh_step("t_1m", 6, Some(&t), child, None, None), RefreshStep::GiveUp));
    assert!(matches!(refresh_step("t_1m", 0, None, child, None, None), RefreshStep::GiveUp));
    assert!(matches!(refresh_step("t_1m", 0, Some(&t), "", None, None), RefreshStep::GiveUp));
    let mut base = tier_target();
    base.frame_seconds = 0;
    assert!(matches!(refresh_step("t", 5, Some(&base), "", None, None), RefreshStep::ChildrenOnly));
    let mut no_cols = tier_target();
    no_cols.view_columns = vec![];
    assert!(matches!(refresh_step("t_1m", 0, Some(&no_cols), child, None, None), RefreshStep::GiveUp));
    match refresh_step("t_1m", 5, Some(&t), child, None, None) {
        RefreshStep::Recompute(up, _) => assert!(up.contains("\n             SELECT a FROM \"t\" AS s\n")),
        _ => panic!("expected statements"),
    }
}

#[test]
fn dirty_range_ending_mid_bucket_recomputes_the_whole_bucket() {
    let (up, del) = incremental_refresh_sql("m_1h", &tier_target_hour(), "x", None, None);
    assert!(up.contains(">= (c.t_start/3600)*3600"));
    assert!(up.contains("< ((c.t_end + 3599)/3600)*3600"));
    assert!(del.contains("< ((c.t_end + 3599)/3600)*3600"));
}

fn tier_target_hour() -> RefreshTarget {
    RefreshTarget { frame_seconds: 3600, ..tier_target() }
}
