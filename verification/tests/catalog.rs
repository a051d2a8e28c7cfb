use spiral::catalog::{
    changelog_snapshot_sql, children_sql, coalesce_batches_sql, hierarchy_sql, is_spiral_relation_sql,
    metadata_sql, no_tables_remain, offset_columns_sql, timeline_epoch_from_row, timeline_sql,
    compute_slot_index, compute_tenant_scale, div_trunc, get_kickoff, get_tenant_scale,
    reverse_slot_index, ColumnsMetadata, Metadata, TimelineEpoch,
};

fn timeline() -> Vec<TimelineEpoch> {
    vec![
        TimelineEpoch { start_t: 0, end_t: 100, tenant_scale: 4, base_offset: 0 },
        TimelineEpoch { start_t: 100, end_t: i64::MAX, tenant_scale: 8, base_offset: 400 },
    ]
}

fn meta(tenant_scale: Option<i64>, cardinality: Option<&str>, kickoff: Option<i64>) -> Metadata {
    Metadata {
        parent_view: "BASE".to_string(),
        frame_seconds: 60,
        base_view: "sensors".to_string(),
        scope_columns: vec!["sensor_id".to_string()],
        columns_metadata: ColumnsMetadata {
            tenant_scale,
            cardinality: cardinality.map(|c| c.to_string()),
            kickoff_epoch: kickoff,
            time_column: None,
        },
    }
}

#[test]
fn flat_layout_without_epochs() {
    assert_eq!(compute_slot_index(10, 3, &[], 1024), 10 * 1024 + 3);
    assert_eq!(reverse_slot_index(10 * 1024 + 3, &[], 1024), (10, 3));
    assert_eq!(compute_tenant_scale(10, &[], 1024), 1024);
    // Rust division rounds toward zero.
    assert_eq!(reverse_slot_index(-3, &[], 4), (0, -3));
}

#[test]
fn epochs_lay_out_slots() {
    let es = timeline();
    assert_eq!(compute_slot_index(50, 2, &es, 1024), 202);
    assert_eq!(compute_slot_index(150, 5, &es, 1024), 400 + 50 * 8 + 5);
    assert_eq!(reverse_slot_index(202, &es, 1024), (50, 2));
    assert_eq!(reverse_slot_index(805, &es, 1024), (150, 5));
    assert_eq!(compute_tenant_scale(50, &es, 1024), 4);
    assert_eq!(compute_tenant_scale(150, &es, 1024), 8);
    // A time before every epoch is laid out by the first epoch...
    assert_eq!(compute_slot_index(-5, 1, &es, 1024), -5 * 4 + 1);
    // ...while its scale is read from the last one.
    assert_eq!(compute_tenant_scale(-5, &es, 1024), 8);
}

#[test]
fn slot_roundtrip_over_timeline() {
    let es = timeline();
    for t in [0i64, 1, 57, 99, 100, 101, 5000] {
        let scale = compute_tenant_scale(t, &es, 1024);
        for tenant in 0..scale {
            let slot = compute_slot_index(t, tenant, &es, 1024);
            assert_eq!(reverse_slot_index(slot, &es, 1024), (t, tenant));
        }
    }
}

#[test]
fn truncating_division() {
    assert_eq!(div_trunc(-7, 2), (-3, -1));
    assert_eq!(div_trunc(7, -2), (-3, 1));
    assert_eq!(div_trunc(-7, -2), (3, -1));
    assert_eq!(div_trunc(i64::MIN, i64::MIN), (1, 0));
    assert_eq!(div_trunc(5, i64::MIN), (0, 5));
}

#[test]
fn tenant_scale_settings() {
    assert_eq!(get_tenant_scale(&meta(Some(1000), None, None)), 1024);
    assert_eq!(get_tenant_scale(&meta(Some(1024), None, None)), 1024);
    assert_eq!(get_tenant_scale(&meta(Some(1), None, None)), 1);
    assert_eq!(get_tenant_scale(&meta(Some(0), Some("M"), None)), 1);
    assert_eq!(get_tenant_scale(&meta(Some(-5), None, None)), 1);
    assert_eq!(get_tenant_scale(&meta(Some(5), Some("T"), None)), 8);
    assert_eq!(get_tenant_scale(&meta(Some((1i64 << 62) + 1), None, None)), i64::MIN);
    assert_eq!(get_tenant_scale(&meta(None, Some("d"), None)), 16);
    assert_eq!(get_tenant_scale(&meta(None, Some("h"), None)), 128);
    assert_eq!(get_tenant_scale(&meta(None, Some("k"), None)), 1024);
    assert_eq!(get_tenant_scale(&meta(None, Some("M"), None)), 1_048_576);
    assert_eq!(get_tenant_scale(&meta(None, Some("B"), None)), 1_073_741_824);
    assert_eq!(get_tenant_scale(&meta(None, Some("T"), None)), 1_099_511_627_776);
    assert_eq!(get_tenant_scale(&meta(None, Some("kk"), None)), 1024);
    assert_eq!(get_tenant_scale(&meta(None, None, None)), 1024);
}

#[test]
fn kickoff_settings() {
    assert_eq!(get_kickoff(&meta(None, None, Some(1_700_000_000)), 946_684_800), 1_700_000_000);
    assert_eq!(get_kickoff(&meta(None, None, None), 946_684_800), 946_684_800);
}

use spiral::catalog::{dirty_ranges_sql, drop_tier_sql, metadata_insert_sql, removal_sql, source_insert_sql};

#[test]
fn dirty_range_statements() {
    assert_eq!(
        dirty_ranges_sql("o'm", -5, 10, None),
        "SELECT t_start, t_end FROM spiral.changelog\n                         WHERE base_view = 'o''m'\n                           AND (t_end IS NULL OR t_end > -5)\n                           AND (t_start IS NULL OR t_start < 10)\n                         ORDER BY t_start NULLS FIRST"
    );
    assert_eq!(
        dirty_ranges_sql("m", 0, 1, Some("{\"t\":\"a'b\"}")),
        "SELECT t_start, t_end FROM spiral.changelog\n                         WHERE base_view = 'm'\n                           AND (t_end IS NULL OR t_end > 0)\n                           AND (t_start IS NULL OR t_start < 1)\n                           AND (scope_values = '{}'::jsonb OR scope_values = '{\"t\":\"a''b\"}'::jsonb)\n                         ORDER BY t_start NULLS FIRST"
    );
}

#[test]
fn catalog_rows_are_upserted() {
    assert_eq!(
        metadata_insert_sql("m_1h", "m_1m", 3600, "m", &vec!["tenant".to_string(), "re[g]".to_string()], "{\"k\":\"o'k\"}"),
        "INSERT INTO spiral.metadata (view_name, parent_view, frame_seconds, base_view, scope_columns, columns_metadata)\n         VALUES ('m_1h', 'm_1m', 3600, 'm', '{\"tenant\",\"re{g}\"}'::text[], '{\"k\":\"o''k\"}'::jsonb)\n         ON CONFLICT (view_name) DO UPDATE SET parent_view = EXCLUDED.parent_view, frame_seconds = EXCLUDED.frame_seconds, base_view = EXCLUDED.base_view, scope_columns = EXCLUDED.scope_columns, columns_metadata = EXCLUDED.columns_metadata"
    );
    assert_eq!(
        source_insert_sql("m_1h", "m", 3600, "v", "stats", "v_s", Some("x'y"), "{}"),
        "INSERT INTO spiral.sources (view_name, base_view, frame_seconds, base_column, formula, mat_column, rollup_gsub_strategy, metadata)\n         VALUES ('m_1h', 'm', 3600, 'v', 'stats', 'v_s', 'x''y', '{}'::jsonb)\n         ON CONFLICT (view_name, base_column, formula) DO UPDATE SET base_view = EXCLUDED.base_view, frame_seconds = EXCLUDED.frame_seconds, mat_column = EXCLUDED.mat_column, rollup_gsub_strategy = EXCLUDED.rollup_gsub_strategy, metadata = EXCLUDED.metadata"
    );
    assert!(source_insert_sql("a", "b", 0, "c", "d", "e", None, "{}").contains("'e', NULL, '{}'::jsonb"));
}

#[test]
fn removal_statements() {
    let (cancel, tiers, purge) = removal_sql("o'm");
    assert_eq!(
        cancel,
        "SELECT pg_cancel_backend(pid) FROM pg_stat_activity WHERE backend_type LIKE 'Spiral Worker%' AND query LIKE '%o''m%'"
    );
    assert_eq!(tiers, "SELECT view_name FROM spiral.metadata WHERE base_view = 'o''m' AND view_name <> 'o''m'");
    assert_eq!(
        purge,
        "DELETE FROM spiral.sources   WHERE view_name = 'o''m' OR base_view = 'o''m'; DELETE FROM spiral.metadata  WHERE view_name = 'o''m' OR base_view = 'o''m'; DELETE FROM spiral.changelog WHERE base_view = 'o''m';"
    );
    assert_eq!(drop_tier_sql("m_1h"), "DROP TABLE IF EXISTS \"m_1h\" CASCADE");
}

#[test]
fn catalog_lookups_quote_their_names() {
    assert_eq!(hierarchy_sql("m"), "SELECT view_name FROM spiral.metadata WHERE base_view = 'm'");
    assert_eq!(
        children_sql("o'k"),
        "SELECT view_name FROM spiral.metadata WHERE parent_view = 'o''k' ORDER BY frame_seconds ASC"
    );
    assert_eq!(
        metadata_sql("m_1h"),
        "SELECT parent_view, frame_seconds, base_view, scope_columns, columns_metadata FROM spiral.metadata WHERE view_name = 'm_1h'"
    );
    assert_eq!(is_spiral_relation_sql("x"), "SELECT 1 FROM spiral.metadata WHERE view_name = 'x'");
    assert!(timeline_sql("t").contains("WHERE table_name = 't'"));
    assert!(timeline_sql("t").ends_with("ORDER BY start_t ASC"));
    assert!(offset_columns_sql("v").ends_with("view_name = 'v' AND formula IN ('range_max_end', 'range_merge')"));
}

#[test]
fn batches_and_snapshots() {
    let sql = coalesce_batches_sql("m", 50);
    assert!(sql.contains("/ 50 AS batch_id"));
    assert!(sql.contains("WHERE base_view = 'm'"));
    assert_eq!(
        changelog_snapshot_sql("m", None),
        "CREATE TEMP TABLE changelog_snapshot AS SELECT ctid AS old_ctid, * FROM spiral.changelog WHERE base_view = 'm'"
    );
    assert_eq!(
        changelog_snapshot_sql("m", Some("{\"a\": 1}")),
        "CREATE TEMP TABLE scope_cl_snapshot AS SELECT ctid AS old_ctid, * FROM spiral.changelog WHERE base_view = 'm' AND scope_values = '{\"a\": 1}'::jsonb"
    );
}

#[test]
fn timeline_rows_take_defaults() {
    let e = timeline_epoch_from_row(None, None, None, None);
    assert_eq!((e.start_t, e.end_t, e.tenant_scale, e.base_offset), (0, i64::MAX, 1024, 0));
    let e = timeline_epoch_from_row(Some(5), Some(9), Some(16), Some(80));
    assert_eq!((e.start_t, e.end_t, e.tenant_scale, e.base_offset), (5, 9, 16, 80));
    assert!(no_tables_remain(Some(0)));
    assert!(!no_tables_remain(Some(2)));
    assert!(!no_tables_remain(None));
}

use spiral::catalog::metadata_insert_from_json;

#[test]
fn metadata_row_from_json_text() {
    let sql = metadata_insert_from_json("m_1h", "m", 3600, "m", Some("[\"a\",\"b\"]"), "{}");
    assert!(sql.contains("VALUES ('m_1h', 'm', 3600, 'm', '{\"a\",\"b\"}'::text[], '{}'::jsonb)"));
    let none = metadata_insert_from_json("m", "BASE", 0, "m", None, "{}");
    assert!(none.contains("'{}'::text[]"));
}

use spiral::catalog::{dirty_count_sql, row_count_sql, status_hierarchy_sql};

#[test]
fn status_queries() {
    assert_eq!(
        status_hierarchy_sql("m"),
        "SELECT view_name, frame_seconds, parent_view FROM spiral.metadata WHERE base_view = 'm' ORDER BY frame_seconds ASC"
    );
    assert_eq!(row_count_sql("a\"b"), Some("SELECT count(*) FROM \"a\"\"b\"".to_string()));
    assert_eq!(row_count_sql(""), None);
    assert_eq!(dirty_count_sql("o'k"), "SELECT count(*) FROM spiral.changelog WHERE base_view = 'o''k'");
}

use spiral::catalog::purge_sql;

#[test]
fn purge_statement() {
    assert_eq!(purge_sql("m"), "DELETE FROM spiral.changelog WHERE base_view = 'm'");
}
