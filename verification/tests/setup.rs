use spiral::setup::{
    anchor_and_offsets, changelog_bucket_seconds, changelog_triggers, created_query,
    magic_type_error, registration_ddl, registration_triggers, split_table_options,
    tenant_scope_columns, tier_source, tier_trigger_sql, wants_rollups, ChangeEvent, TableOption,
};

fn strings(v: &[&str]) -> Vec<String> {
    v.iter().map(|s| s.to_string()).collect()
}

#[test]
fn tiers_read_from_base_or_parent() {
    assert_eq!(tier_source("BASE", "metrics"), "metrics");
    assert_eq!(tier_source("metrics_1m", "metrics"), "metrics_1m");
}

#[test]
fn created_query_is_cut_after_as() {
    let q: String = created_query("CREATE TABLE t_1m AS\n  SELECT a FROM t;\n CREATE INDEX x").into_iter().collect();
    assert_eq!(q, "SELECT a FROM t");
    assert!(created_query("no alias here").is_empty());
}

#[test]
fn registration_creates_table_and_indexes() {
    let sql = "CREATE TABLE v_1m AS\n SELECT x FROM v GROUP BY 1;\n CREATE INDEX i";
    assert_eq!(
        registration_ddl("v_1m", &strings(&[" tenant ", "region"]), sql, false),
        strings(&[
            "CREATE TABLE IF NOT EXISTS v_1m AS SELECT * FROM (SELECT x FROM v GROUP BY 1) s LIMIT 0",
            "CREATE UNIQUE INDEX IF NOT EXISTS idx_u_v_1m ON v_1m(t, \"tenant\", \"region\")",
            "CREATE INDEX IF NOT EXISTS idx_z_v_1m ON v_1m (spiral_zorder(spiral(t), ARRAY[\"tenant\", \"region\"]::text[]))",
        ])
    );
    assert_eq!(
        registration_ddl("v_1m", &vec![], sql, false),
        strings(&[
            "CREATE TABLE IF NOT EXISTS v_1m AS SELECT * FROM (SELECT x FROM v GROUP BY 1) s LIMIT 0",
            "CREATE UNIQUE INDEX IF NOT EXISTS idx_u_v_1m ON v_1m(t)",
        ])
    );
    assert!(registration_ddl("v_1m", &vec![], sql, true).is_empty());
    assert!(registration_ddl("v_1m", &vec![], "", false).is_empty());
    assert!(registration_ddl("v_1m", &vec![], "SELECT 1", false).is_empty());
}

fn tier_trigger(base_view: &str, event: &str, event_lower: &str, transition: &str, frame_seconds: i32) -> String {
    format!(
        "CREATE OR REPLACE TRIGGER spiral_track_{base_view}_{event_lower}
                 AFTER {event} ON \"{base_view}\"
                 {transition}
                 FOR EACH STATEMENT EXECUTE FUNCTION spiral.track_changes_stmt('{base_view}', '{frame_seconds}')"
    )
}

#[test]
fn registration_triggers_on_base_tables() {
    let got = registration_triggers("BASE", "v", 60);
    assert_eq!(
        got,
        vec![
            tier_trigger("v", "INSERT", "insert", "REFERENCING NEW TABLE AS new_table ", 60),
            tier_trigger("v", "UPDATE", "update", "REFERENCING NEW TABLE AS new_table OLD TABLE AS old_table ", 60),
            tier_trigger("v", "DELETE", "delete", "REFERENCING OLD TABLE AS old_table ", 60),
        ]
    );
    assert_eq!(registration_triggers("v", "v", 60).len(), 3);
    assert!(registration_triggers("v_1m", "v", 3600).is_empty());
    assert_eq!(
        tier_trigger_sql("v", ChangeEvent::Update, -1),
        tier_trigger("v", "UPDATE", "update", "REFERENCING NEW TABLE AS new_table OLD TABLE AS old_table ", -1)
    );
}

#[test]
fn changelog_triggers_use_smallest_frame() {
    assert_eq!(changelog_bucket_seconds("1h, 1m ,1d"), 60);
    assert_eq!(changelog_bucket_seconds(""), 3600);
    assert_eq!(changelog_bucket_seconds("1M,1Q"), 2592000);
    let t = changelog_triggers("m", "1d,1h");
    assert_eq!(
        t[0],
        "CREATE OR REPLACE TRIGGER spiral_track_m_insert AFTER INSERT ON \"m\" REFERENCING NEW TABLE AS new_table  FOR EACH STATEMENT EXECUTE FUNCTION spiral.track_changes_stmt('m', '3600')"
    );
    assert_eq!(
        t[1],
        "CREATE OR REPLACE TRIGGER spiral_track_m_update AFTER UPDATE ON \"m\" REFERENCING NEW TABLE AS new_table OLD TABLE AS old_table  FOR EACH STATEMENT EXECUTE FUNCTION spiral.track_changes_stmt('m', '3600')"
    );
    assert_eq!(
        t[2],
        "CREATE OR REPLACE TRIGGER spiral_track_m_delete AFTER DELETE ON \"m\" REFERENCING OLD TABLE AS old_table  FOR EACH STATEMENT EXECUTE FUNCTION spiral.track_changes_stmt('m', '3600')"
    );
}

fn opt(ns: Option<&str>, name: &str, v: Option<&str>) -> TableOption {
    TableOption { namespace: ns.map(|s| s.to_string()), name: name.to_string(), text_value: v.map(|s| s.to_string()) }
}

#[test]
fn table_options_split_spiral_settings() {
    let opts = vec![
        opt(None, "fillfactor", Some("70")),
        opt(Some("spiral"), "frames", Some("1m,1h")),
        opt(Some("spiral"), "tenant", Some("a, b")),
        opt(Some("toast"), "autovacuum_enabled", Some("false")),
        opt(Some("spiral"), "frames", Some("1h")),
        opt(Some("spiral"), "cardinality", None),
        opt(Some("spiral"), "unknown", Some("x")),
    ];
    let (s, kept) = split_table_options(&opts);
    assert_eq!(s.frames, "1h");
    assert_eq!(s.tenant, "a, b");
    assert_eq!(s.cardinality, "");
    assert_eq!(s.time_column, "");
    assert_eq!(kept, vec![0, 3]);
    assert!(wants_rollups(&s));
    let (none, kept) = split_table_options(&vec![opt(None, "fillfactor", Some("70"))]);
    assert!(!wants_rollups(&none));
    assert_eq!(kept, vec![0]);
    let (tenant_only, kept) = split_table_options(&vec![opt(Some("spiral"), "tenant", Some("sensor_id"))]);
    assert_eq!(tenant_only.tenant, "sensor_id");
    assert!(!wants_rollups(&tenant_only));
    assert_eq!(kept, Vec::<usize>::new());
}

#[test]
fn anchor_is_setting_then_first_time_column() {
    let cols = vec![
        ("id".to_string(), 23),
        ("ts".to_string(), 1184),
        ("until".to_string(), 1184),
        ("v".to_string(), 701),
    ];
    assert_eq!(anchor_and_offsets(&cols, ""), ("ts".to_string(), strings(&["until"])));
    assert_eq!(anchor_and_offsets(&cols, "until"), ("until".to_string(), strings(&["ts"])));
    assert_eq!(anchor_and_offsets(&cols, "other"), ("other".to_string(), strings(&["ts", "until"])));
    assert_eq!(anchor_and_offsets(&vec![("v".to_string(), 701)], ""), ("t".to_string(), vec![]));
    let with_epoch = vec![("epoch".to_string(), 20), ("ts".to_string(), 1184)];
    assert_eq!(anchor_and_offsets(&with_epoch, ""), ("epoch".to_string(), strings(&["ts"])));
    let with_day = vec![("v".to_string(), 701), ("day".to_string(), 1082)];
    assert_eq!(anchor_and_offsets(&with_day, ""), ("day".to_string(), vec![]));
    let with_ts = vec![("local".to_string(), 1114)];
    assert_eq!(anchor_and_offsets(&with_ts, ""), ("local".to_string(), vec![]));
}

#[test]
fn tenant_setting_lists_scope_columns() {
    assert_eq!(tenant_scope_columns(" tenant_id , region"), strings(&["tenant_id", "region"]));
    assert_eq!(tenant_scope_columns("a,,b"), strings(&["a", "", "b"]));
}

#[test]
fn first_mistyped_directive_is_reported() {
    let cols = vec![("t".to_string(), 1184), ("label".to_string(), 25), ("amount".to_string(), 23)];
    let ok = vec![("amount".to_string(), "sum".to_string(), None)];
    assert_eq!(magic_type_error(&ok, &cols), None);
    let bad = vec![
        ("amount".to_string(), "sum".to_string(), None),
        ("amount".to_string(), "range_max_end".to_string(), None),
        ("label".to_string(), "sum".to_string(), None),
    ];
    assert_eq!(
        magic_type_error(&bad, &cols),
        Some("Spiral: formula 'range_max_end' on column 'amount' requires timestamptz".to_string())
    );
    let missing = vec![("ghost".to_string(), "stats".to_string(), None)];
    assert_eq!(
        magic_type_error(&missing, &cols),
        Some("Spiral: formula 'stats' on column 'ghost' requires numeric".to_string())
    );
}

use spiral::setup::cluster_table_sql;

#[test]
fn cluster_statement_orders_by_zorder_index() {
    let dims = vec!["tenant".to_string(), "region".to_string()];
    assert_eq!(
        cluster_table_sql("ticks", "t", &dims),
        "CREATE INDEX IF NOT EXISTS \"idx_z_ticks\" ON \"ticks\" (spiral_zorder(spiral(\"t\"), ARRAY[\"tenant\", \"region\"]::text[]));\n         CLUSTER \"ticks\" USING \"idx_z_ticks\";"
    );
    assert!(cluster_table_sql("x", "t", &vec![]).contains("ARRAY[]::text[]"));
}
