use spiral::server::valid_identifier;

#[test]
fn identifiers_are_alphanumeric_or_underscore() {
    assert!(valid_identifier("metrics_1h"));
    assert!(valid_identifier("Sensor42"));
    assert!(!valid_identifier(""));
    assert!(!valid_identifier("drop table"));
    assert!(!valid_identifier("a;b"));
    assert!(!valid_identifier("x\"y"));
    assert!(!valid_identifier("naïve"));
    assert!(!valid_identifier("1abc"));
}

use spiral::server::{
    block_flags, block_time_sql, clamp_limit, db_error_kind, explain_statement, pagemap_sql,
    raw_view_name, slice_sql, DbErrorKind,
};

#[test]
fn explain_accepts_only_reads() {
    assert_eq!(explain_statement("  select 1 "), Some("EXPLAIN (ANALYZE, BUFFERS) select 1".to_string()));
    assert_eq!(
        explain_statement("With x AS (SELECT 1) SELECT * FROM x"),
        Some("EXPLAIN (ANALYZE, BUFFERS) With x AS (SELECT 1) SELECT * FROM x".to_string())
    );
    assert_eq!(explain_statement("\nexplain select 1"), Some("explain select 1".to_string()));
    // Upper-casing is Unicode's: the long s becomes `S`.
    assert_eq!(explain_statement("ſelect 1"), Some("EXPLAIN (ANALYZE, BUFFERS) ſelect 1".to_string()));
    assert_eq!(explain_statement("DELETE FROM t"), None);
    assert_eq!(explain_statement(""), None);
}

#[test]
fn database_errors_are_classified() {
    assert_eq!(db_error_kind("canceling statement due to lock timeout"), DbErrorKind::LockTimeout);
    assert_eq!(db_error_kind("error 55P03"), DbErrorKind::LockTimeout);
    assert_eq!(db_error_kind("canceling statement due to statement timeout"), DbErrorKind::StatementTimeout);
    assert_eq!(db_error_kind("SQLSTATE 57014"), DbErrorKind::StatementTimeout);
    assert_eq!(db_error_kind("relation does not exist"), DbErrorKind::Other);
}

#[test]
fn limits_default_and_cap() {
    assert_eq!(clamp_limit(None, 100, 500), 100);
    assert_eq!(clamp_limit(Some(900), 100, 500), 500);
    assert_eq!(clamp_limit(Some(7), 2000, 5000), 7);
    assert_eq!(clamp_limit(Some(-3), 2000, 5000), -3);
}

#[test]
fn inspection_statements() {
    assert_eq!(
        block_time_sql("ts", "m", 4),
        "SELECT \n                (SELECT extract(epoch from \"ts\")::bigint FROM \"m\" WHERE ctid >= '(4,0)'::tid AND ctid < '(5,0)'::tid ORDER BY \"ts\" ASC LIMIT 1),\n                (SELECT extract(epoch from \"ts\")::bigint FROM \"m\" WHERE ctid >= '(4,0)'::tid AND ctid < '(5,0)'::tid ORDER BY \"ts\" DESC LIMIT 1)"
    );
    assert_eq!(
        pagemap_sql("ts", "m"),
        "SELECT (ctid::text::point)[0]::int AS blkno, extract(epoch from min(\"ts\"))::bigint AS t_start, extract(epoch from max(\"ts\"))::bigint AS t_end FROM \"m\" GROUP BY 1 ORDER BY 1"
    );
    assert_eq!(
        slice_sql("m_1h", "t", "tenant_id"),
        "SELECT json_agg(row_to_json(d)) FROM (\n           SELECT *\n           FROM m_1h\n           WHERE t >= to_timestamp($1)\n             AND t < to_timestamp($2)\n           ORDER BY t, tenant_id\n           LIMIT $3\n         ) d"
    );
}

#[test]
fn raw_view_is_base_or_unbucketed() {
    let v = |x: &[(&str, i32)]| x.iter().map(|(n, f)| (n.to_string(), *f)).collect::<Vec<_>>();
    assert_eq!(raw_view_name("m", &v(&[("m_1m", 60), ("m", 3600), ("z", 0)])), "m");
    assert_eq!(raw_view_name("m", &v(&[("m_1m", 60), ("r", 0)])), "r");
    assert_eq!(raw_view_name("m", &v(&[("m_1m", 60), ("m_1h", 3600)])), "m_1m");
    assert_eq!(raw_view_name("m", &vec![]), "m");
}

#[test]
fn block_flags_from_changelog_and_page() {
    assert_eq!(block_flags(10, 20, 3, true, 5), (3, true, false));
    assert_eq!(block_flags(0, 20, 3, true, 0), (0, false, true));
    assert_eq!(block_flags(10, 20, 0, false, 0), (0, false, false));
}

use spiral::server::explain_for;

#[test]
fn explain_decides_on_the_upper_cased_text() {
    assert_eq!(explain_for("select 1", "SELECT 1"), Some("EXPLAIN (ANALYZE, BUFFERS) select 1".to_string()));
    assert_eq!(explain_for("explain select 1", "EXPLAIN SELECT 1"), Some("explain select 1".to_string()));
    assert_eq!(explain_for("drop table t", "DROP TABLE T"), None);
}
