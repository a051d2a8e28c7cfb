use spiral::validate::{row_key, validation_plan, ColumnKind, ValidationPlan};

fn src(b: &str, f: &str, m: &str) -> (String, String, String) {
    (b.to_string(), f.to_string(), m.to_string())
}

#[test]
fn plan_without_sources() {
    assert!(matches!(
        validation_plan("m_1h", "m", &vec![], &vec![], "a", "b"),
        ValidationPlan::NoSources
    ));
}

#[test]
fn plan_with_only_unchecked_formulas() {
    let sources = vec![src("q", "max", "q"), src("r", "range_merge", "r")];
    assert!(matches!(
        validation_plan("m_1h", "m", &vec![], &sources, "a", "b"),
        ValidationPlan::NothingToValidate
    ));
}

#[test]
fn plan_queries_with_scope() {
    let sources = vec![
        src("val", "sum", "val"),
        src("x", "stats", "x_s"),
        src("q", "max", "q"),
        src("p", "ohlcv", "bars"),
        src("k", "sketch", "k"),
    ];
    let plan = validation_plan(
        "m_1h",
        "m",
        &vec!["tenant".to_string()],
        &sources,
        "2026-05-19T10:00:00Z",
        "2026-05-19T11:00:00Z",
    );
    match plan {
        ValidationPlan::Queries { base_sql, rollup_sql, columns } => {
            assert_eq!(
                base_sql,
                "SELECT \"tenant\",  sum(\"val\") as \"val\", spiral_stats(\"x\") as \"x_s\", sum(\"p\") as \"bars_v\", spiral_sketch(\"k\") as \"k\" FROM \"m\" WHERE t >= '2026-05-19T10:00:00Z' AND t < '2026-05-19T11:00:00Z'  GROUP BY \"tenant\""
            );
            assert_eq!(
                rollup_sql,
                "SELECT \"tenant\",  sum(\"val\") as \"val\", spiral_stats_merge(\"x_s\") as \"x_s\", sum(\"bars_v\") as \"bars_v\", spiral_sketch_merge(\"k\") as \"k\" FROM \"m_1h\" WHERE t >= '2026-05-19T10:00:00Z' AND t < '2026-05-19T11:00:00Z'  GROUP BY \"tenant\""
            );
            assert_eq!(
                columns,
                vec![
                    ("val".to_string(), ColumnKind::Numeric),
                    ("x_s".to_string(), ColumnKind::Complex),
                    ("bars_v".to_string(), ColumnKind::Numeric),
                    ("k".to_string(), ColumnKind::Complex),
                ]
            );
        }
        _ => panic!("expected queries"),
    }
}

#[test]
fn plan_queries_without_scope() {
    let sources = vec![src("c", "count", "c"), src("d", "tdigest", "d")];
    match validation_plan("v_test_1m", "v\"test", &vec![], &sources, "a", "b") {
        ValidationPlan::Queries { base_sql, rollup_sql, .. } => {
            assert_eq!(
                base_sql,
                "SELECT  sum(\"c\") as \"c\", spiral_tdigest(\"d\") as \"d\" FROM \"v\"\"test\" WHERE t >= 'a' AND t < 'b' "
            );
            assert_eq!(
                rollup_sql,
                "SELECT  sum(\"c\") as \"c\", spiral_tdigest_merge(\"d\") as \"d\" FROM \"v_test_1m\" WHERE t >= 'a' AND t < 'b' "
            );
        }
        _ => panic!("expected queries"),
    }
}

#[test]
fn row_keys_join_scope_values() {
    assert_eq!(row_key(&vec![]), "TOTAL");
    assert_eq!(row_key(&vec![Some("a".to_string()), None]), "a|NULL");
    assert_eq!(row_key(&vec![Some("7".to_string())]), "7");
}

use spiral::validate::missing_keys;

#[test]
fn base_rows_without_tier_rows_are_missing() {
    let s = |v: &[&str]| v.iter().map(|x| x.to_string()).collect::<Vec<String>>();
    assert_eq!(missing_keys(&s(&["TOTAL"]), &s(&[])), s(&["TOTAL"]));
    assert_eq!(missing_keys(&s(&["a|1", "b|2", "c|3"]), &s(&["b|2"])), s(&["a|1", "c|3"]));
    assert_eq!(missing_keys(&s(&["a"]), &s(&["a"])), Vec::<String>::new());
}
