use spiral::backfill::{backfill_inserts, build_scan_sql, to_hex};

#[test]
fn scan_reads_scope_bucket_and_value() {
    assert_eq!(
        build_scan_sql("m", 3600, &vec!["tenant".to_string(), "re\"gion".to_string()], "price"),
        "SELECT \"tenant\"::text, \"re\"\"gion\"::text, (extract(epoch from t)::bigint / 3600) AS bucket, \"price\"::float8 AS val FROM \"m\""
    );
    assert_eq!(
        build_scan_sql("m", 60, &vec![], "v"),
        "SELECT (extract(epoch from t)::bigint / 60) AS bucket, \"v\"::float8 AS val FROM \"m\""
    );
}

#[test]
fn hex_is_lower_case_two_digits_per_byte() {
    assert_eq!(to_hex(&vec![0, 15, 16, 171, 255]), "000f10abff");
    assert_eq!(to_hex(&vec![]), "");
}

#[test]
fn inserts_carry_groups_in_batches() {
    let groups = vec![(vec!["a'b".to_string()], 5, vec![1u8, 2]), (vec!["c".to_string()], -1, vec![])];
    assert_eq!(
        backfill_inserts("m_stats", &vec!["tenant".to_string()], "st", &groups),
        vec!["INSERT INTO \"m_stats\" (\"tenant\", bucket, \"st\") VALUES ('a''b', 5, '\\x0102'::bytea), ('c', -1, '\\x'::bytea)".to_string()]
    );
    let plain: Vec<(Vec<String>, i64, Vec<u8>)> = (0..5001).map(|i| (vec![], i, vec![255u8])).collect();
    let stmts = backfill_inserts("t", &vec![], "s", &plain);
    assert_eq!(stmts.len(), 2);
    assert!(stmts[0].starts_with("INSERT INTO \"t\" (bucket, \"s\") VALUES (0, '\\xff'::bytea), (1, "));
    assert!(stmts[0].ends_with("(4999, '\\xff'::bytea)"));
    assert_eq!(stmts[1], "INSERT INTO \"t\" (bucket, \"s\") VALUES (5000, '\\xff'::bytea)");
    assert!(backfill_inserts("t", &vec![], "s", &vec![]).is_empty());
}
