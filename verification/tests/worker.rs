use spiral::worker::{
    claim_scopes_sql, group_scopes_by_base, may_claim_more, refresh_scopes_sql, scope_lock_key,
    scope_lock_sql, slot_lock_sql, work_gate_sql, SCOPE_LOCK_NS,
};

fn pair(b: &str, s: &str) -> (String, String) {
    (b.to_string(), s.to_string())
}

#[test]
fn scopes_are_grouped_by_base_in_first_seen_order() {
    let pairs = vec![
        pair("m", "{\"t\": 1}"),
        pair("n", "{}"),
        pair("m", "{\"t\": 2}"),
        pair("o", "{}"),
        pair("n", "{\"a\": 3}"),
    ];
    let groups = group_scopes_by_base(&pairs);
    assert_eq!(
        groups,
        vec![
            ("m".to_string(), vec!["{\"t\": 1}".to_string(), "{\"t\": 2}".to_string()]),
            ("n".to_string(), vec!["{}".to_string(), "{\"a\": 3}".to_string()]),
            ("o".to_string(), vec!["{}".to_string()]),
        ]
    );
    assert!(group_scopes_by_base(&vec![]).is_empty());
}

#[test]
fn scope_locks_hash_base_and_scope() {
    assert_eq!(scope_lock_key("metrics", "{\"tenant_id\": 1}"), 1471667631);
    assert_eq!(scope_lock_key("m", "{}"), -1718754386);
    assert_ne!(scope_lock_key("m", "{}"), scope_lock_key("m", "{ }"));
    assert_eq!(SCOPE_LOCK_NS, 1397773123);
}

#[test]
fn worker_statements() {
    assert_eq!(
        claim_scopes_sql(100),
        "SELECT base_view, scope_values::text FROM spiral.changelog GROUP BY base_view, scope_values ORDER BY MIN(t_start) ASC LIMIT 200"
    );
    assert_eq!(slot_lock_sql(16384, 2), "SELECT pg_try_advisory_lock(16384, 2)");
    assert_eq!(work_gate_sql(16384), "SELECT pg_try_advisory_xact_lock_shared(16384, 0)");
    assert_eq!(scope_lock_sql(-5), "SELECT pg_try_advisory_xact_lock(1397773123, -5)");
    assert_eq!(
        refresh_scopes_sql("o'm", &vec!["{\"n\": \"x'y\"}".to_string(), "{}".to_string()]),
        "SELECT spiral_refresh_scopes('o''m', '[\"{\\\"n\\\": \\\"x''y\\\"}\",\"{}\"]'::jsonb)"
    );
    assert_eq!(refresh_scopes_sql("m", &vec![]), "SELECT spiral_refresh_scopes('m', '[]'::jsonb)");
}

#[test]
fn batch_budget() {
    assert!(may_claim_more(0, 0, 1));
    assert!(!may_claim_more(0, 1, 1));
    assert!(may_claim_more(5, 3, 9));
    assert!(!may_claim_more(6, 3, 9));
}

use spiral::worker::refresh_scopes_from_json;

#[test]
fn refresh_statement_from_json_text() {
    assert_eq!(
        refresh_scopes_from_json("m", Some("[\"{\\\"a\\\":\\\"o'k\\\"}\"]")),
        "SELECT spiral_refresh_scopes('m', '[\"{\\\"a\\\":\\\"o''k\\\"}\"]'::jsonb)"
    );
    assert_eq!(refresh_scopes_from_json("m", None), "SELECT spiral_refresh_scopes('m', '[]'::jsonb)");
}

#[test]
fn scope_lists_are_escaped_as_json() {
    assert_eq!(
        refresh_scopes_sql("m", &vec!["x\ny".to_string(), "q\"t".to_string()]),
        "SELECT spiral_refresh_scopes('m', '[\"x\\ny\",\"q\\\"t\"]'::jsonb)"
    );
}
