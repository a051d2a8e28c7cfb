use spiral::hooks::{
    build_changelog_scope_filter, date_trunc_granularity_secs, is_supported_rollup_aggregate,
    map_agg_inner, parse_magic_comments, parse_scope_predicate, reconstruction_expr,
    validate_formula_column_type, TIMESTAMPTZ_OID,
};

fn names(v: &[&str]) -> Vec<String> {
    v.iter().map(|s| s.to_string()).collect()
}

#[test]
fn supported_aggregates_ignore_case() {
    assert!(is_supported_rollup_aggregate("SUM"));
    assert!(is_supported_rollup_aggregate("Spiral_Stats_Merge"));
    assert!(is_supported_rollup_aggregate("avg"));
    assert!(!is_supported_rollup_aggregate("stddev"));
    assert!(!is_supported_rollup_aggregate("sum "));
}

#[test]
fn map_agg_inner_reads_state_fields_on_tiers() {
    assert_eq!(map_agg_inner("SUM", "v", true, "ohlcv"), "(\"v\"->>'volume')::float8");
    assert_eq!(map_agg_inner("max", "v", true, "ohlcv"), "(\"v\"->>'high')::float8");
    assert_eq!(map_agg_inner("first", "v", true, "ohlcv"), "(\"v\"->>'open')::float8");
    assert_eq!(map_agg_inner("max", "s", true, "stats"), "(\"s\"->>'max')::numeric");
    assert_eq!(map_agg_inner("min", "s", true, "stats"), "(\"s\"->>'min')::numeric");
    assert_eq!(map_agg_inner("avg", "s", true, "stats"), "\"s\"");
}

#[test]
fn map_agg_inner_accumulates_on_the_base_table() {
    assert_eq!(map_agg_inner("sum", "x", false, "stats"), "spiral_stats_accum(NULL, \"x\")");
    assert_eq!(
        map_agg_inner("sum", "x", false, "ohlcv"),
        "spiral_ohlcv_accum(NULL, \"x\", spiral(t))"
    );
    assert_eq!(
        map_agg_inner("Spiral_TDigest", "x", false, ""),
        "spiral_tdigest_accum(NULL, \"x\")"
    );
    assert_eq!(map_agg_inner("avg", "x", false, ""), "\"x\"");
}

#[test]
fn reconstruction_expr_offsets_range_columns() {
    assert_eq!(
        reconstruction_expr("end_t", "range_max_end", true),
        "t + make_interval(secs => \"end_t\"::double precision) AS \"end_t\""
    );
    assert_eq!(reconstruction_expr("c", "sum", true), "\"c\"");
    assert_eq!(reconstruction_expr("c", "range_merge", false), "\"c\"");
}

#[test]
fn scope_predicates_parse_column_and_integer() {
    assert_eq!(parse_scope_predicate(" tenant_id = 42 "), Some(("tenant_id".to_string(), 42)));
    assert_eq!(parse_scope_predicate("x=-7"), Some(("x".to_string(), -7)));
    assert_eq!(parse_scope_predicate("a = b"), None);
    assert_eq!(parse_scope_predicate("abc"), None);
    assert_eq!(parse_scope_predicate("a = 1 = 2"), None);
}

#[test]
fn changelog_filter_only_for_scope_columns() {
    let scopes = names(&["tenant_id"]);
    assert_eq!(
        build_changelog_scope_filter("tenant_id", 42, &scopes),
        Some("AND scope_values @> '{\"tenant_id\": 42}'::jsonb".to_string())
    );
    assert_eq!(
        build_changelog_scope_filter("tenant_id", -3, &scopes),
        Some("AND scope_values @> '{\"tenant_id\": -3}'::jsonb".to_string())
    );
    assert_eq!(build_changelog_scope_filter("region", 1, &scopes), None);
}

#[test]
fn date_trunc_fields_have_fixed_buckets() {
    assert_eq!(date_trunc_granularity_secs(Some("second")), Some(1));
    assert_eq!(date_trunc_granularity_secs(Some("minute")), Some(60));
    assert_eq!(date_trunc_granularity_secs(Some("hour")), Some(3600));
    assert_eq!(date_trunc_granularity_secs(Some("day")), Some(86400));
    assert_eq!(date_trunc_granularity_secs(Some("week")), None);
    assert_eq!(date_trunc_granularity_secs(None), None);
}

#[test]
fn formula_types_are_checked() {
    // A `sum` directive on a text column (oid 25) is an error.
    assert_eq!(
        validate_formula_column_type("label", "sum", 25),
        Some("Spiral: formula 'sum' on column 'label' requires numeric".to_string())
    );
    assert_eq!(
        validate_formula_column_type("v", "Stats", 25),
        Some("Spiral: formula 'Stats' on column 'v' requires numeric".to_string())
    );
    // `range_max_end` on an int column (oid 23) is an error.
    assert_eq!(
        validate_formula_column_type("amount", "range_max_end", 23),
        Some("Spiral: formula 'range_max_end' on column 'amount' requires timestamptz".to_string())
    );
    assert_eq!(validate_formula_column_type("amount", "SUM", 23), None);
    assert_eq!(validate_formula_column_type("ts", "range_merge", TIMESTAMPTZ_OID), None);
    assert_eq!(validate_formula_column_type("x", "max", 25), None);
}

#[test]
fn magic_comments_capture_directives() {
    let q = "CREATE TABLE type_mismatch (\n    t     timestamptz NOT NULL,\n    label text  -- Spiral: sum\n) WITH (spiral.frames = '1h')";
    let got = parse_magic_comments(q, &names(&["t", "label"])).unwrap();
    assert_eq!(got, vec![("label".to_string(), "sum".to_string(), None)]);
}

#[test]
fn magic_comments_split_formulas_and_aliases() {
    let q = "CREATE TABLE m (\n  t timestamptz,\n  amount int, -- Spiral: sum as total, stats , ohlcv AS bars\n  note text -- Spiral: sum\n)";
    let got = parse_magic_comments(q, &names(&["t", "amount"])).unwrap();
    assert_eq!(
        got,
        vec![
            ("amount".to_string(), "sum".to_string(), Some("total".to_string())),
            ("amount".to_string(), "stats".to_string(), None),
            ("amount".to_string(), "ohlcv".to_string(), Some("bars".to_string())),
        ]
    );
}

#[test]
fn magic_comments_ignore_prose_and_unknown_columns() {
    let prose = "CREATE TABLE prose_comment (\n    t   timestamptz NOT NULL,\n    val double precision\n    -- Note: the Spiral: sum formula is documented elsewhere\n) WITH (spiral.frames = '1h')";
    assert!(parse_magic_comments(prose, &names(&["t", "val"])).unwrap().is_empty());
    let q = "CREATE TABLE u (\n  ghost int -- Spiral: sum\n)";
    assert!(parse_magic_comments(q, &names(&["t"])).unwrap().is_empty());
}

use spiral::hooks::{formula_type_error, is_rollup_aggregate_name, map_agg_lowered};

#[test]
fn lowered_names_drive_the_aggregate_logic() {
    assert!(is_rollup_aggregate_name("spiral_sketch_merge"));
    assert!(!is_rollup_aggregate_name("SUM"));
    assert_eq!(map_agg_lowered("sum", "px", true, "ohlcv"), "(\"px\"->>'volume')::float8");
    assert_eq!(map_agg_lowered("spiral_stats", "v", false, ""), "spiral_stats_accum(NULL, \"v\")");
    assert_eq!(
        formula_type_error("c", "Stats", "stats", 25),
        Some("Spiral: formula 'Stats' on column 'c' requires numeric".to_string())
    );
    assert_eq!(formula_type_error("c", "Stats", "stats", 701), None);
}

#[test]
fn multi_word_formula_is_refused() {
    let q = "CREATE TABLE _reentry_bad (\n    t timestamptz,\n    v float8  -- Spiral: bad formula here\n) WITH (spiral.frames = '1h')";
    assert_eq!(
        parse_magic_comments(q, &names(&["t", "v"])),
        Err("Spiral: formula 'bad formula here' on column 'v' must be a single word".to_string())
    );
    let ok_then_bad = "CREATE TABLE m (\n  a int, -- Spiral: sum\n  b int -- Spiral: stats, sum of things\n)";
    assert_eq!(
        parse_magic_comments(ok_then_bad, &names(&["a", "b"])),
        Err("Spiral: formula 'sum of things' on column 'b' must be a single word".to_string())
    );
}
