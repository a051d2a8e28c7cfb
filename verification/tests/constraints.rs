use spiral::constraints::{
    aggregate_call_supported, merge_or_branches, or_hull_of, propagate_join_constraints,
    query_shape_supported, QueryConstraint, QueryShape,
};

fn qc(varno: i32, start: Option<i64>, end: Option<i64>, scopes: &[(&str, &str)]) -> QueryConstraint {
    QueryConstraint {
        varno,
        start,
        end,
        scopes: scopes.iter().map(|(k, v)| (k.to_string(), v.to_string())).collect(),
    }
}

fn view(v: &[QueryConstraint]) -> Vec<(i32, Option<i64>, Option<i64>, Vec<(String, String)>)> {
    v.iter().map(|c| (c.varno, c.start, c.end, c.scopes.clone())).collect()
}

fn pairs(v: &[(&str, &str)]) -> Vec<(String, String)> {
    v.iter().map(|(k, x)| (k.to_string(), x.to_string())).collect()
}

#[test]
fn only_plain_aggregating_queries_are_rewritten() {
    let ok = QueryShape { has_aggs: true, has_having: false, has_distinct: false, has_window: false };
    assert!(query_shape_supported(&ok));
    assert!(!query_shape_supported(&QueryShape { has_having: true, ..ok }));
    assert!(!query_shape_supported(&QueryShape { has_distinct: true, ..ok }));
    assert!(!query_shape_supported(&QueryShape { has_window: true, ..ok }));
    assert!(!query_shape_supported(&QueryShape { has_aggs: false, ..ok }));
}

#[test]
fn aggregate_calls_without_filter_or_distinct() {
    assert!(aggregate_call_supported("sum", false, false, false, false, 1));
    assert!(!aggregate_call_supported("sum", false, false, true, false, 1));
    assert!(!aggregate_call_supported("sum", true, false, false, false, 1));
    assert!(!aggregate_call_supported("sum", false, true, false, false, 1));
    assert!(aggregate_call_supported("count", false, false, false, true, 0));
    assert!(!aggregate_call_supported("sum", false, false, false, true, 0));
    assert!(aggregate_call_supported("first", false, false, false, false, 2));
    assert!(!aggregate_call_supported("first", false, false, false, false, 1));
    assert!(!aggregate_call_supported("stddev", false, false, false, false, 1));
}

#[test]
fn join_on_time_and_scope_propagates_both_ways() {
    let cs = vec![qc(1, Some(10), Some(20), &[]), qc(2, None, None, &[("tenant", "42")])];
    let eqs = vec![(1, 2, "t".to_string()), (2, 1, "tenant".to_string())];
    let r = propagate_join_constraints(cs, &eqs);
    assert_eq!(
        view(&r),
        vec![
            (1, Some(10), Some(20), pairs(&[("tenant", "42")])),
            (2, Some(10), Some(20), pairs(&[("tenant", "42")])),
        ]
    );
}

#[test]
fn join_chain_reaches_a_new_relation() {
    let cs = vec![qc(1, Some(0), Some(60), &[])];
    let eqs = vec![(3, 2, "t".to_string()), (2, 1, "t".to_string())];
    let r = propagate_join_constraints(cs, &eqs);
    assert_eq!(
        view(&r),
        vec![(1, Some(0), Some(60), vec![]), (2, Some(0), Some(60), vec![]), (3, Some(0), Some(60), vec![])]
    );
}

#[test]
fn or_branches_keep_hull_and_common_scopes() {
    let branches = vec![
        vec![qc(1, Some(10), Some(20), &[("a", "1"), ("b", "2")])],
        vec![qc(1, Some(5), Some(15), &[("a", "1"), ("b", "3")]), qc(2, Some(0), None, &[])],
    ];
    assert_eq!(view(&or_hull_of(&branches)), vec![(1, Some(5), Some(20), pairs(&[("a", "1")]))]);
    let main = vec![qc(1, Some(0), Some(18), &[])];
    assert_eq!(view(&merge_or_branches(main, &branches)), vec![(1, Some(5), Some(18), pairs(&[("a", "1")]))]);
    let open = vec![vec![qc(1, Some(10), Some(20), &[])], vec![qc(1, None, Some(30), &[])]];
    assert_eq!(view(&or_hull_of(&open)), vec![(1, None, Some(30), vec![])]);
    assert_eq!(view(&merge_or_branches(vec![], &vec![])), vec![]);
}
