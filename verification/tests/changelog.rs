use spiral::changelog::{changelog_event_id, events_query};

#[test]
fn decoded_inserts_report_event_ids() {
    assert_eq!(
        changelog_event_id("table spiral.changelog: INSERT: event_id[bigint]:42 base_view[text]:'m'"),
        Some(42)
    );
    assert_eq!(
        changelog_event_id("table spiral.changelog: INSERT: x[int]:1 event_id[bigint]:-7 y"),
        Some(-7)
    );
    // No space after the id: nothing is read.
    assert_eq!(changelog_event_id("table spiral.changelog: INSERT: event_id[bigint]:42"), None);
    assert_eq!(changelog_event_id("table spiral.changelog: INSERT: event_id[bigint]:4x2 z"), None);
    assert_eq!(changelog_event_id("table spiral.changelog: UPDATE: event_id[bigint]:42 z"), None);
    assert_eq!(changelog_event_id("BEGIN 1234"), None);
    assert_eq!(changelog_event_id("table spiral.changelog: INSERT: id:1 "), None);
}

#[test]
fn events_are_fetched_by_id() {
    assert_eq!(
        events_query(&vec![3, 10, -1]),
        "SELECT event_id, base_view, scope_values, t_start, t_end FROM spiral.changelog WHERE event_id IN (3,10,-1) ORDER BY event_id ASC"
    );
    assert_eq!(
        events_query(&vec![7]),
        "SELECT event_id, base_view, scope_values, t_start, t_end FROM spiral.changelog WHERE event_id IN (7) ORDER BY event_id ASC"
    );
}
