use spiral::epoch::{kickoff_query, spiral, spiral_from_epoch, spiral_to_epoch, POSTGRES_EPOCH_JDATE};

#[test]
fn timestamp_origin_is_year_2000() {
    assert_eq!(spiral(0), 946684800);
    assert_eq!(POSTGRES_EPOCH_JDATE, 946684800);
    assert_eq!(spiral_from_epoch(946684800), 0);
}

#[test]
fn fraction_of_a_second_is_dropped_toward_zero() {
    assert_eq!(spiral(1_999_999), 946684801);
    assert_eq!(spiral(-1), 946684800);
    assert_eq!(spiral(-1_500_000), 946684799);
    assert_eq!(spiral_to_epoch(2_000_000), 946684802);
}

#[test]
fn epoch_round_trip() {
    let e: i64 = 1_700_000_000;
    let micros = spiral_from_epoch(e);
    assert_eq!(micros, (1_700_000_000 - 946684800) * 1_000_000);
    assert_eq!(spiral(micros), e);
    assert_eq!(spiral(spiral_from_epoch(0)), 0);
}

#[test]
fn kickoff_defaults_to_year_2000() {
    assert_eq!(kickoff_query(None), "SELECT '2000-01-01'::timestamptz");
    assert_eq!(kickoff_query(Some("")), "SELECT '2000-01-01'::timestamptz");
    assert_eq!(kickoff_query(Some("2024-03-01")), "SELECT '2024-03-01'::timestamptz");
    assert_eq!(kickoff_query(Some("a'b")), "SELECT 'a''b'::timestamptz");
}
