use spiral::display::{default_table_color, palette_color, palette_index, timespan_label};

#[test]
fn tables_get_stable_palette_slots() {
    assert_eq!(palette_index("metrics"), 3);
    assert_eq!(palette_index(""), 1);
    assert_eq!(palette_index("cpu"), 4);
    assert_eq!(palette_index("tenants_ü"), 3);
    assert_eq!(default_table_color("metrics"), "#d2a8ff");
    assert_eq!(default_table_color("cpu"), "#ffa657");
    assert_eq!(palette_color(14), "#ff4081");
}

#[test]
fn bucket_sizes_have_short_labels() {
    assert_eq!(timespan_label(0), Some("raw".to_string()));
    assert_eq!(timespan_label(30), Some("30s".to_string()));
    assert_eq!(timespan_label(60), Some("1m".to_string()));
    assert_eq!(timespan_label(3599), Some("59m".to_string()));
    assert_eq!(timespan_label(3600), Some("1h".to_string()));
    assert_eq!(timespan_label(86400), Some("1d".to_string()));
    assert_eq!(timespan_label(604800), Some("1w".to_string()));
    assert_eq!(timespan_label(2592000), Some("1mo".to_string()));
    assert_eq!(timespan_label(7776000), Some("3mo".to_string()));
    assert_eq!(timespan_label(31536000), None);
    assert_eq!(timespan_label(-5), Some("-5s".to_string()));
}
