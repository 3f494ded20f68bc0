use enargeia::models::{list_of, new_id, now, parse_feed_date};

#[test]
fn parses_common_feed_dates() {
    assert!(parse_feed_date("Tue, 08 Sep 2026 14:30:00 +0000").is_some());
    // wrong weekday, as some feeds emit
    assert!(parse_feed_date("Mon, 08 Sep 2026 14:30:00 +0000").is_some());
    assert!(parse_feed_date("08 Sep 2026 14:30:00 GMT").is_some());
    assert!(parse_feed_date("2026-09-08T14:30:00Z").is_some());
    assert_eq!(
        parse_feed_date("20260908T143000Z").as_deref(),
        Some("2026-09-08T14:30:00+00:00")
    );
    assert!(parse_feed_date("2026-09-08").is_some());
    assert!(parse_feed_date("not a date").is_none());
}

#[test]
fn feed_dates_become_utc() {
    for (raw, utc) in [
        ("Tue, 08 Sep 2026 14:30:00 +0200", "2026-09-08T12:30:00+00:00"),
        ("Mon, 08 Sep 2026 14:30:00 +0000", "2026-09-08T14:30:00+00:00"),
        ("08 Sep 2026 14:30:00 GMT", "2026-09-08T14:30:00+00:00"),
        ("2026-09-08T14:30:00-05:00", "2026-09-08T19:30:00+00:00"),
        ("2026-09-08 14:30:00", "2026-09-08T14:30:00+00:00"),
        ("2026-09-08T14:30:00.25", "2026-09-08T14:30:00.250+00:00"),
        (" 2026-09-08 ", "2026-09-08T00:00:00+00:00"),
    ] {
        assert_eq!(parse_feed_date(raw).as_deref(), Some(utc), "{raw}");
    }
    assert_eq!(parse_feed_date("  "), None);
}

#[test]
fn lists_are_json_arrays_of_texts() {
    assert_eq!(list_of(r#"["a","b \"c\""]"#), vec!["a", "b \"c\""]);
    assert!(list_of("[1]").is_empty());
    assert!(list_of("nonsense").is_empty());
}

#[test]
fn identifiers_and_times_are_fresh() {
    assert_ne!(new_id(), new_id());
    assert_eq!(new_id().len(), 36);
    assert!(chrono::DateTime::parse_from_rfc3339(&now()).is_ok());
}
