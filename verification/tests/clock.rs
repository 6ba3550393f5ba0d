use dragonwing::clock::format_iso8601_utc;

#[test]
fn timestamps_as_text() {
    assert_eq!(format_iso8601_utc(0), "1970-01-01T00:00:00Z");
    assert_eq!(format_iso8601_utc(951_782_399), "2000-02-28T23:59:59Z");
    assert_eq!(format_iso8601_utc(951_782_400), "2000-02-29T00:00:00Z");
    assert_eq!(format_iso8601_utc(1_700_000_000), "2023-11-14T22:13:20Z");
    assert_eq!(format_iso8601_utc(4_107_542_399), "2100-02-28T23:59:59Z");
    assert_eq!(format_iso8601_utc(4_107_542_400), "2100-03-01T00:00:00Z");
    assert_eq!(format_iso8601_utc(253_402_300_800), "10000-01-01T00:00:00Z");
}

#[test]
fn the_last_timestamp_has_a_text() {
    assert_eq!(format_iso8601_utc(u64::MAX), "584554051223-11-09T07:00:15Z");
}
