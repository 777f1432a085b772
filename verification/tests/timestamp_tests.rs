use ranger::timestamp::Timestamp;

#[test]
fn display_formats_as_iso8601() {
    let ts = Timestamp { seconds: 1_700_000_000, nanoseconds: 0 };
    assert_eq!(ts.to_string(), "2023-11-14T22:13:20Z");
}

#[test]
fn display_drops_the_fraction_and_handles_the_epoch() {
    assert_eq!(Timestamp { seconds: 0, nanoseconds: 0 }.to_string(), "1970-01-01T00:00:00Z");
    assert_eq!(Timestamp { seconds: 1_700_000_000, nanoseconds: 999_999_999 }.to_string(), "2023-11-14T22:13:20Z");
}
