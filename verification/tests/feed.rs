use scriptview::feed::parse;
use scriptview::timefmt::format_timestamp;

#[test]
fn test_parse_empty_array() {
    let entries = parse("[]").expect("empty array is well-formed");
    assert_eq!(entries.len(), 0);
    let entries = parse("  [ \n ]  ").expect("whitespace around the array is fine");
    assert_eq!(entries.len(), 0);
}

#[test]
fn test_parse_single_entry() {
    let raw = "[{\"text\":\"Hello\",\"start_time\":1.5,\"timestamp\":42}]";
    let entries = parse(raw).expect("well-formed entry");
    assert_eq!(entries.len(), 1);
    assert_eq!(entries[0].text, "Hello");
    assert_eq!(entries[0].start_time_ms, 1500);
    assert_eq!(entries[0].end_time_ms, None);
    assert_eq!(entries[0].timestamp, 42);
}

#[test]
fn test_parse_several_entries_any_key_order() {
    let raw = "[ {\"start_time\": 0.0, \"text\": \"a\", \"timestamp\": 1},\n  {\"timestamp\": 2, \"text\": \"b\", \"start_time\": 2.75} ]";
    let entries = parse(raw).expect("two entries");
    assert_eq!(entries.len(), 2);
    assert_eq!(entries[0].text, "a");
    assert_eq!(entries[0].start_time_ms, 0);
    assert_eq!(entries[0].timestamp, 1);
    assert_eq!(entries[1].text, "b");
    assert_eq!(entries[1].start_time_ms, 2750);
    assert_eq!(entries[1].timestamp, 2);
}

#[test]
fn test_parse_end_time_present_null_or_absent() {
    let raw = "[{\"text\":\"a\",\"start_time\":1.0,\"end_time\":2.25,\"timestamp\":0}]";
    let entries = parse(raw).unwrap();
    assert_eq!(entries[0].end_time_ms, Some(2250));

    let raw = "[{\"text\":\"a\",\"start_time\":1.0,\"end_time\":null,\"timestamp\":0}]";
    let entries = parse(raw).unwrap();
    assert_eq!(entries[0].end_time_ms, None);

    let raw = "[{\"text\":\"a\",\"start_time\":1.0,\"timestamp\":0}]";
    let entries = parse(raw).unwrap();
    assert_eq!(entries[0].end_time_ms, None);
}

#[test]
fn test_parse_string_escapes() {
    let raw = "[{\"text\":\"line one\\nline \\\"two\\\" \\u0041\\u00e9\",\"start_time\":0,\"timestamp\":0}]";
    let entries = parse(raw).unwrap();
    assert_eq!(entries[0].text, "line one\nline \"two\" A\u{e9}");
}

#[test]
fn test_parse_fraction_truncated_to_milliseconds() {
    let raw = "[{\"text\":\"a\",\"start_time\":1.23456,\"timestamp\":0}]";
    let entries = parse(raw).unwrap();
    assert_eq!(entries[0].start_time_ms, 1234);

    let raw = "[{\"text\":\"a\",\"start_time\":2.5,\"timestamp\":0}]";
    let entries = parse(raw).unwrap();
    assert_eq!(entries[0].start_time_ms, 2500);
}

#[test]
fn test_parse_negative_times() {
    let raw = "[{\"text\":\"a\",\"start_time\":-1.5,\"timestamp\":-7}]";
    let entries = parse(raw).unwrap();
    assert_eq!(entries[0].start_time_ms, -1500);
    assert_eq!(entries[0].timestamp, -7);
}

#[test]
fn test_parse_rejects_malformed() {
    // Not an array, truncated input, bad separators.
    assert!(parse("").is_err());
    assert!(parse("   ").is_err());
    assert!(parse("{}").is_err());
    assert!(parse("[").is_err());
    assert!(parse("[,]").is_err());
    assert!(parse("[{\"text\":\"a\",\"start_time\":0,\"timestamp\":0}").is_err());
    assert!(parse("[{\"text\":\"a\",\"start_time\":0,\"timestamp\":0}] junk").is_err());
    // Unterminated string.
    assert!(parse("[{\"text\":\"a,\"start_time\":0,\"timestamp\":0}]").is_err());
}

#[test]
fn test_parse_rejects_missing_or_odd_fields() {
    // Required fields absent.
    assert!(parse("[{}]").is_err());
    assert!(parse("[{\"text\":\"a\",\"timestamp\":0}]").is_err());
    assert!(parse("[{\"text\":\"a\",\"start_time\":0}]").is_err());
    // Repeated key.
    assert!(parse("[{\"text\":\"a\",\"text\":\"b\",\"start_time\":0,\"timestamp\":0}]").is_err());
    // Wrong value shapes.
    assert!(parse("[{\"text\":1,\"start_time\":0,\"timestamp\":0}]").is_err());
    assert!(parse("[{\"text\":\"a\",\"start_time\":\"x\",\"timestamp\":0}]").is_err());
}

#[test]
fn test_parse_rejects_odd_numbers() {
    // A fractional timestamp must be an integer.
    assert!(parse("[{\"text\":\"a\",\"start_time\":0,\"timestamp\":1.5}]").is_err());
    // So must one written with an exponent.
    assert!(parse("[{\"text\":\"a\",\"start_time\":0,\"timestamp\":1e3}]").is_err());
    // Superfluous leading zero.
    assert!(parse("[{\"text\":\"a\",\"start_time\":01,\"timestamp\":0}]").is_err());
    // A bare dot without digits, and an exponent without digits.
    assert!(parse("[{\"text\":\"a\",\"start_time\":1.,\"timestamp\":0}]").is_err());
    assert!(parse("[{\"text\":\"a\",\"start_time\":1e,\"timestamp\":0}]").is_err());
    // Too many significant digits to be safely representable.
    assert!(parse("[{\"text\":\"a\",\"start_time\":1234567890123456,\"timestamp\":0}]").is_err());
    assert!(parse("[{\"text\":\"a\",\"start_time\":1e16,\"timestamp\":0}]").is_err());
    assert!(
        parse("[{\"text\":\"a\",\"start_time\":0,\"timestamp\":1234567890123456789}]").is_err()
    );
    // An astronomical exponent that would grow a non-zero value.
    assert!(
        parse("[{\"text\":\"a\",\"start_time\":1e9999999999999999999,\"timestamp\":0}]").is_err()
    );
}

#[test]
fn test_parse_exponent_numbers() {
    let entries =
        parse("[{\"text\":\"a\",\"start_time\":1e3,\"timestamp\":0}]").expect("exponent");
    assert_eq!(entries[0].start_time_ms, 1_000_000);

    let entries = parse("[{\"text\":\"a\",\"start_time\":1.5e2,\"timestamp\":0}]").unwrap();
    assert_eq!(entries[0].start_time_ms, 150_000);

    let entries = parse("[{\"text\":\"a\",\"start_time\":2.5E+1,\"timestamp\":0}]").unwrap();
    assert_eq!(entries[0].start_time_ms, 25_000);

    let entries = parse("[{\"text\":\"a\",\"start_time\":1e-2,\"timestamp\":0}]").unwrap();
    assert_eq!(entries[0].start_time_ms, 10);

    let entries = parse("[{\"text\":\"a\",\"start_time\":-1.5e1,\"timestamp\":0}]").unwrap();
    assert_eq!(entries[0].start_time_ms, -15_000);

    // Truncation toward zero still applies after scaling.
    let entries =
        parse("[{\"text\":\"a\",\"start_time\":1.23456789e4,\"timestamp\":0}]").unwrap();
    assert_eq!(entries[0].start_time_ms, 12_345_678);

    // A value shrunk below a millisecond is zero.
    let entries = parse("[{\"text\":\"a\",\"start_time\":12e-5,\"timestamp\":0}]").unwrap();
    assert_eq!(entries[0].start_time_ms, 0);

    // Astronomical exponents on a zero or shrinking value still mean zero.
    let entries = parse(
        "[{\"text\":\"a\",\"start_time\":0e99999999999999999999,\"timestamp\":0}]",
    )
    .unwrap();
    assert_eq!(entries[0].start_time_ms, 0);
    let entries = parse(
        "[{\"text\":\"a\",\"start_time\":7e-99999999999999999999,\"timestamp\":0}]",
    )
    .unwrap();
    assert_eq!(entries[0].start_time_ms, 0);
}

#[test]
fn test_parse_surrogate_pair_escape() {
    let raw = "[{\"text\":\"\\uD83D\\uDE00 ok\",\"start_time\":0,\"timestamp\":0}]";
    let entries = parse(raw).unwrap();
    assert_eq!(entries[0].text, "\u{1F600} ok");
    // A high surrogate not followed by a low surrogate escape is malformed.
    assert!(parse("[{\"text\":\"\\uD83Dx\",\"start_time\":0,\"timestamp\":0}]").is_err());
    assert!(
        parse("[{\"text\":\"\\uD83D\\u0041\",\"start_time\":0,\"timestamp\":0}]").is_err()
    );
}

#[test]
fn test_parse_skips_unknown_members() {
    let raw = "[{\"text\":\"a\",\"start_time\":1.0,\"timestamp\":3,\
               \"extra\":{\"nested\":[1,\"two\",true,null],\"more\":{}},\
               \"flag\":false,\"note\":\"n\",\"rate\":-2.5e3,\"tail\":[]}]";
    let entries = parse(raw).expect("unknown members are skipped");
    assert_eq!(entries.len(), 1);
    assert_eq!(entries[0].text, "a");
    assert_eq!(entries[0].start_time_ms, 1000);
    assert_eq!(entries[0].timestamp, 3);
    // A malformed value under an unknown key is still malformed content.
    assert!(
        parse("[{\"text\":\"a\",\"start_time\":0,\"timestamp\":0,\"extra\":[}]").is_err()
    );
    assert!(
        parse("[{\"text\":\"a\",\"start_time\":0,\"timestamp\":0,\"extra\":tru}]").is_err()
    );
}

#[test]
fn test_parse_rejects_bad_strings() {
    // Raw control character inside a string.
    assert!(parse("[{\"text\":\"a\nb\",\"start_time\":0,\"timestamp\":0}]").is_err());
    // Unknown escape.
    assert!(parse("[{\"text\":\"\\q\",\"start_time\":0,\"timestamp\":0}]").is_err());
    // Surrogate escape.
    assert!(parse("[{\"text\":\"\\ud800\",\"start_time\":0,\"timestamp\":0}]").is_err());
    // Truncated unicode escape.
    assert!(parse("[{\"text\":\"\\u00\",\"start_time\":0,\"timestamp\":0}]").is_err());
}

#[test]
fn test_parse_zero_and_integer_seconds() {
    let raw = "[{\"text\":\"a\",\"start_time\":0,\"timestamp\":0}]";
    let entries = parse(raw).unwrap();
    assert_eq!(entries[0].start_time_ms, 0);

    let raw = "[{\"text\":\"a\",\"start_time\":90,\"timestamp\":0}]";
    let entries = parse(raw).unwrap();
    assert_eq!(entries[0].start_time_ms, 90000);
}

#[test]
fn test_format_timestamp_minutes_form() {
    assert_eq!(format_timestamp(0), "0:00.0");
    assert_eq!(format_timestamp(65_500), "1:05.5");
    assert_eq!(format_timestamp(59_999), "0:59.9");
    assert_eq!(format_timestamp(599_000), "9:59.0");
    assert_eq!(format_timestamp(600_000), "10:00.0");
}

#[test]
fn test_format_timestamp_hours_form() {
    assert_eq!(format_timestamp(3_600_000), "1:00:00.0");
    assert_eq!(format_timestamp(3_661_900), "1:01:01.9");
    assert_eq!(format_timestamp(36_000_000), "10:00:00.0");
}

#[test]
fn test_format_timestamp_negative_shown_as_zero() {
    assert_eq!(format_timestamp(-1500), "0:00.0");
}
