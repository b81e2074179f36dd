use pairwise_gsb::epoch::{days_from_civil, format_epoch, parse_epoch, parse_rfc3339_utc};
use pairwise_gsb::json::{parse_json, Json};
use pairwise_gsb::records::{parse_time, TimeValue};

fn nanos(seconds: f64) -> i128 {
    (seconds * 1e9).round() as i128
}

fn seconds(nanos: i128) -> f64 {
    nanos as f64 / 1e9
}

fn value_seconds(value: TimeValue) -> f64 {
    match value {
        TimeValue::Seconds(text) => text.parse().unwrap(),
        TimeValue::Nanos(n) => seconds(n),
    }
}

#[test]
fn timestamp_formatting_never_emits_leap_second_style_minute_overflow() {
    assert_eq!(format_epoch(nanos(-0.0006)), "1969-12-31T23:59:59.999Z");
    assert_eq!(format_epoch(nanos(86_399.9996)), "1970-01-02T00:00:00.000Z");
    assert_eq!(seconds(parse_epoch("1970-01-01T00:00:01.500Z").unwrap()), 1.5);
}

#[test]
fn parses_epoch_and_utc() {
    assert_eq!(value_seconds(parse_time(&parse_json("12.5").unwrap()).unwrap()), 12.5);
    assert_eq!(
        value_seconds(parse_time(&Json::Text("1970-01-01T00:00:01.500Z".to_string())).unwrap()),
        1.5
    );
    assert!(parse_time(&Json::Text("1970-01-01T25:00:00Z".to_string())).is_err());
}

#[test]
fn a_time_is_a_number_or_a_text() {
    let error = parse_time(&Json::Bool(true)).unwrap_err();
    assert_eq!(error, "time must be a number or RFC3339 string");
    assert!(matches!(
        parse_time(&parse_json("-3").unwrap()),
        Ok(TimeValue::Seconds(text)) if text == "-3"
    ));
}

#[test]
fn days_count_from_the_epoch() {
    assert_eq!(days_from_civil(1970, 1, 1), 0);
    assert_eq!(days_from_civil(1969, 12, 31), -1);
    assert_eq!(days_from_civil(2000, 3, 1), 11_017);
    assert_eq!(days_from_civil(2000, 2, 29), 11_016);
    assert_eq!(days_from_civil(1900, 3, 1) - days_from_civil(1900, 2, 28), 1);
    assert_eq!(days_from_civil(2024, 2, 29), 19_782);
    assert_eq!(days_from_civil(-1, 1, 1), -719_893);
}

#[test]
fn offsets_shift_a_time() {
    let utc = parse_epoch("1970-01-01T02:00:01.043Z").unwrap();
    assert_eq!(utc, 7_201_043_000_000);
    assert_eq!(parse_epoch("1970-01-01T04:00:01.043+02:00").unwrap(), utc);
    assert_eq!(parse_epoch("1969-12-31T20:30:01.043-05:30").unwrap(), utc);
}

#[test]
fn an_epoch_needs_an_offset() {
    let error = "time must carry an explicit UTC offset";
    assert_eq!(parse_epoch("1970-01-01T02:00:01.043").unwrap_err(), error);
    assert_eq!(parse_epoch("").unwrap_err(), error);
    assert_eq!(parse_epoch("1970-01-01T00:00:00+24:00").unwrap_err(), error);
    let form = "expected YYYY-MM-DDTHH:MM:SSZ";
    assert_eq!(parse_rfc3339_utc("1970-01-01T02:00:01.043").unwrap_err(), form);
    assert_eq!(parse_rfc3339_utc("1970-01-01T02:00:01.043+02:00").unwrap_err(), form);
    assert_eq!(parse_rfc3339_utc("").unwrap_err(), form);
    let local = Json::Text("1970-01-01T02:00:01.043".to_string());
    assert_eq!(parse_time(&local).unwrap_err(), form);
    assert_eq!(parse_rfc3339_utc("1970-01-01T02:00:01.043Z").unwrap(), 7_201_043_000_000);
}

#[test]
fn each_part_of_a_time_has_its_error() {
    let error = |text: &str| parse_rfc3339_utc(text).unwrap_err();
    assert_eq!(error("1970-01-01"), "expected YYYY-MM-DDTHH:MM:SSZ");
    assert_eq!(error("x-01-01T00:00:00Z"), "invalid year");
    assert_eq!(error("1970T00:00:00Z"), "missing month");
    assert_eq!(error("1970-xT00:00:00Z"), "invalid month");
    assert_eq!(error("1970-01T00:00:00Z"), "missing day");
    assert_eq!(error("1970-01-T00:00:00Z"), "invalid day");
    assert_eq!(error("1970-13-01T00:00:00Z"), "invalid calendar date");
    assert_eq!(error("1970-01-32T00:00:00Z"), "invalid calendar date");
    assert_eq!(error("1970-01-01-01T00:00:00Z"), "invalid calendar date");
    assert_eq!(error("1970-01-01Tx:00:00Z"), "invalid hour");
    assert_eq!(error("1970-01-01T00Z"), "missing minute");
    assert_eq!(error("1970-01-01T00:xZ"), "invalid minute");
    assert_eq!(error("1970-01-01T00:00Z"), "missing seconds");
    assert_eq!(error("1970-01-01T24:00:00Z"), "invalid clock time");
    assert_eq!(error("1970-01-01T00:60:00Z"), "invalid clock time");
    assert_eq!(error("1970-01-01T00:00:61Z"), "invalid clock time");
    assert_eq!(error("1970-01-01T00:00:xZ"), "invalid clock time");
    assert_eq!(error("1970-01-01T00:00:00:00Z"), "invalid clock time");
    assert_eq!(error("1970-01-01T00:00:00.xZ"), "invalid fractional seconds");
}

#[test]
fn fractions_are_cut_to_milliseconds() {
    assert_eq!(parse_rfc3339_utc("1970-01-01T00:00:00.5Z").unwrap(), 500_000_000);
    assert_eq!(parse_rfc3339_utc("1970-01-01T00:00:00.0019Z").unwrap(), 1_000_000);
    assert_eq!(parse_rfc3339_utc("1970-01-01T00:00:60Z").unwrap(), 60_000_000_000);
}

#[test]
fn a_written_time_reads_back_to_the_millisecond() {
    for t in [0, 1, -1, 499_999, 500_000, -500_000, 1_700_000_000_123_456_789, -62_135_596_800_000_000_000] {
        let text = format_epoch(t);
        let back = parse_epoch(&text).unwrap();
        assert!((back - t).abs() <= 500_000, "{text}");
        assert_eq!(back % 1_000_000, 0);
        assert_eq!(format_epoch(back), text);
    }
    assert_eq!(format_epoch(1_700_000_000_123_456_789), "2023-11-14T22:13:20.123Z");
}
