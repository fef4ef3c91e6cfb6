use qtextract::error::Error;
use qtextract::timestamp::{date_string, parse_timestamp, timestamp_string};

/// Known instants parse to their exact epoch seconds.
#[test]
fn parse_known_values() {
    assert_eq!(parse_timestamp("1970-01-01T00:00:00"), Ok(0));
    assert_eq!(parse_timestamp("1970-01-02T00:00:00"), Ok(86400));
    assert_eq!(parse_timestamp("2000-02-29T00:00:00"), Ok(951782400));
    assert_eq!(parse_timestamp("2000-03-01T00:00:00"), Ok(951868800));
    assert_eq!(parse_timestamp("2000-03-01T12:34:56"), Ok(951914096));
}

/// Strings of the wrong shape or denoting no real date are value errors.
#[test]
fn parse_rejects_malformed() {
    assert_eq!(parse_timestamp(""), Err(Error::ValueError));
    assert_eq!(parse_timestamp("2000-03-01 12:34:56"), Err(Error::ValueError));
    assert_eq!(parse_timestamp("2000-03-01T12:34:5x"), Err(Error::ValueError));
    assert_eq!(parse_timestamp("2000-13-01T00:00:00"), Err(Error::ValueError));
    assert_eq!(parse_timestamp("2000-00-01T00:00:00"), Err(Error::ValueError));
    assert_eq!(parse_timestamp("2000-02-30T00:00:00"), Err(Error::ValueError));
    assert_eq!(parse_timestamp("2001-02-29T00:00:00"), Err(Error::ValueError));
    assert_eq!(parse_timestamp("1969-12-31T23:59:59"), Err(Error::ValueError));
    assert_eq!(parse_timestamp("2000-03-01T24:00:00"), Err(Error::ValueError));
}

/// Writing an instant gives the canonical spelling.
#[test]
fn format_known_values() {
    assert_eq!(timestamp_string(0).unwrap(), "1970-01-01T00:00:00");
    assert_eq!(timestamp_string(951914096).unwrap(), "2000-03-01T12:34:56");
    assert_eq!(timestamp_string(951782400).unwrap(), "2000-02-29T00:00:00");
    assert_eq!(date_string(951914096).unwrap(), "2000-03-01");
    assert_eq!(date_string(0).unwrap(), "1970-01-01");
}

/// Writing and parsing round-trips the instant exactly.
#[test]
fn round_trip() {
    for ts in [0i64, 1, 86399, 86400, 951914096, 4102444800, 253402300799] {
        let s = timestamp_string(ts).unwrap();
        assert_eq!(parse_timestamp(&s), Ok(ts));
    }
}

/// An instant past the representable years is a value error.
#[test]
fn format_rejects_far_future() {
    assert!(timestamp_string(253402300800).is_err());
    assert!(date_string(i64::MAX).is_err());
}
