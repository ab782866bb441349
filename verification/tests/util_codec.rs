use hours::errors::HoursError;
use hours::util::{format_duration, parse_duration, Duration};

#[test]
fn test() {
    let cases = [
        (Duration::from_hms(0, 0, 12), "00:00:12"),
        (Duration::from_hms(0, 0, 60), "00:01:00"),
        (Duration::from_hms(0, 0, 61), "00:01:01"),
        (Duration::from_hms(0, 2, 11), "00:02:11"),
        (Duration::from_hms(1, 21, 0), "01:21:00"),
        (Duration::from_hms(1, 0, 1), "01:00:01"),
        (Duration::from_hms(1, 0, 59), "01:00:59"),
    ];

    for &(duration, string) in cases.iter() {
        assert_eq!(format_duration(duration), string);
        assert_eq!(parse_duration(string).unwrap(), duration);
    }
}

#[test]
fn test_format_duration_long_hours() {
    assert_eq!(format_duration(Duration::hours(100)), "100:00:00");
    assert_eq!(parse_duration("100:00:00").unwrap(), Duration::hours(100));
    assert_eq!(format_duration(Duration::from_hms(26, 18, 49)), "26:18:49");
}

#[test]
fn test_parse_duration_round_trip_extremes() {
    for d in [
        Duration::seconds(0),
        Duration::seconds(59),
        Duration::seconds(3599),
        Duration::seconds(3600),
        Duration::seconds(u64::MAX),
    ] {
        assert_eq!(parse_duration(&format_duration(d)).unwrap(), d);
    }
}

#[test]
fn test_parse_duration_rejects_bad_input() {
    for bad in [
        "",
        "12",
        "1:2",
        "1:2:3:4",
        "aa:bb:cc",
        "1:2:",
        ":2:3",
        "01:-2:03",
        "1.0:00:00",
        "99999999999999999999:00:00",
    ] {
        assert_eq!(parse_duration(bad).unwrap_err(), HoursError::FormatError);
    }
}

#[test]
fn test_parse_duration_unpadded_fields() {
    assert_eq!(parse_duration("1:2:3").unwrap(), Duration::from_hms(1, 2, 3));
    assert_eq!(parse_duration("0:0:0").unwrap(), Duration::seconds(0));
}
