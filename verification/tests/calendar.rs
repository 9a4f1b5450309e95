use rinha::calendar::{
    days_from_civil, hour_and_dow_from_minutes, parse_ascii_u32, parse_iso8601_minutes,
};

#[test]
fn zeller_2026_03_11_is_wednesday() {
    let mins = parse_iso8601_minutes(b"2026-03-11T18:45:53Z").unwrap();
    let (_, dow) = hour_and_dow_from_minutes(mins);
    assert_eq!(dow, 2); // Wed
}

#[test]
fn delta_minutes_correct() {
    let a = parse_iso8601_minutes(b"2026-03-11T20:00:00Z").unwrap();
    let b = parse_iso8601_minutes(b"2026-03-11T18:00:00Z").unwrap();
    assert_eq!(a - b, 120);
}

#[test]
fn delta_across_day_boundary() {
    let a = parse_iso8601_minutes(b"2026-03-12T00:30:00Z").unwrap();
    let b = parse_iso8601_minutes(b"2026-03-11T23:00:00Z").unwrap();
    assert_eq!(a - b, 90);
}

#[test]
fn epoch_is_thursday_at_midnight() {
    assert_eq!(parse_iso8601_minutes(b"1970-01-01T00:00:00"), Some(0));
    assert_eq!(hour_and_dow_from_minutes(0), (0, 3));
    assert_eq!(hour_and_dow_from_minutes(-1), (23, 2));
    assert_eq!(hour_and_dow_from_minutes(1440), (0, 4));
    assert_eq!(hour_and_dow_from_minutes(i64::MIN).0, 5);
}

#[test]
fn known_days() {
    assert_eq!(days_from_civil(1970, 1, 1), 0);
    assert_eq!(days_from_civil(2000, 2, 29), 11016);
    assert_eq!(days_from_civil(2000, 3, 1), 11017);
    assert_eq!(days_from_civil(1900, 3, 1) - days_from_civil(1900, 2, 28), 1);
    assert_eq!(days_from_civil(2026, 3, 11), 20523);
    assert_eq!(days_from_civil(0, 1, 1), -719528);
    assert_eq!(days_from_civil(-1, 12, 31), -719529);
    assert_eq!(days_from_civil(1969, 12, 31), -1);
}

#[test]
fn months_follow_each_other() {
    let lengths = [31, 28, 31, 30, 31, 30, 31, 31, 30, 31, 30, 31];
    for m in 1..12u32 {
        let here = days_from_civil(2023, m, 1);
        let next = days_from_civil(2023, m + 1, 1);
        assert_eq!(next - here, lengths[(m - 1) as usize]);
    }
    assert_eq!(days_from_civil(2024, 3, 1) - days_from_civil(2024, 2, 1), 29);
    assert_eq!(days_from_civil(2024, 1, 1) - days_from_civil(2023, 12, 31), 1);
}

#[test]
fn hour_of_a_timestamp_comes_back() {
    let mins = parse_iso8601_minutes(b"1950-06-07T05:59:00Z").unwrap();
    assert!(mins < 0);
    assert_eq!(hour_and_dow_from_minutes(mins).0, 5);
}

#[test]
fn bad_timestamps_are_refused() {
    assert_eq!(parse_iso8601_minutes(b"2026-03-11T18:45"), None);
    assert_eq!(parse_iso8601_minutes(b"2026-13-11T18:45:53Z"), None);
    assert_eq!(parse_iso8601_minutes(b"2026-00-11T18:45:53Z"), None);
    assert_eq!(parse_iso8601_minutes(b"2026-03-32T18:45:53Z"), None);
    assert_eq!(parse_iso8601_minutes(b"2026-03-00T18:45:53Z"), None);
    assert_eq!(parse_iso8601_minutes(b"2026-03-11T24:45:53Z"), None);
    assert_eq!(parse_iso8601_minutes(b"2026-03-11T18:60:53Z"), None);
    assert_eq!(parse_iso8601_minutes(b"2O26-03-11T18:45:53Z"), None);
    // The separators are not looked at.
    assert_eq!(
        parse_iso8601_minutes(b"2026/03/11 18-45-53 "),
        parse_iso8601_minutes(b"2026-03-11T18:45:53Z")
    );
}

#[test]
fn numbers() {
    assert_eq!(parse_ascii_u32(b""), Some(0));
    assert_eq!(parse_ascii_u32(b"0042"), Some(42));
    assert_eq!(parse_ascii_u32(b"4294967295"), Some(u32::MAX));
    assert_eq!(parse_ascii_u32(b"4294967296"), None);
    assert_eq!(parse_ascii_u32(b"99999999999"), None);
    assert_eq!(parse_ascii_u32(b"12a"), None);
    assert_eq!(parse_ascii_u32(b"-1"), None);
}

#[test]
fn far_years() {
    // Four hundred years have 146097 days.
    let k: i64 = 63_130_000_000_000;
    assert_eq!(days_from_civil(1970 + 400 * k, 1, 1), 146097 * k);
    assert_eq!(days_from_civil(1970 - 400 * k, 1, 1), -146097 * k);
}
