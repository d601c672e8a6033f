use chan_distill::time::{parse_datetime, Timestamp, MAX_SECONDS, MIN_SECONDS};

const NEW_YEAR_2024: i64 = 1_704_067_200;

fn seconds(text: &str) -> i64 {
    let point = parse_datetime(text).unwrap();
    assert_eq!(point.nanos, 0);
    point.seconds
}

#[test]
fn dates_and_times_are_read_in_every_format() {
    assert_eq!(seconds("2024-01-01T00:00:00Z"), NEW_YEAR_2024);
    assert_eq!(seconds("2024-01-01T00:00:00"), NEW_YEAR_2024);
    assert_eq!(seconds("2024-01-01 00:00:05"), NEW_YEAR_2024 + 5);
    assert_eq!(seconds("2024/01/01 00:00:05"), NEW_YEAR_2024 + 5);
    assert_eq!(seconds("2024-01-01 00:07"), NEW_YEAR_2024 + 7 * 60);
    assert_eq!(seconds("2024-01-01"), NEW_YEAR_2024);
}

#[test]
fn zones_are_taken_to_utc() {
    assert_eq!(seconds("2024-01-01T08:00:00+08:00"), NEW_YEAR_2024);
}

#[test]
fn fractions_of_a_second_are_kept() {
    let point = parse_datetime("2024-01-01T00:00:00.250").unwrap();
    assert_eq!(point, Timestamp { seconds: NEW_YEAR_2024, nanos: 250_000_000 });
    let point = parse_datetime("2024-01-01T00:00:00.000000001Z").unwrap();
    assert_eq!(point, Timestamp { seconds: NEW_YEAR_2024, nanos: 1 });
}

#[test]
fn ten_and_thirteen_digits_count_from_1970() {
    assert_eq!(seconds("1704067200"), NEW_YEAR_2024);
    let point = parse_datetime("1704067200123").unwrap();
    assert_eq!(point, Timestamp { seconds: NEW_YEAR_2024, nanos: 123_000_000 });
    assert_eq!(seconds("9999999999"), 9_999_999_999);
    assert_eq!(seconds("9999999999000"), 9_999_999_999);
}

#[test]
fn white_space_around_a_time_is_dropped() {
    assert_eq!(seconds("\u{3000} 2024-01-01 \t\n"), NEW_YEAR_2024);
}

#[test]
fn other_texts_are_no_times() {
    for text in ["", "yesterday", "170406720", "17040672001", "2024-13-01", "2024-01-01 25:00:00"] {
        assert!(parse_datetime(text).is_err(), "{:?}", text);
    }
    assert_eq!(parse_datetime("  soon ").unwrap_err().text, "soon");
}

#[test]
fn earlier_points_are_before_later_ones() {
    let a = Timestamp { seconds: 5, nanos: 7 };
    let b = Timestamp { seconds: 5, nanos: 8 };
    let c = Timestamp { seconds: 6, nanos: 0 };
    assert!(a.is_before(b) && b.is_before(c) && a.is_before(c));
    assert!(!a.is_before(a) && !c.is_before(a));
}

#[test]
fn the_calendar_ends_where_it_is_said_to_end() {
    assert!(chrono::DateTime::from_timestamp(MIN_SECONDS, 0).is_some());
    assert!(chrono::DateTime::from_timestamp(MIN_SECONDS - 1, 0).is_none());
    assert!(chrono::DateTime::from_timestamp(MAX_SECONDS, 0).is_some());
    assert!(chrono::DateTime::from_timestamp(MAX_SECONDS + 1, 0).is_none());
    assert!(chrono::DateTime::from_timestamp(59, 1_999_999_999).is_some());
    assert!(chrono::DateTime::from_timestamp(58, 1_000_000_000).is_none());
    assert!(chrono::DateTime::from_timestamp(-1, 1_000_000_000).is_some());
    assert!(chrono::DateTime::from_timestamp(0, 2_000_000_000).is_none());
}
