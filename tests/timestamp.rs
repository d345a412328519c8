use chrono::{DateTime, TimeDelta, Utc};

use lablog::error::ErrorKind;
use lablog::text::compare_text;
use lablog::timestamp::{
    expand_natural_date, first_success, parse_time_bound, parse_timestamp_text, try_multiple_time_parser, Timestamp,
};

fn rfc3339(t: Timestamp) -> String {
    DateTime::from_timestamp(t.secs, t.nanos).unwrap().to_rfc3339()
}

#[test]
fn test_try_multiple_time_parser_today() {
    let input = "today";
    let output = try_multiple_time_parser(input).unwrap();
    let expected = Utc::now().date_naive().and_hms_opt(0, 0, 0).unwrap().and_utc().to_rfc3339();

    println!("expected: {}", expected);

    assert_eq!(rfc3339(output), expected)
}

#[test]
fn test_try_multiple_time_parser_yesterday() {
    let input = "yesterday";
    let output = try_multiple_time_parser(input).unwrap();
    let expected = Utc::now()
        .date_naive()
        .and_hms_opt(0, 0, 0)
        .unwrap()
        .and_utc()
        .checked_sub_signed(TimeDelta::days(1))
        .unwrap()
        .to_rfc3339();

    println!("expected: {}", expected);

    assert_eq!(rfc3339(output), expected)
}

#[test]
fn test_try_multiple_time_parser_year() {
    let input = "2001";
    let output = try_multiple_time_parser(input).unwrap();
    let expected = "2001-01-01T00:00:00+00:00";

    assert_eq!(rfc3339(output), expected)
}

#[test]
fn test_try_multiple_time_parser_year_month() {
    let input = "2001-02";
    let output = try_multiple_time_parser(input).unwrap();
    let expected = "2001-02-01T00:00:00+00:00";

    assert_eq!(rfc3339(output), expected)
}

#[test]
fn test_try_multiple_time_parser_year_month_day() {
    let input = "2001-02-03";
    let output = try_multiple_time_parser(input).unwrap();
    let expected = "2001-02-03T00:00:00+00:00";

    assert_eq!(rfc3339(output), expected)
}

#[test]
fn test_try_multiple_time_parser_year_month_day_hour() {
    let input = "2001-02-03 04";
    let output = try_multiple_time_parser(input).unwrap();
    let expected = "2001-02-03T04:00:00+00:00";

    assert_eq!(rfc3339(output), expected)
}

#[test]
fn test_try_multiple_time_parser_year_month_day_hour_minute() {
    let input = "2001-02-03 04:05";
    let output = try_multiple_time_parser(input).unwrap();
    let expected = "2001-02-03T04:05:00+00:00";

    assert_eq!(rfc3339(output), expected)
}

#[test]
fn test_try_multiple_time_parser_year_month_day_hour_minute_seconds() {
    let input = "2001-02-03 04:05:06";
    let output = try_multiple_time_parser(input).unwrap();
    let expected = "2001-02-03T04:05:06+00:00";

    assert_eq!(rfc3339(output), expected)
}

#[test]
fn rfc3339_input_with_offset_is_normalised_to_utc() {
    let output = try_multiple_time_parser("2001-02-03T04:05:06+02:00").unwrap();
    assert_eq!(rfc3339(output), "2001-02-03T02:05:06+00:00");
    assert_eq!(output, Timestamp { secs: 981165906, nanos: 0 });
}

#[test]
fn unreadable_bound_is_a_parse_error() {
    assert_eq!(
        try_multiple_time_parser("next week"),
        Err(ErrorKind::TimestampParse("next week".to_string()))
    );
    assert_eq!(parse_timestamp_text("2001-13"), None);
}

#[test]
fn first_success_takes_the_earliest_reading() {
    let a = Timestamp { secs: 1, nanos: 0 };
    let b = Timestamp { secs: 2, nanos: 0 };
    assert_eq!(first_success(&vec![None, Some(a), Some(b)]), Some(a));
    assert_eq!(first_success(&vec![None, None]), None);
    assert_eq!(first_success(&vec![]), None);
}

#[test]
fn date_words_expand_to_the_given_dates() {
    assert_eq!(expand_natural_date("today", "2001-02-03", "2001-02-02"), "2001-02-03");
    assert_eq!(expand_natural_date("yesterday", "2001-02-03", "2001-02-02"), "2001-02-02");
    assert_eq!(expand_natural_date("2001", "2001-02-03", "2001-02-02"), "2001");
}

#[test]
fn timestamps_compare_by_seconds_then_nanoseconds() {
    let a = Timestamp { secs: 5, nanos: 9 };
    let b = Timestamp { secs: 6, nanos: 0 };
    let c = Timestamp { secs: 6, nanos: 1 };
    assert_eq!(a.compare(&b), std::cmp::Ordering::Less);
    assert_eq!(c.compare(&b), std::cmp::Ordering::Greater);
    assert_eq!(b.compare(&b), std::cmp::Ordering::Equal);
    assert!(b.is_at_or_before(&b));
    assert!(!c.is_at_or_before(&b));
}

#[test]
fn texts_compare_lexicographically() {
    assert_eq!(compare_text("a", "b"), std::cmp::Ordering::Less);
    assert_eq!(compare_text("ab", "a"), std::cmp::Ordering::Greater);
    assert_eq!(compare_text("", ""), std::cmp::Ordering::Equal);
    assert_eq!(compare_text("Z", "a"), std::cmp::Ordering::Less);
    assert_eq!(compare_text("é", "z"), std::cmp::Ordering::Greater);
}

#[test]
fn bound_words_read_the_given_dates() {
    assert_eq!(parse_time_bound("today", "2001-02-03", "2001-02-02"), Ok(Timestamp { secs: 981158400, nanos: 0 }));
    assert_eq!(parse_time_bound("yesterday", "2001-02-03", "2001-02-02"), Ok(Timestamp { secs: 981072000, nanos: 0 }));
    assert_eq!(parse_time_bound("2001", "x", "y"), Ok(Timestamp { secs: 978307200, nanos: 0 }));
    assert_eq!(
        parse_time_bound("today", "not a date", ""),
        Err(ErrorKind::TimestampParse("today".to_string()))
    );
}
