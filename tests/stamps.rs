use org_status::stamp::{
    next_prefix_timerange, next_timerange, parse_timerange, ParseError, TimeRange, Timestamp,
};

fn at(y: i32, m: u32, d: u32, h: u32, min: u32) -> Timestamp {
    let date = chrono::NaiveDate::from_ymd_opt(y, m, d).unwrap();
    Timestamp::from_day_and_seconds(chrono::Datelike::num_days_from_ce(&date), h * 3600 + min * 60)
}

fn span(start: Timestamp, end: Timestamp) -> TimeRange {
    TimeRange { start, end }
}

#[test]
fn timestamp_counts_days_from_common_era() {
    assert_eq!(Timestamp::from_day_and_seconds(1, 0).secs, 86400);
    assert_eq!(Timestamp::from_day_and_seconds(719_163, 60).secs, 719_163 * 86400 + 60);
}

#[test]
fn date_only_stamp_spans_the_day() {
    let r = parse_timerange("<2024-01-01>").unwrap();
    assert_eq!(r, span(at(2024, 1, 1, 0, 0), at(2024, 1, 2, 0, 0)));
    assert!(r.is_during(at(2024, 1, 1, 12, 0)));
    assert!(r.is_during(at(2024, 1, 1, 0, 1)));
    assert!(!r.is_during(at(2024, 1, 1, 0, 0)));
    assert!(!r.is_during(at(2024, 1, 2, 0, 0)));
}

#[test]
fn date_with_day_name_spans_the_day() {
    let r = parse_timerange("[2024-02-29 Thu]").unwrap();
    assert_eq!(r, span(at(2024, 2, 29, 0, 0), at(2024, 3, 1, 0, 0)));
}

#[test]
fn point_in_time_has_equal_ends() {
    let r = parse_timerange("<2024-01-01 09:00>").unwrap();
    assert_eq!(r.start, r.end);
    assert_eq!(r.start, at(2024, 1, 1, 9, 0));
    assert!(!r.is_during(at(2024, 1, 1, 9, 0)));
    assert!(!r.is_before(at(2024, 1, 1, 9, 0)));
    assert!(r.is_before(at(2024, 1, 1, 9, 1)));
    let r2 = parse_timerange("<2024-01-01 Mon 09:00>").unwrap();
    assert_eq!(r2, r);
}

#[test]
fn time_range_within_a_day() {
    let r = parse_timerange("2024-01-01 Mon 09:00-10:30").unwrap();
    assert_eq!(r.start, at(2024, 1, 1, 9, 0));
    assert_eq!(r.end, at(2024, 1, 1, 10, 30));
}

#[test]
fn double_range_takes_both_starts() {
    let r = parse_timerange("<2024-01-01 09:00>--<2024-01-03 18:00>").unwrap();
    assert_eq!(r.start, at(2024, 1, 1, 9, 0));
    assert_eq!(r.end, at(2024, 1, 3, 18, 0));
    let d = parse_timerange("<2024-01-01 Mon>--<2024-01-03 Wed>").unwrap();
    assert_eq!(d, span(at(2024, 1, 1, 0, 0), at(2024, 1, 3, 0, 0)));
}

#[test]
fn repeater_suppresses_time() {
    let whole = span(at(2024, 1, 1, 0, 0), at(2024, 1, 2, 0, 0));
    assert_eq!(parse_timerange("<2024-01-01 +1w>").unwrap(), whole);
    assert_eq!(parse_timerange("<2024-01-01 Mon +1w 09:00>").unwrap(), whole);
    assert_eq!(parse_timerange("<2024-01-01 Mon -2d>").unwrap(), whole);
    assert_eq!(parse_timerange("<2024-01-01 Mon .+1d>").unwrap(), whole);
}

#[test]
fn malformed_date_is_an_error() {
    assert_eq!(parse_timerange("<2024-13-01>"), Err(ParseError::MalformedTimestamp));
    assert_eq!(parse_timerange("<soon>"), Err(ParseError::MalformedTimestamp));
    assert_eq!(parse_timerange("<2024-01-01 Mon 9h>"), Err(ParseError::MalformedTimestamp));
    assert_eq!(parse_timerange("<2024-01-01 25:00>"), Err(ParseError::MalformedTimestamp));
}

#[test]
fn inverted_range_is_an_error() {
    assert_eq!(parse_timerange("<2024-01-01 Mon 10:30-09:00>"), Err(ParseError::InvertedRange));
    assert_eq!(
        parse_timerange("<2024-01-03 09:00>--<2024-01-01 09:00>"),
        Err(ParseError::InvertedRange)
    );
}

#[test]
fn next_timerange_finds_first_bracketed_stamp() {
    let r = next_timerange("call back <2024-01-05 Fri 14:00> or [2024-01-06]").unwrap();
    assert_eq!(r, Some(span(at(2024, 1, 5, 14, 0), at(2024, 1, 5, 14, 0))));
    assert_eq!(next_timerange("no stamp here"), Ok(None));
    assert_eq!(next_timerange("open < but never closed"), Ok(None));
}

#[test]
fn prefixed_stamp_is_found_after_prefix() {
    let line = "DEADLINE: <2024-01-09 Tue> SCHEDULED: <2024-01-08 Mon>";
    let s = next_prefix_timerange(line, "SCHEDULED: ").unwrap();
    assert_eq!(s, Some(span(at(2024, 1, 8, 0, 0), at(2024, 1, 9, 0, 0))));
    let d = next_prefix_timerange(line, "DEADLINE: ").unwrap();
    assert_eq!(d, Some(span(at(2024, 1, 9, 0, 0), at(2024, 1, 10, 0, 0))));
    assert_eq!(next_prefix_timerange(line, "CLOCK: "), Ok(None));
}

#[test]
fn stamp_search_stops_at_first_closing_bracket() {
    let line = "CLOCK: [2024-01-01 09:00]--[2024-01-01 10:00] =>  1:00";
    let r = next_prefix_timerange(line, "CLOCK: ").unwrap();
    assert_eq!(r, Some(span(at(2024, 1, 1, 9, 0), at(2024, 1, 1, 9, 0))));
    let d = next_timerange("<2024-01-01>--<2024-01-01>").unwrap();
    assert_eq!(d, Some(span(at(2024, 1, 1, 0, 0), at(2024, 1, 2, 0, 0))));
    let lone = next_timerange("<2024-01-01 09:00>-- later").unwrap();
    assert_eq!(lone, Some(span(at(2024, 1, 1, 9, 0), at(2024, 1, 1, 9, 0))));
}
