use org_status::entry::{parse_heading_line, parse_loose_stamps, parse_single_org_entry, State};
use org_status::scan::{parse_org_lines, split_blocks};
use org_status::stamp::{ParseError, TimeRange, Timestamp};

fn at(y: i32, m: u32, d: u32, h: u32, min: u32) -> Timestamp {
    let date = chrono::NaiveDate::from_ymd_opt(y, m, d).unwrap();
    Timestamp::from_day_and_seconds(chrono::Datelike::num_days_from_ce(&date), h * 3600 + min * 60)
}

fn lines(ls: &[&str]) -> Vec<String> {
    ls.iter().map(|l| l.to_string()).collect()
}

#[test]
fn tags_are_split_from_title() {
    let (level, state, title, tags) = parse_heading_line("* Buy milk :home:errand:").unwrap();
    assert_eq!(level, 1);
    assert_eq!(state, State::Unmarked);
    assert_eq!(title, "Buy milk");
    assert_eq!(tags, vec!["home".to_string(), "errand".to_string()]);
}

#[test]
fn title_without_tag_list_has_no_tags() {
    let (level, state, title, tags) = parse_heading_line("** TODO Call the bank").unwrap();
    assert_eq!(level, 2);
    assert_eq!(state, State::Todo);
    assert_eq!(title, "Call the bank");
    assert!(tags.is_empty());
    let (_, _, title2, tags2) = parse_heading_line("* Meeting notes:").unwrap();
    assert_eq!(title2, "Meeting notes:");
    assert!(tags2.is_empty());
}

#[test]
fn done_keyword_and_empty_tag_pieces() {
    let (_, state, title, tags) = parse_heading_line("*** DONE File taxes  ::work::").unwrap();
    assert_eq!(state, State::Done);
    assert_eq!(title, "File taxes");
    assert_eq!(tags, vec!["work".to_string()]);
}

#[test]
fn marker_only_line_has_no_title() {
    assert!(parse_heading_line("*").is_none());
    assert!(parse_heading_line("***").is_none());
    assert!(parse_heading_line("* ").is_none());
    assert!(parse_heading_line("* x").is_some());
    assert!(parse_heading_line("#+TITLE: notes").is_none());
    assert!(parse_single_org_entry(&lines(&["* "])).unwrap().is_none());
}

#[test]
fn planning_line_sets_scheduled_and_deadline() {
    let block = lines(&[
        "* TODO Report",
        "SCHEDULED: <2024-01-08 Mon 09:00-11:00> DEADLINE: <2024-01-10 Wed>",
        "Some text",
    ]);
    let h = parse_single_org_entry(&block).unwrap().unwrap();
    assert_eq!(h.title, "Report");
    assert_eq!(h.state, State::Todo);
    assert_eq!(
        h.scheduled,
        Some(TimeRange { start: at(2024, 1, 8, 9, 0), end: at(2024, 1, 8, 11, 0) })
    );
    assert_eq!(
        h.deadline,
        Some(TimeRange { start: at(2024, 1, 10, 0, 0), end: at(2024, 1, 11, 0, 0) })
    );
    assert!(h.logged.is_empty());
    assert!(h.timestamps.is_empty());
}

#[test]
fn logbook_splits_closed_and_open_entries() {
    let block = lines(&[
        "* Writing",
        ":LOGBOOK:",
        "CLOCK: [2024-01-01 09:00]--[2024-01-01 10:00] =>  1:00",
        "CLOCK: [2024-01-02 08:00]",
        ":END:",
    ]);
    let h = parse_single_org_entry(&block).unwrap().unwrap();
    assert_eq!(
        h.logged,
        vec![TimeRange { start: at(2024, 1, 1, 9, 0), end: at(2024, 1, 1, 10, 0) }]
    );
    assert_eq!(h.logged_active, Some(at(2024, 1, 2, 8, 0)));
}

#[test]
fn later_open_clock_line_wins() {
    let block = lines(&[
        "* Writing",
        ":LOGBOOK:",
        "CLOCK: [2024-01-02 08:00]",
        "CLOCK: [2024-01-03 07:30]",
        ":END:",
    ]);
    let h = parse_single_org_entry(&block).unwrap().unwrap();
    assert_eq!(h.logged_active, Some(at(2024, 1, 3, 7, 30)));
}

#[test]
fn properties_drawer_is_skipped() {
    let block = lines(&[
        "* Event",
        "SCHEDULED: <2024-01-08 Mon>",
        ":PROPERTIES:",
        ":ID: <2099-01-01>",
        ":END:",
        ":LOGBOOK:",
        "CLOCK: [2024-01-02 08:00]",
        ":END:",
        "after <2024-01-05 Fri>",
    ]);
    let h = parse_single_org_entry(&block).unwrap().unwrap();
    assert_eq!(h.logged_active, Some(at(2024, 1, 2, 8, 0)));
    assert_eq!(
        h.timestamps,
        vec![TimeRange { start: at(2024, 1, 5, 0, 0), end: at(2024, 1, 6, 0, 0) }]
    );
}

#[test]
fn loose_stamps_in_body_are_collected() {
    let block = lines(&[
        "* Trip",
        "Flight <2024-03-01 Fri 07:15> and hotel <2024-03-01>--<2024-03-04>",
        "inactive [2024-03-09] is not counted, nor <soon>",
    ]);
    let h = parse_single_org_entry(&block).unwrap().unwrap();
    assert_eq!(
        h.timestamps,
        vec![
            TimeRange { start: at(2024, 3, 1, 7, 15), end: at(2024, 3, 1, 7, 15) },
            TimeRange { start: at(2024, 3, 1, 0, 0), end: at(2024, 3, 4, 0, 0) },
        ]
    );
}

#[test]
fn loose_stamp_texts_are_parsed_in_order() {
    let ms = lines(&["<2024-03-01 Fri 07:15>", "<2024-03-01>--<2024-03-04>"]);
    let v = parse_loose_stamps(&ms).unwrap();
    assert_eq!(v.len(), 2);
    assert_eq!(v[1].end, at(2024, 3, 4, 0, 0));
    let bad = lines(&["<2024-03-01>", "<2024-02-30>"]);
    assert_eq!(parse_loose_stamps(&bad).unwrap_err(), ParseError::MalformedTimestamp);
}

#[test]
fn malformed_stamp_in_block_is_an_error() {
    let block = lines(&["* TODO x", "SCHEDULED: <2024-99-01>"]);
    assert_eq!(parse_single_org_entry(&block).unwrap_err(), ParseError::MalformedTimestamp);
}

#[test]
fn scheduled_line_alone_below_heading() {
    let block = lines(&["* TODO x", "SCHEDULED: <2024-01-01>"]);
    let h = parse_single_org_entry(&block).unwrap().unwrap();
    assert!(h.scheduled.is_some());
    assert!(h.deadline.is_none());
}

#[test]
fn empty_block_yields_nothing() {
    assert!(parse_single_org_entry(&Vec::new()).unwrap().is_none());
}

#[test]
fn malformed_block_is_dropped_and_parsing_goes_on() {
    let file = lines(&["*", "* TODO Next one", "* ", "** Child :a:"]);
    let (hs, err) = parse_org_lines(&file);
    assert_eq!(err, None);
    assert_eq!(hs.len(), 2);
    assert_eq!(hs[0].title, "Next one");
    assert_eq!(hs[1].title, "Child");
    assert_eq!(hs[1].level, 2);
}

#[test]
fn preamble_block_yields_no_heading() {
    let file = lines(&["#+TITLE: notes", "", "* First", "text", "* Second"]);
    let blocks = split_blocks(&file);
    assert_eq!(blocks.len(), 3);
    assert_eq!(blocks[0], lines(&["#+TITLE: notes", ""]));
    assert_eq!(blocks[1], lines(&["* First", "text"]));
    assert_eq!(blocks[2], lines(&["* Second"]));
    let (hs, err) = parse_org_lines(&file);
    assert_eq!(err, None);
    assert_eq!(hs.len(), 2);
    assert!(hs.iter().all(|h| h.level >= 1));
    assert_eq!(hs[0].title, "First");
    assert_eq!(hs[1].title, "Second");
}

#[test]
fn file_with_bad_stamp_fails() {
    let file = lines(&["* A", "<2024-01-01>", "* B", "<2024-01-32>"]);
    let (hs, err) = parse_org_lines(&file);
    assert_eq!(err, Some(ParseError::MalformedTimestamp));
    assert_eq!(hs.len(), 1);
    assert_eq!(hs[0].title, "A");
}

#[test]
fn headings_before_a_bad_block_are_handed_out() {
    let file = lines(&["* A", "* B", "SCHEDULED: <2024-13-45 Mon>", "* C"]);
    let (hs, err) = parse_org_lines(&file);
    assert_eq!(err, Some(ParseError::MalformedTimestamp));
    assert_eq!(hs.len(), 1);
    assert_eq!(hs[0].title, "A");
}
