use org_status::agenda::{choose_status, most_recent, Category};
use org_status::entry::{Heading, State};
use org_status::stamp::{TimeRange, Timestamp};

fn at(y: i32, m: u32, d: u32, h: u32, min: u32) -> Timestamp {
    let date = chrono::NaiveDate::from_ymd_opt(y, m, d).unwrap();
    Timestamp::from_day_and_seconds(chrono::Datelike::num_days_from_ce(&date), h * 3600 + min * 60)
}

fn heading(title: &str, state: State) -> Heading {
    Heading {
        title: title.to_string(),
        level: 1,
        state,
        tags: Vec::new(),
        scheduled: None,
        deadline: None,
        logged: Vec::new(),
        logged_active: None,
        timestamps: Vec::new(),
    }
}

fn range(start: Timestamp, end: Timestamp) -> TimeRange {
    TimeRange { start, end }
}

#[test]
fn clocked_wins_over_active_action() {
    let now = at(2024, 1, 1, 12, 0);
    let mut h = heading("Write", State::Todo);
    h.scheduled = Some(range(at(2024, 1, 1, 9, 0), at(2024, 1, 1, 13, 0)));
    h.logged_active = Some(at(2024, 1, 1, 11, 0));
    assert!(h.is_clocked_now(now));
    assert!(h.is_action_now(now));
    assert_eq!(h.classify(now), Some(Category::Clocked));
    h.logged_active = None;
    assert_eq!(h.classify(now), Some(Category::ActiveAction));
}

#[test]
fn clock_started_later_is_not_running() {
    let mut h = heading("Later", State::Unmarked);
    h.logged_active = Some(at(2024, 1, 1, 13, 0));
    assert!(!h.is_clocked_now(at(2024, 1, 1, 12, 0)));
    assert_eq!(h.classify(at(2024, 1, 1, 12, 0)), None);
}

#[test]
fn event_and_overdue_categories() {
    let now = at(2024, 1, 2, 12, 0);
    let mut ev = heading("Conference", State::Unmarked);
    ev.scheduled = Some(range(at(2024, 1, 2, 0, 0), at(2024, 1, 3, 0, 0)));
    assert_eq!(ev.classify(now), Some(Category::ActiveEvent));
    let mut done = heading("Done thing", State::Done);
    done.scheduled = Some(range(at(2024, 1, 1, 0, 0), at(2024, 1, 2, 0, 0)));
    assert_eq!(done.classify(now), None);
    let mut late = heading("Late", State::Todo);
    late.deadline = Some(range(at(2024, 1, 1, 0, 0), at(2024, 1, 2, 0, 0)));
    assert!(late.is_overdue_now(now));
    assert_eq!(late.classify(now), Some(Category::Overdue));
    late.scheduled = Some(range(at(2024, 1, 5, 0, 0), at(2024, 1, 6, 0, 0)));
    assert!(!late.is_overdue_now(now));
}

#[test]
fn selector_picks_earliest_anchor() {
    let now = at(2024, 1, 1, 12, 0);
    let mut a = heading("nine", State::Todo);
    a.scheduled = Some(range(at(2024, 1, 1, 9, 0), at(2024, 1, 1, 13, 0)));
    let mut b = heading("eleven", State::Todo);
    b.scheduled = Some(range(at(2024, 1, 1, 11, 0), at(2024, 1, 1, 13, 0)));
    let hs = vec![b.clone(), a.clone()];
    assert_eq!(most_recent(&hs, now, Category::ActiveAction), Some(1));
    let hs2 = vec![a, b];
    assert_eq!(most_recent(&hs2, now, Category::ActiveAction), Some(0));
    assert_eq!(most_recent(&hs2, now, Category::Overdue), None);
}

#[test]
fn anchor_falls_back_to_latest_begun_loose_stamp() {
    let now = at(2024, 1, 10, 12, 0);
    let mut h = heading("x", State::Todo);
    h.timestamps = vec![
        range(at(2024, 1, 3, 0, 0), at(2024, 1, 4, 0, 0)),
        range(at(2024, 1, 8, 0, 0), at(2024, 1, 9, 0, 0)),
        range(at(2024, 1, 12, 0, 0), at(2024, 1, 13, 0, 0)),
    ];
    assert_eq!(h.most_recently_started(now), Some(h.timestamps[1]));
    assert_eq!(h.most_recently_started(at(2024, 1, 1, 0, 0)), None);
    h.scheduled = Some(range(at(2024, 1, 1, 0, 0), at(2024, 1, 2, 0, 0)));
    assert_eq!(h.most_recently_started(now), h.scheduled);
}

#[test]
fn heading_without_anchor_is_skipped() {
    let now = at(2024, 1, 10, 12, 0);
    let mut late = heading("deadline only", State::Todo);
    late.deadline = Some(range(at(2024, 1, 1, 0, 0), at(2024, 1, 2, 0, 0)));
    let hs = vec![late.clone()];
    assert_eq!(most_recent(&hs, now, Category::Overdue), None);
    let mut anchored = late.clone();
    anchored.timestamps = vec![range(at(2024, 1, 5, 0, 0), at(2024, 1, 6, 0, 0))];
    let hs2 = vec![late, anchored];
    assert_eq!(most_recent(&hs2, now, Category::Overdue), Some(1));
}

#[test]
fn status_prefers_single_clocked_then_action_then_overdue() {
    let now = at(2024, 1, 1, 12, 0);
    let mut clocked = heading("clocked", State::Unmarked);
    clocked.logged_active = Some(at(2024, 1, 1, 10, 0));
    let mut act = heading("act", State::Todo);
    act.scheduled = Some(range(at(2024, 1, 1, 9, 0), at(2024, 1, 1, 13, 0)));
    let mut od = heading("od", State::Todo);
    od.scheduled = Some(range(at(2023, 12, 30, 0, 0), at(2023, 12, 31, 0, 0)));
    let mut ev = heading("ev", State::Unmarked);
    ev.scheduled = Some(range(at(2024, 1, 1, 0, 0), at(2024, 1, 2, 0, 0)));

    let hs = vec![od.clone(), act.clone(), clocked.clone(), ev.clone()];
    assert_eq!(choose_status(&hs, now), (Some((Category::Clocked, 2)), Some(3)));

    let two_clocked = vec![clocked.clone(), clocked.clone(), od.clone(), act.clone()];
    assert_eq!(choose_status(&two_clocked, now), (Some((Category::ActiveAction, 3)), None));

    let only_overdue = vec![ev.clone(), od.clone()];
    assert_eq!(choose_status(&only_overdue, now), (Some((Category::Overdue, 1)), Some(0)));

    assert_eq!(choose_status(&Vec::new(), now), (None, None));
}

#[test]
fn clocked_seconds_counts_running_time() {
    let mut h = heading("c", State::Unmarked);
    assert_eq!(h.clocked_seconds(at(2024, 1, 1, 12, 0)), None);
    h.logged_active = Some(at(2024, 1, 1, 10, 30));
    assert_eq!(h.clocked_seconds(at(2024, 1, 1, 12, 0)), Some(5400));
}
