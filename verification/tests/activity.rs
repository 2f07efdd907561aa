use codex_prompt_history::activity::{local_date, Activity, Window, FIRST_DAY, LAST_DAY};

fn date(day: i64) -> i64 {
    20_000 + day
}

#[test]
fn window_bounds_include_today_and_counts_are_exact() {
    let activity = Activity { counts: vec![(date(1), 2), (date(17), 5)] };
    assert_eq!(activity.bounds(Window::Week, date(17)), (date(11), date(17)));
    assert_eq!(activity.bounds(Window::All, date(17)), (date(1), date(17)));
    assert_eq!(activity.total(date(1), date(17)), 7);
    assert_eq!(activity.count(date(2)), 0);
    assert_eq!(activity.bars(date(1), date(17), 2), vec![2, 5]);
    assert_eq!(activity.bars(date(17), date(17), 4), vec![5; 4]);
    assert!(activity.bars(date(1), date(17), 0).is_empty());
}

#[test]
fn stretched_cursor_points_to_its_day_and_compressed_last_day_stays_visible() {
    let activity = Activity { counts: vec![(date(17), 8)] };
    for width in [1, 12, 17, 43, 118] {
        let bars = activity.bars(date(1), date(17), width);
        let column = Activity::cursor_column(date(1), date(17), date(17), width);
        assert_eq!(bars[column], 8);
    }
}

#[test]
fn windows_cycle_and_are_labelled() {
    assert_eq!(Window::default(), Window::Month);
    assert_eq!(Window::Week.next(), Window::Month);
    assert_eq!(Window::Month.next(), Window::All);
    assert_eq!(Window::All.next(), Window::Week);
    assert_eq!(Window::Week.label(), "7 days");
    assert_eq!(Window::Month.label(), "30 days");
    assert_eq!(Window::All.label(), "all time");
    let activity = Activity { counts: vec![] };
    assert_eq!(activity.bounds(Window::Month, 100), (71, 100));
    assert_eq!(activity.bounds(Window::All, 100), (100, 100));
}

#[test]
fn cursor_stays_in_the_chart_and_clamps_dates() {
    assert_eq!(Activity::cursor_column(0, 9, 0, 0), 0);
    assert_eq!(Activity::cursor_column(0, 9, 4, 20), 8);
    assert_eq!(Activity::cursor_column(0, 9, 50, 20), 18);
    assert_eq!(Activity::cursor_column(0, 9, -5, 20), 0);
    assert_eq!(Activity::cursor_column(0, 99, 99, 10), 9);
}

#[test]
fn local_days_stay_next_to_the_utc_day_and_never_panic() {
    // 2026-08-09 12:00:00 UTC is day 739_837 from the common era.
    let day = local_date(1_786_276_800).unwrap();
    assert!((739_836..=739_838).contains(&day));
    assert_eq!(local_date(i64::MAX), None);
    assert_eq!(local_date(i64::MIN), None);
    let last = chrono::DateTime::<chrono::Utc>::MAX_UTC.timestamp();
    let first = chrono::DateTime::<chrono::Utc>::MIN_UTC.timestamp();
    let _ = local_date(last);
    let _ = local_date(first);
}

#[test]
fn chart_windows_stop_at_the_ends_of_the_calendar() {
    assert_eq!(chrono::Datelike::num_days_from_ce(&chrono::NaiveDate::MIN) as i64, FIRST_DAY);
    assert_eq!(chrono::Datelike::num_days_from_ce(&chrono::NaiveDate::MAX) as i64, LAST_DAY);
    let empty = Activity { counts: vec![] };
    assert_eq!(empty.bounds(Window::Week, FIRST_DAY + 6), (FIRST_DAY, FIRST_DAY + 6));
    assert_eq!(empty.bounds(Window::Week, FIRST_DAY + 5), (FIRST_DAY + 5, FIRST_DAY + 5));
    assert_eq!(empty.bounds(Window::Month, LAST_DAY), (LAST_DAY - 29, LAST_DAY));
    assert_eq!(empty.bounds(Window::Month, LAST_DAY + 1), (LAST_DAY + 1, LAST_DAY + 1));
    assert_eq!(empty.bounds(Window::Week, i64::MIN), (i64::MIN, i64::MIN));
}
