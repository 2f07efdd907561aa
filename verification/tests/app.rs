use codex_prompt_history::app::{
    equal_records, marked_before, nth_marked, step_within,
    failure_target, group_of, group_rows, is_failed_tool, is_tool, matches_query, matching,
    nth_equal, occurrence, restore_position, tool_groups, visible_position, Focus, RecordMark,
};
use codex_prompt_history::app::App;
use codex_prompt_history::loader::{Loaded, Target};
use codex_prompt_history::history::{Entry, History, ToolInfo};

fn entry(id: &str, text: &str, tool: Option<ToolInfo>) -> Entry {
    Entry { tool, source: Some("a/history".into()), session_id: id.into(), ts: 3, text: text.into() }
}

#[test]
fn tools_and_failures_are_recognized() {
    assert!(is_tool(&entry("TOOL · shell", "x", None)));
    assert!(is_tool(&entry("RESULT · Unmatched result", "x", None)));
    assert!(!is_tool(&entry("USER", "Failed", None)));
    assert!(is_failed_tool(&entry("TOOL · shell", "Failed · exit 2", None)));
    assert!(is_failed_tool(&entry("TOOL · shell", "FAILED · exit 2", None)));
    assert!(!is_failed_tool(&entry("TOOL · shell", "Completed", None)));
    assert!(!is_failed_tool(&entry("USER", "Failed is just a word here", None)));
    let recorded = ToolInfo { summary: "s".into(), failed: true, command: None };
    assert!(is_failed_tool(&entry("TOOL · read", "Completed", Some(recorded))));
    let ok = ToolInfo { summary: "s".into(), failed: false, command: None };
    assert!(!is_failed_tool(&entry("TOOL · read", "Failed", Some(ok))));
}

#[test]
fn queries_match_text_roles_and_summaries_in_lowercase() {
    let summary = ToolInfo { summary: "Summary-Only Match".into(), failed: false, command: None };
    let e = entry("TOOL · Shell", "Needle ONE", Some(summary));
    assert!(matches_query(&e, ""));
    assert!(matches_query(&e, "needle one"));
    assert!(matches_query(&e, "tool · shell"));
    assert!(matches_query(&e, "summary-only"));
    assert!(!matches_query(&e, "missing"));
    assert!(!matches_query(&e, "Needle"));
}

#[test]
fn marks_find_their_record_again() {
    let e = entry("USER", "hello", None);
    let mark = RecordMark::new(&e);
    assert!(mark.matches(&e));
    assert!(!mark.matches(&entry("USER", "changed", None)));
    let mut moved = entry("USER", "hello", None);
    moved.source = Some("b/history".into());
    assert!(!mark.matches(&moved));
    assert_eq!(RecordMark::digest(&e), RecordMark::digest(&entry("X", "hello", None)));
    assert_eq!(Focus::default(), Focus::List);
}

fn record(id: &str, text: &str) -> Entry {
    Entry { tool: None, source: None, session_id: id.into(), ts: 0, text: text.into() }
}

#[test]
fn tool_runs_become_groups_and_rows_fold_them() {
    let entries = vec![
        record("USER", "hello"),
        record("TOOL · shell", "Completed\nneedle"),
        record("TOOL · search", "Failed\noutput"),
        record("ASSISTANT", "done"),
        record("TOOL · read", "alone"),
    ];
    let groups = tool_groups(&entries);
    assert_eq!(groups, vec![(1, 3)]);
    assert_eq!(group_of(&groups, 2), Some(0));
    assert_eq!(group_of(&groups, 4), None);
    let visible = vec![0, 1, 2, 3, 4];
    let len = entries.len();
    assert_eq!(group_rows(&visible, &groups, &vec![], len), vec![0, len + 1, 3, 4]);
    assert_eq!(group_rows(&visible, &groups, &vec![len + 1], len), vec![0, len + 1, 1, 2, 3, 4]);
    let reversed = vec![4, 3, 2, 1, 0];
    assert_eq!(group_rows(&reversed, &groups, &vec![], len), vec![4, 3, len + 1, 0]);
}

#[test]
fn failure_navigation_wraps_in_display_order() {
    let failures = vec![2, 5, 7];
    assert_eq!(failure_target(&failures, Some(3), None, false, true, 10), 5);
    assert_eq!(failure_target(&failures, Some(7), None, false, true, 10), 2);
    assert_eq!(failure_target(&failures, Some(3), None, false, false, 10), 2);
    assert_eq!(failure_target(&failures, Some(1), None, false, false, 10), 7);
    assert_eq!(failure_target(&failures, None, None, false, true, 10), 2);
    assert_eq!(failure_target(&failures, Some(5), Some((5, 7)), false, true, 10), 5);
    let reversed = vec![7, 5, 2];
    assert_eq!(failure_target(&reversed, Some(6), None, true, true, 10), 5);
}

#[test]
fn filters_and_occurrences_find_records() {
    let mut a = record("same", "rust");
    a.source = Some("a/history".into());
    let mut b = record("same", "rust");
    b.source = Some("b/history".into());
    let c = record("other", "RUST here");
    let entries = vec![a.clone(), b.clone(), c.clone(), a.clone()];
    assert_eq!(matching(&entries, None, None, "rust"), vec![0, 1, 2, 3]);
    let source = "a/history".to_owned();
    assert_eq!(matching(&entries, Some(&source), None, ""), vec![0, 3]);
    let id = "same".to_owned();
    let origin = "b/history".to_owned();
    assert_eq!(matching(&entries, None, Some((&id, Some(&origin))), ""), vec![1]);
    assert_eq!(matching(&entries, None, None, "missing"), Vec::<usize>::new());
    assert_eq!(occurrence(&entries, 3), 1);
    assert_eq!(nth_equal(&entries, &a, 1), Some(3));
    assert_eq!(nth_equal(&entries, &a, 2), None);
    assert_eq!(nth_equal(&entries, &c, 0), Some(2));
}

#[test]
fn selection_follows_the_record_after_rows_change() {
    // The record moved from row 0 to row 2 after reordering.
    assert_eq!(restore_position(&vec![4, 5, 7], &vec![], 10, Some(7), 0), (Some(2), true));
    // The record is gone: the old position stays, moved up to the last row.
    assert_eq!(restore_position(&vec![4, 5], &vec![], 10, Some(7), 5), (Some(1), false));
    assert_eq!(restore_position(&vec![4, 5, 6], &vec![], 10, Some(7), 1), (Some(1), false));
    assert_eq!(restore_position(&vec![], &vec![], 10, Some(7), 1), (None, false));
    assert_eq!(restore_position(&vec![4, 5], &vec![], 10, None, 0), (Some(0), false));
}

#[test]
fn a_folded_record_selects_its_group_header() {
    // Records 2..5 form a group whose header row is numbered 10 + 2.
    let groups = vec![(2, 5)];
    assert_eq!(visible_position(&vec![0, 12, 6], &groups, 10, 3), Some(1));
    assert_eq!(visible_position(&vec![0, 12, 3, 6], &groups, 10, 3), Some(2));
    assert_eq!(visible_position(&vec![0, 6], &groups, 10, 3), None);
    assert_eq!(visible_position(&vec![0, 12], &groups, 10, 12), Some(1));
    assert_eq!(restore_position(&vec![0, 12, 6], &groups, 10, Some(4), 0), (Some(1), true));
}

#[test]
fn remembered_records_are_found_after_a_reload() {
    let old = vec![entry("s", "kept", None), entry("s", "gone", None)];
    let new = vec![entry("s", "new", None), entry("s", "kept", None), entry("s", "other", None)];
    assert_eq!(equal_records(&new, &old), vec![1]);
    assert_eq!(equal_records(&new, &vec![]), Vec::<usize>::new());
}

#[test]
fn a_cancelled_search_finds_its_record_by_mark() {
    let entries = vec![
        entry("s", "same", None),
        entry("s", "other", None),
        entry("s", "same", None),
        entry("t", "same", None),
    ];
    let mark = RecordMark::new(&entries[2]);
    let before = marked_before(&entries, &mark, 2);
    assert_eq!(before, 1);
    assert_eq!(nth_marked(&entries, &mark, before), Some(2));
    let mut reloaded = vec![entry("s", "new", None)];
    reloaded.extend(entries.iter().cloned());
    assert_eq!(nth_marked(&reloaded, &mark, before), Some(3));
    assert_eq!(nth_marked(&entries, &mark, 2), None);
}

#[test]
fn steps_stop_at_both_ends() {
    assert_eq!(step_within(3, 1, 5), 4);
    assert_eq!(step_within(3, 10, 5), 5);
    assert_eq!(step_within(3, -10, 5), 0);
    assert_eq!(step_within(0, isize::MIN, 5), 0);
    assert_eq!(step_within(usize::MAX, isize::MAX, 7), 7);
    assert_eq!(step_within(9, 0, 5), 5);
}

fn day(date: chrono::NaiveDate) -> i64 {
    chrono::Datelike::num_days_from_ce(&date) as i64
}

fn history_of(entries: Vec<Entry>) -> History {
    History { sources: vec![], entries, skipped: 0 }
}

fn app() -> App {
    App::new(history_of(vec![
        Entry { tool: None, source: None, session_id: "a".into(), ts: 3, text: "RUST 世界".into() },
        Entry { tool: None, source: None, session_id: "b".into(), ts: 2, text: "other".into() },
        Entry { tool: None, source: None, session_id: "a".into(), ts: 1, text: "rust again".into() },
    ]))
}

#[test]
fn search_cancel_restores_query_selection_and_scroll_after_reload() {
    let mut a = app();
    a.move_selection(2);
    a.scroll = 5;
    a.focus = Focus::Detail;
    a.begin_search();
    a.search.insert(&mut a.query, "no matching records");
    a.filter();
    assert!(a.visible.is_empty());
    let mut updated = app().history;
    updated.entries.insert(
        0,
        Entry { tool: None, source: None, session_id: "new".into(), ts: 4, text: "new prompt".into() },
    );
    a.replace_history(updated);
    a.cancel_search();
    assert!(a.query.is_empty());
    assert!(!a.searching);
    assert_eq!(a.selected().unwrap().ts, 1);
    assert_eq!(a.scroll, 5);
    assert_eq!(a.focus, Focus::Detail);
    assert!(a.search.history.is_empty());
    a.begin_search();
    a.search.insert(&mut a.query, "RUST");
    a.filter();
    a.confirm_search();
    assert_eq!(a.search.history, vec!["RUST".to_string()]);
    assert_eq!(a.visible.len(), 2);
}

#[test]
fn date_filter_uses_local_days_without_hiding_the_chart_context() {
    let today = chrono::Local::now().date_naive();
    let yesterday = today.pred_opt().unwrap();
    let ts = |date: chrono::NaiveDate| {
        date.and_hms_opt(12, 0, 0)
            .unwrap()
            .and_local_timezone(chrono::Local)
            .earliest()
            .unwrap()
            .timestamp()
    };
    let alpha = ".codex/history.jsonl".to_string();
    let beta = ".codex-beta/history.jsonl".to_string();
    let mut a = App::new(history_of(vec![
        Entry {
            tool: None,
            source: Some(alpha.clone()),
            session_id: "same".into(),
            ts: ts(today),
            text: "today alpha".into(),
        },
        Entry {
            tool: None,
            source: Some(beta.clone()),
            session_id: "same".into(),
            ts: ts(today),
            text: "today beta".into(),
        },
        Entry {
            tool: None,
            source: Some(alpha),
            session_id: "same".into(),
            ts: ts(yesterday),
            text: "yesterday".into(),
        },
    ]));
    a.focus_activity();
    a.navigate(-1);
    assert_eq!(a.activity_cursor, day(yesterday));
    assert_eq!(a.activity.count(day(yesterday)), 1);
    a.apply_activity_date();
    assert_eq!(a.focus, Focus::List);
    assert_eq!(a.visible, vec![2]);
    assert_eq!(a.activity.count(day(today)), 2);
    assert!(a.filter_summary().contains(&format!("Date: {yesterday}")));
    a.source_filter = Some(beta);
    a.filter();
    assert!(a.visible.is_empty());
    assert_eq!(a.activity.count(day(today)), 1);
    assert!(a.clear_one_filter());
    assert_eq!(a.date_filter, None);
    assert_eq!(a.visible, vec![1]);
    a.focus_activity();
    a.navigate(isize::MAX);
    assert_eq!(a.activity_cursor, day(today));
    a.navigate(isize::MIN);
    assert_eq!(a.activity_cursor, day(today.checked_sub_days(chrono::Days::new(29)).unwrap()));
    a.apply_activity_date();
    assert!(a.visible.is_empty());
}

#[test]
fn failure_navigation_expands_groups_wraps_and_respects_search_and_order() {
    let mut a = app();
    a.session_source = Some("session".into());
    a.history.entries = vec![
        Entry {
            tool: None,
            source: None,
            session_id: "USER".into(),
            ts: 0,
            text: "Failed is just a word here".into(),
        },
        Entry {
            tool: Some(ToolInfo { command: None, summary: "one".into(), failed: true }),
            source: None,
            session_id: "TOOL · shell".into(),
            ts: 1,
            text: "Failed\nneedle one".into(),
        },
        Entry {
            tool: Some(ToolInfo { command: None, summary: "ok".into(), failed: false }),
            source: None,
            session_id: "TOOL · shell".into(),
            ts: 2,
            text: "Completed".into(),
        },
        Entry {
            tool: Some(ToolInfo { command: None, summary: "two".into(), failed: true }),
            source: None,
            session_id: "TOOL · read".into(),
            ts: 3,
            text: "Failed\nneedle two".into(),
        },
    ];
    a.filter();
    assert_eq!(a.visible, vec![0, 5]);
    a.jump_failure(true);
    assert_eq!(a.selected().unwrap().ts, 1);
    assert!(a.expanded_groups.contains(&5));
    assert!(!a.tool_collapsed(1));
    a.jump_failure(false);
    assert_eq!(a.selected().unwrap().ts, 3);
    a.oldest_first = true;
    a.filter();
    a.jump_failure(true);
    assert_eq!(a.selected().unwrap().ts, 1);
    a.query = "two".into();
    a.filter();
    a.jump_failure(true);
    assert_eq!(a.selected().unwrap().ts, 3);
    a.history.entries[3].tool.as_mut().unwrap().summary = "summary-only match".into();
    a.query = "summary-only".into();
    a.filter();
    a.jump_failure(true);
    assert_eq!(a.selected().unwrap().ts, 3);
    a.query = "Completed".into();
    a.filter();
    let selected = a.list.selected();
    a.jump_failure(true);
    assert_eq!(a.list.selected(), selected);
    assert!(a.status.contains("No failed tools"));
}

#[test]
fn filtering_and_reload_keep_the_record_and_scroll() {
    let mut a = app();
    a.move_selection(2);
    a.scroll = 7;
    a.query = "rust".into();
    a.filter();
    assert_eq!(a.selected().unwrap().ts, 1);
    assert_eq!(a.scroll, 7);
    a.oldest_first = true;
    a.filter();
    assert_eq!(a.selected().unwrap().ts, 1);
    a.query = "no matches".into();
    a.filter();
    assert!(a.selected().is_none());
    a.scroll = 0; // An empty preview is drawn.
    a.query.clear();
    a.filter();
    assert_eq!(a.selected().unwrap().ts, 1);
    assert_eq!(a.scroll, 7);
    let mut replacement = app().history;
    replacement.entries.insert(
        0,
        Entry { tool: None, source: None, session_id: "new".into(), ts: 4, text: "newest".into() },
    );
    a.replace_history(replacement);
    assert_eq!(a.selected().unwrap().ts, 1);
    assert_eq!(a.scroll, 7);
}

#[test]
fn navigation_moves_only_the_focused_pane() {
    let mut a = app();
    a.detail_max_scroll = 100;
    a.detail_page_size = 12;
    a.toggle_focus();
    a.navigate(1);
    a.page(1);
    assert_eq!(a.scroll, 13);
    assert_eq!(a.list.selected(), Some(0));
    a.navigate(isize::MAX);
    assert_eq!(a.scroll, 100);
    a.navigate(isize::MIN);
    assert_eq!(a.scroll, 0);
    a.toggle_focus();
    a.navigate(1);
    assert_eq!(a.list.selected(), Some(1));
}

#[test]
fn source_cycle_and_escape_clear_filters_in_order() {
    let mut a = app();
    for (entry, source) in a.history.entries.iter_mut().zip([".codex", ".codex-beta", ".codex-gamma"]) {
        entry.source = Some(format!("{source}/history.jsonl"));
    }
    a.cycle_source();
    assert_eq!(a.visible, vec![0]);
    assert!(a.filter_summary().contains("Source: alpha"));
    a.cycle_source();
    assert_eq!(a.visible, vec![1]);
    a.cycle_source();
    assert_eq!(a.visible, vec![2]);
    a.toggle_session();
    a.query = "rust".into();
    a.filter();
    assert!(a.clear_one_filter());
    assert!(a.query.is_empty());
    assert!(a.session.is_some());
    assert!(a.clear_one_filter());
    assert!(a.session.is_none());
    assert!(a.source_filter.is_some());
    assert!(a.clear_one_filter());
    assert!(a.source_filter.is_none());
    assert!(!a.clear_one_filter());
    assert_eq!(a.visible.len(), 3);
}

#[test]
fn session_toggle_preserves_the_selected_record_in_both_directions() {
    let mut a = app();
    a.move_selection(2);
    a.scroll = 3;
    a.toggle_session();
    assert_eq!(a.visible, vec![0, 2]);
    assert_eq!(a.list.selected(), Some(1));
    assert_eq!(a.scroll, 3);
    a.toggle_session();
    assert_eq!(a.list.selected(), Some(2));
    assert_eq!(a.selected().unwrap().ts, 1);
    // Preserve the current record even after moving within the filtered list.
    a.toggle_session();
    a.move_selection(-1);
    a.toggle_session();
    assert_eq!(a.list.selected(), Some(0));
    a.query = "rust".into();
    a.oldest_first = true;
    a.filter();
    a.move_selection(1);
    a.toggle_session();
    a.toggle_session();
    assert_eq!(a.list.selected(), Some(1));
    assert_eq!(a.selected().unwrap().ts, 3);
}

#[test]
fn session_filter_keeps_sources_separate() {
    let mut a = app();
    a.history.entries[0].source = Some(".codex/history.jsonl".into());
    a.history.entries[2].source = Some(".codex-beta/history.jsonl".into());
    a.toggle_session();
    assert_eq!(a.visible, vec![0]);
    a.toggle_session();
    assert_eq!(a.visible, vec![0, 1, 2]);
}

#[test]
fn groups_tools_with_nested_folding_search_and_reverse_order() {
    let mut a = App::new(history_of(vec![
        Entry { tool: None, source: None, session_id: "USER".into(), ts: 1, text: "hello".into() },
        Entry {
            tool: None,
            source: None,
            session_id: "TOOL · shell".into(),
            ts: 2,
            text: "Completed\nneedle".into(),
        },
        Entry {
            tool: None,
            source: None,
            session_id: "TOOL · search".into(),
            ts: 3,
            text: "Failed\noutput".into(),
        },
        Entry { tool: None, source: None, session_id: "ASSISTANT".into(), ts: 4, text: "done".into() },
    ]));
    a.session_source = Some("demo".into());
    a.filter();
    assert_eq!(a.visible, vec![0, 5, 3]);
    a.move_selection(1);
    assert_eq!(a.selected_group(), Some((1, 3)));
    assert!(a.selected().is_none());
    a.toggle_tool();
    assert_eq!(a.visible, vec![0, 5, 1, 2, 3]);
    a.move_selection(1);
    a.toggle_tool();
    assert!(!a.tool_collapsed(1));
    a.collapse_groups();
    assert_eq!(a.visible, vec![0, 5, 3]);
    assert_eq!(a.list.selected(), Some(1));
    assert!(a.tool_collapsed(1));
    a.query = "needle".into();
    a.filter();
    assert_eq!(a.visible, vec![1]);
    a.query.clear();
    a.oldest_first = true;
    a.filter();
    assert_eq!(a.visible, vec![3, 5, 0]);
    assert_eq!(a.selected_group(), Some((1, 3)));
    a.toggle_tool();
    assert_eq!(a.visible, vec![3, 5, 2, 1, 0]);
}

#[test]
fn search_session_sort_and_navigation() {
    let mut a = app();
    a.query = "rust".into();
    a.filter();
    assert_eq!(a.visible, vec![0, 2]);
    a.toggle_session();
    assert_eq!(a.session.as_deref(), Some("a"));
    a.oldest_first = true;
    a.filter();
    assert_eq!(a.selected().unwrap().ts, 3);
    a.move_selection(100);
    assert_eq!(a.selected().unwrap().ts, 3);
    a.query = "missing".into();
    a.filter();
    a.move_selection(-1);
    assert!(a.selected().is_none());
}

#[test]
fn loads_report_into_the_view_they_are_for() {
    let mut a = app();
    codex_prompt_history::app::begin_loading(&mut a, Target::History, Ok(()));
    assert!(a.loading);
    assert_eq!(a.status, "Loading… Esc cancels · existing view stays usable");
    codex_prompt_history::app::show_progress(&mut a, Target::History, "Reading · 3 · Esc cancels".into());
    assert_eq!(a.status, "Reading · 3 · Esc cancels");
    let kept = a.history.entries.len();
    assert!(codex_prompt_history::app::finish_loading(&mut a, Target::History, Err("gone".into())).is_none());
    assert!(!a.loading);
    assert_eq!(a.status, "Load failed: gone");
    assert_eq!(a.history.entries.len(), kept);
    codex_prompt_history::app::begin_loading(&mut a, Target::ReloadSession, Ok(()));
    assert!(!a.loading);
    let mut fresh = app().history;
    fresh.entries.truncate(1);
    assert!(codex_prompt_history::app::finish_loading(&mut a, Target::History, Ok(Loaded::History(fresh))).is_none());
    assert_eq!(a.status, "History reloaded");
    assert_eq!(a.visible, vec![0]);
    a.scroll = 9;
    a.fit_details(5, 7);
    assert_eq!((a.detail_page_size, a.detail_max_scroll, a.scroll), (4, 2, 2));
    a.fit_details(1, 0);
    assert_eq!((a.detail_page_size, a.detail_max_scroll, a.scroll), (1, 0, 0));
}
