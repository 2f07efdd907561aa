use codex_prompt_history::history::Entry;
use codex_prompt_history::activity::Activity;
use codex_prompt_history::listing::{next_source, sort, Panel, PanelKind, Sort, Stats};

fn entry(source: &str, id: &str, ts: i64) -> Entry {
    Entry {
        source: Some(source.to_owned()),
        tool: None,
        session_id: id.into(),
        ts,
        text: "prompt".into(),
    }
}

#[test]
fn session_sorting_and_statistics_keep_source_identity() {
    let entries = vec![
        entry("a/history", "same", 4),
        entry("b/history", "same", 8),
        entry("a/history", "other", 9),
        entry("a/history", "same", 2),
        entry("a/history", "same", 1),
        entry("b/history", "same", 0),
    ];
    let mut indices: Vec<usize> = (0..entries.len()).collect();
    sort(&entries, &mut indices, Sort::Time);
    assert_eq!(indices, vec![2, 1, 0, 3, 4, 5]);
    sort(&entries, &mut indices, Sort::SessionRecent);
    assert_eq!(indices, vec![2, 1, 5, 0, 3, 4]);
    sort(&entries, &mut indices, Sort::SessionCount);
    assert_eq!(indices, vec![0, 3, 4, 1, 5, 2]);
    let stats = Stats::build(&entries, &(0..entries.len()).collect());
    assert_eq!(stats.records, 6);
    assert_eq!(stats.sessions, 3);
    assert_eq!(stats.sources.len(), 2);
    assert_eq!(stats.first, Some(0));
    assert_eq!(stats.last, Some(9));
    assert_eq!(
        stats.busiest,
        Some((Some("a/history".to_owned()), "same".into(), 3))
    );
    let filtered = Stats::build(&entries, &vec![1, 5]);
    assert_eq!(filtered.sessions, 1);
    assert_eq!(filtered.records, 2);
}

#[test]
fn equal_sessions_are_ordered_by_source_then_id() {
    let entries = vec![
        entry("b", "x", 5),
        entry("a", "y", 5),
        entry("a", "x", 5),
    ];
    let mut indices = vec![0, 1, 2];
    sort(&entries, &mut indices, Sort::SessionRecent);
    assert_eq!(indices, vec![2, 1, 0]);
    let mut subset = vec![2, 0];
    sort(&entries, &mut subset, Sort::Time);
    assert_eq!(subset, vec![0, 2]);
}

#[test]
fn path_separators_order_before_other_characters() {
    let entries = vec![entry("a-b/h", "s", 1), entry("a/b/h", "s", 1)];
    let mut indices = vec![0, 1];
    sort(&entries, &mut indices, Sort::SessionCount);
    assert_eq!(indices, vec![1, 0]);
}

#[test]
fn panels_start_unscrolled() {
    let panel = Panel::new(PanelKind::Stats, 2);
    assert_eq!(panel.selected, 2);
    assert_eq!(panel.scroll, 0);
    assert_eq!(panel.max_scroll, 0);
    assert_eq!(panel.page, 1);
    assert!(matches!(panel.kind, PanelKind::Stats));
    assert_eq!(Sort::default(), Sort::Time);
}

fn timeline(id: &str, text: &str) -> Entry {
    Entry { source: None, tool: None, session_id: id.into(), ts: 1, text: text.into() }
}

#[test]
fn statistics_count_roles_sources_and_days() {
    let entries = vec![
        timeline("USER", "hi"),
        timeline("ASSISTANT", "hello"),
        timeline("TOOL · shell", "ls"),
        timeline("RESULT · shell", "Failed: exit 1"),
        entry("b/history", "x", 7),
        entry("a/history", "x", 3),
        entry("b/history", "y", 5),
    ];
    let all: Vec<usize> = (0..entries.len()).collect();
    let stats = Stats::build(&entries, &all);
    assert_eq!((stats.users, stats.assistants, stats.tools, stats.results), (1, 1, 1, 1));
    assert_eq!(stats.failures, 1);
    assert_eq!(
        stats.sources,
        vec![("a/history".to_owned(), 1), ("b/history".to_owned(), 2)]
    );
    assert_eq!(stats.days.counts.iter().map(|d| d.1).sum::<u64>(), 7);
    assert_eq!(stats.first, Some(1));
    assert_eq!(stats.last, Some(7));
    let empty = Stats::build(&entries, &vec![]);
    assert_eq!((empty.records, empty.sessions, empty.first, empty.busiest), (0, 0, None, None));
}

#[test]
fn the_peak_day_is_the_latest_of_the_busiest_days() {
    let mut stats = Stats::build(&vec![], &vec![]);
    assert_eq!(stats.peak(), None);
    stats.days = Activity { counts: vec![(10, 2), (11, 5), (12, 5), (13, 1)] };
    assert_eq!(stats.peak(), Some((12, 5)));
    assert_eq!(stats.recent(0), stats.recent(1));
}

#[test]
fn sources_cycle_in_path_order_then_back_to_all() {
    let entries = vec![
        entry("b/history", "x", 1),
        entry("a/history", "x", 2),
        entry("a-b/history", "x", 3),
        timeline("USER", "no source"),
    ];
    let first = next_source(&entries, None);
    assert_eq!(first.as_deref(), Some("a/history"));
    let second = next_source(&entries, first.as_ref());
    assert_eq!(second.as_deref(), Some("a-b/history"));
    let third = next_source(&entries, second.as_ref());
    assert_eq!(third.as_deref(), Some("b/history"));
    assert_eq!(next_source(&entries, third.as_ref()), None);
    assert_eq!(next_source(&vec![timeline("USER", "x")], None), None);
}

#[test]
fn every_input_order_sorts_alike() {
    let entries = vec![
        entry("a/history", "same", 4),
        entry("b/history", "same", 8),
        entry("a/history", "other", 9),
        entry("a/history", "same", 4),
        entry("b/history", "other", 8),
    ];
    for mode in [Sort::Time, Sort::SessionRecent, Sort::SessionCount] {
        let mut first: Vec<usize> = vec![0, 1, 2, 3, 4];
        let mut second: Vec<usize> = vec![4, 2, 0, 3, 1];
        let mut third: Vec<usize> = vec![3, 4, 1, 0, 2];
        sort(&entries, &mut first, mode);
        sort(&entries, &mut second, mode);
        sort(&entries, &mut third, mode);
        assert_eq!(first, second);
        assert_eq!(first, third);
    }
}
