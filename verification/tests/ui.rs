use codex_prompt_history::history::{Entry, ToolInfo};
use codex_prompt_history::ui::{
    elide, group_row, multiple_sources, query_tail, recent_counts, row_label, spread, too_small, tool_label,
};

#[test]
fn tool_summary_leaves_room_for_failure_status() {
    let entry = Entry {
        tool: Some(ToolInfo {
            summary: "cargo test 中文路径".repeat(20),
            failed: true,
            command: None,
        }),
        source: None,
        session_id: "TOOL · shell".into(),
        ts: 0,
        text: "Failed · exit 2".into(),
    };
    let label = tool_label(&entry, 52, "1970-01-01 00:00");
    assert!(label.contains("cargo test"));
    assert!(label.contains('…'));
    assert!(label.ends_with("Failed · exit 2"));
    assert!(unicode_width::UnicodeWidthStr::width(label.as_str()) <= 52);
}

#[test]
fn elided_text_keeps_one_row() {
    assert_eq!(elide("short", 10), "short");
    assert_eq!(elide("line one\nline two", 40), "line one line two");
    assert_eq!(elide("abcdef", 4), "abc…");
    assert_eq!(elide("中文路径", 5), "中文…");
    assert_eq!(elide("anything", 0), "");
    assert_eq!(elide("a\tb", 10), "a    b");
}

#[test]
fn tool_labels_name_the_tool_and_its_outcome() {
    let mut entry = Entry {
        tool: Some(ToolInfo { summary: "ls -la".into(), failed: false, command: None }),
        source: None,
        session_id: "TOOL · shell".into(),
        ts: 0,
        text: "Completed · 2s\noutput".into(),
    };
    assert_eq!(tool_label(&entry, 60, "noon"), "▸ shell · ls -la · Completed · 2s");
    entry.text = "plain output".into();
    assert_eq!(tool_label(&entry, 60, "noon"), "▸ shell · ls -la · noon");
    assert_eq!(tool_label(&entry, 12, "noon"), "▸ she… · noon");
    entry.session_id = "RESULT · shell".into();
    entry.text = "Failed".into();
    entry.tool = None;
    assert_eq!(tool_label(&entry, 60, "noon"), "▸ RESULT · shell · Failed");
}

fn plain(session: &str, source: Option<&str>, text: &str) -> Entry {
    Entry { tool: None, source: source.map(str::to_owned), session_id: session.into(), ts: 0, text: text.into() }
}

#[test]
fn small_terminals_are_refused() {
    assert!(too_small(44, 18));
    assert!(too_small(45, 17));
    assert!(!too_small(45, 18));
}

#[test]
fn group_rows_count_entries_and_failures() {
    let entries = vec![
        plain("USER", None, "hi"),
        plain("TOOL · shell", None, "Failed · exit 1"),
        plain("TOOL · shell", None, "Completed"),
    ];
    assert_eq!(group_row(&entries, 1, 3, false), ("▸ Tool activity · 2 entries · 1 failed".to_string(), 1));
    assert_eq!(group_row(&entries, 2, 3, true), ("▾ Tool activity · 1 entries".to_string(), 0));
}

#[test]
fn source_labels_appear_with_several_sources() {
    let one = vec![plain("abcdefghij", Some(".codex/history.jsonl"), "x")];
    assert!(!multiple_sources(&one));
    let two = vec![one[0].clone(), plain("b", Some(".codex-beta/history.jsonl"), "y"), plain("c", None, "z")];
    assert!(multiple_sources(&two));
    assert_eq!(row_label(&two[0], false, true), ".codex · abcdefgh");
    assert_eq!(row_label(&two[0], false, false), "abcdefgh");
    assert_eq!(row_label(&two[0], true, true), "abcdefghij");
}

#[test]
fn long_queries_show_their_end() {
    assert_eq!(query_tail("hello world", 5), "world");
    assert_eq!(query_tail("ab世界", 4), "世界");
    assert_eq!(query_tail("ab世界", 3), "界");
    assert_eq!(query_tail("short", 40), "short");
}

#[test]
fn the_chart_counts_recent_days_and_spreads_them() {
    let day = 739_837i64;
    let ts = (day - 719_163) * 86_400 + 43_200;
    let entries = vec![plain("a", None, "x"), plain("a", None, "y")];
    let entries: Vec<Entry> = entries.into_iter().map(|mut e| { e.ts = ts; e }).collect();
    let counts = recent_counts(&entries, &vec![0, 1], day + 1);
    assert_eq!(counts.len(), 30);
    assert_eq!(counts.iter().sum::<u64>(), 2);
    assert_eq!(spread(&vec![1, 2, 3], 6), vec![1, 1, 2, 2, 3, 3]);
    assert_eq!(spread(&vec![1, 2, 3], 2), vec![1, 2]);
}
