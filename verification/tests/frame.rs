use codex_prompt_history::app::{App, Focus};
use codex_prompt_history::frame::{count_line, folded_details, frame_plan, list_title, preview, rows_exist, spacers, RowText};
use codex_prompt_history::history::{Entry, History};
use codex_prompt_history::keys::{Escape, Key};

fn entry(id: &str, ts: i64, text: &str) -> Entry {
    Entry { tool: None, source: None, session_id: id.into(), ts, text: text.into() }
}

fn timeline() -> App {
    let mut a = App::new(History {
        sources: vec![],
        entries: vec![
            entry("USER", 1, "hello"),
            entry("TOOL · shell", 2, "Completed\nneedle"),
            entry("TOOL · search", 3, "Failed\noutput"),
            entry("ASSISTANT", 4, "done"),
        ],
        skipped: 0,
    });
    a.session_source = Some("demo".into());
    a.filter();
    a
}

#[test]
fn previews_keep_the_words_of_the_first_columns() {
    assert_eq!(preview("  hello \t world\nfoo ", 20), "hello world foo");
    assert_eq!(preview("abcdef", 1), "ab");
    assert_eq!(preview(" \n\t ", 10), "(empty prompt)");
    assert_eq!(preview("", 10), "(empty prompt)");
    assert_eq!(preview("a\u{7}b c", 10), "ab c");
}

#[test]
fn folded_tools_show_their_outcome_and_how_to_unfold() {
    assert_eq!(
        folded_details("Completed · exit 0\nmore"),
        "Completed · exit 0\n\nPress Enter or Space to expand.\nInput and result appear together.\nSearch includes the hidden content."
    );
    assert!(folded_details("just output").starts_with("Tool details collapsed.\n\n"));
}

#[test]
fn the_plan_counts_titles_and_spaces_the_rows() {
    let mut a = timeline();
    assert_eq!(a.visible, vec![0, 5, 3]);
    assert!(rows_exist(&a));
    let plan = frame_plan(&a, 80, 24, 36);
    assert!(!plan.too_small);
    assert!(frame_plan(&a, 44, 24, 36).too_small);
    assert!(frame_plan(&a, 80, 17, 36).too_small);
    assert_eq!(plan.count_line, format!(" {}/4 records · Focus: List · Tab switches panes", a.matched_count));
    assert_eq!(plan.list_title, " Timeline · 1/3 · file order ");
    assert_eq!(plan.header, " 4 messages / tool events · 0 malformed lines skipped · Esc back");
    assert!(!plan.several_sources);
    assert_eq!(plan.rows.len(), 3);
    match &plan.rows[1] {
        RowText::Group { text, failed } => {
            assert_eq!(text, "▸ Tool activity · 2 entries · 1 failed");
            assert_eq!(*failed, 1);
        }
        _ => panic!("the second row is the tool group"),
    }
    match &plan.rows[0] {
        RowText::Record { label, preview } => {
            assert_eq!(label, "USER");
            assert_eq!(preview, "hello");
        }
        _ => panic!("the first row is a record"),
    }
    assert_eq!(plan.spacers, vec![true, true, true]);
    a.move_selection(1);
    a.toggle_tool();
    assert_eq!(a.visible, vec![0, 5, 1, 2, 3]);
    assert_eq!(spacers(&a), vec![true, false, false, true, true]);
    let unfolded = frame_plan(&a, 80, 24, 36);
    assert!(matches!(unfolded.rows[2], RowText::Tool));
    match &unfolded.rows[1] {
        RowText::Group { text, .. } => assert!(text.starts_with("▾ Tool activity")),
        _ => panic!("the second row is the tool group"),
    }
    a.focus = Focus::Detail;
    a.oldest_first = true;
    assert!(count_line(&a).contains("Focus: Details"));
    assert!(list_title(&a).contains(" · reverse "));
    a.visible.push(99);
    assert!(!rows_exist(&a));
}

#[test]
fn help_scrolls_within_its_length_and_closes() {
    let mut a = timeline();
    a.open_help();
    assert!(a.help);
    assert_eq!(a.help_scroll, 0);
    a.help_max_scroll = 5;
    a.help_page = 4;
    a.help_key(Key::Down);
    assert_eq!(a.help_scroll, 1);
    a.help_key(Key::PageDown);
    assert_eq!(a.help_scroll, 5);
    a.help_key(Key::Char('j'));
    assert_eq!(a.help_scroll, 5);
    a.help_key(Key::PageUp);
    assert_eq!(a.help_scroll, 1);
    a.help_key(Key::PageUp);
    assert_eq!(a.help_scroll, 0);
    a.help_key(Key::End);
    assert_eq!(a.help_scroll, 5);
    a.help_key(Key::Home);
    assert_eq!(a.help_scroll, 0);
    a.help_key(Key::Char('x'));
    assert!(a.help);
    a.help_key(Key::Char('?'));
    assert!(!a.help);
}

#[test]
fn details_scroll_by_three_and_order_reverses() {
    let mut a = timeline();
    a.scroll_details(true);
    assert_eq!(a.scroll, 3);
    a.scroll_details(false);
    a.scroll_details(false);
    assert_eq!(a.scroll, 0);
    a.scroll = usize::MAX - 1;
    a.scroll_details(true);
    assert_eq!(a.scroll, usize::MAX);
    a.scroll = 0;
    a.toggle_order();
    assert!(a.oldest_first);
    assert_eq!(a.visible, vec![3, 5, 0]);
}

#[test]
fn escape_clears_in_the_view_and_cancelling_says_so() {
    let mut a = timeline();
    a.query = "needle".into();
    a.filter();
    assert_eq!(a.visible, vec![1]);
    a.escape_in_view(Escape::ClearQuery);
    assert!(a.query.is_empty());
    assert_eq!(a.visible, vec![0, 5, 3]);
    a.focus = Focus::Activity;
    a.escape_in_view(Escape::LeaveActivity);
    assert_eq!(a.focus, Focus::List);
    a.loading = true;
    codex_prompt_history::app::cancel_loading(&mut a);
    assert!(!a.loading);
    assert_eq!(a.status, "Loading cancelled");
    let mut root = App::new(History { sources: vec![], entries: vec![], skipped: 0 });
    let mut inner = timeline();
    inner.loading = true;
    root.loading = true;
    root.transcript = Some(Box::new(inner));
    codex_prompt_history::app::cancel_loading(&mut root);
    assert!(!root.loading);
    assert_eq!(root.status, "");
    let inner = root.transcript.as_ref().unwrap();
    assert!(!inner.loading);
    assert_eq!(inner.status, "Loading cancelled");
}

#[test]
fn groups_tally_their_tools_in_name_order() {
    let entries = vec![
        entry("TOOL · shell", 1, "a"),
        entry("TOOL · read", 2, "b"),
        entry("TOOL · shell", 3, "c"),
        entry("TOOL · apply", 4, "d"),
        entry("TOOL · read", 5, "e"),
        entry("TOOL · shell", 6, "f"),
    ];
    let t = codex_prompt_history::frame::tally(&entries, 0, 6);
    assert_eq!(
        t,
        vec![("TOOL · apply".to_string(), 1), ("TOOL · read".to_string(), 2), ("TOOL · shell".to_string(), 3)]
    );
    assert_eq!(codex_prompt_history::frame::tally(&entries, 1, 3), vec![("TOOL · read".to_string(), 1), ("TOOL · shell".to_string(), 1)]);
    assert!(codex_prompt_history::frame::tally(&entries, 2, 2).is_empty());
}
