use codex_prompt_history::history::{display_text, source_name, History};

#[test]
fn source_names_are_parent_directory_names() {
    assert_eq!(source_name(".codex/history.jsonl"), ".codex");
    assert_eq!(source_name(".codex-beta/history.jsonl"), ".codex-beta");
    assert_eq!(source_name(".codex-gamma/history.jsonl"), ".codex-gamma");
    assert_eq!(source_name(".codex-alpha/history.jsonl"), ".codex-alpha");
}

#[test]
fn merges_files_without_duplicate_sources_and_preserves_origins() {
    let a = "/tmp/a.jsonl".to_owned();
    let b = "/tmp/b.jsonl".to_owned();
    let empty = "/tmp/empty.jsonl".to_owned();
    let a_text = "{\"session_id\":\"same\",\"ts\":1,\"text\":\"one\"}\nbad\n".to_owned();
    let b_text = "{\"session_id\":\"same\",\"ts\":2,\"text\":\"two\"}\n".to_owned();
    let files = vec![
        (a.clone(), a_text.clone()),
        (b.clone(), b_text),
        (empty, String::new()),
        (a.clone(), a_text.clone()),
    ];
    let history = History::load_many(&files);
    assert_eq!(history.sources.len(), 3);
    assert_eq!(history.entries.len(), 2);
    assert_eq!(history.skipped, 1);
    assert_eq!(history.entries[0].text, "two");
    assert_eq!(history.entries[0].source.as_ref(), Some(&b));
    assert_eq!(history.entries[1].source.as_ref(), Some(&a));
    let updated = "{\"session_id\":\"same\",\"ts\":3,\"text\":\"updated\"}\n".to_owned();
    assert_eq!(
        History::load_many(&vec![(a.clone(), a_text), (b, updated)]).entries[0].text,
        "updated"
    );
}

#[test]
fn reads_unicode_skips_bad_records_and_sorts() {
    let input = "{\"session_id\":\"a\",\"ts\":1,\"text\":\"你好\\nworld\"}\ninvalid\n\n{\"session_id\":\"b\",\"ts\":3,\"text\":\"new\",\"extra\":true}\n{\"ts\":4}";
    let history = History::parse(input);
    assert_eq!(history.skipped, 2);
    assert_eq!(history.entries.len(), 2);
    assert_eq!(history.entries[0].ts, 3);
    assert_eq!(history.entries[1].text, "你好\nworld");
}

#[test]
fn empty_history_is_valid() {
    assert!(History::parse("\n").entries.is_empty());
}

#[test]
fn strips_control_characters() {
    assert_eq!(display_text("a\u{1b}\u{7}\n\tb"), "a\n    b");
}

#[test]
fn equal_timestamps_keep_file_order_and_crlf_lines_are_read() {
    let input = "{\"session_id\":\"a\",\"ts\":5,\"text\":\"first\"}\r\n{\"session_id\":\"b\",\"ts\":5,\"text\":\"second\"}\r\n{\"session_id\":\"c\",\"ts\":9,\"text\":\"third\"}";
    let history = History::parse(input);
    let texts: Vec<&str> = history.entries.iter().map(|e| e.text.as_str()).collect();
    assert_eq!(texts, vec!["third", "first", "second"]);
    assert_eq!(history.skipped, 0);
}

#[test]
fn records_need_integer_timestamps_and_string_fields() {
    let input = "{\"session_id\":\"a\",\"ts\":1.5,\"text\":\"x\"}\n{\"session_id\":7,\"ts\":1,\"text\":\"x\"}\n[1,2]\n{\"session_id\":\"a\",\"ts\":-2,\"text\":\"ok\"}";
    let history = History::parse(input);
    assert_eq!(history.skipped, 3);
    assert_eq!(history.entries.len(), 1);
    assert_eq!(history.entries[0].ts, -2);
}

#[test]
fn bare_file_names_belong_to_the_current_directory() {
    assert_eq!(source_name("history.jsonl"), ".");
    assert_eq!(source_name("/home/me/.codex/history.jsonl"), ".codex");
}

#[test]
fn lines_in_array_form_are_records_too() {
    let (entries, skipped) = codex_prompt_history::history::read_records(
        "[\"s1\", 5, \"hi\"]\n[\"s1\", 5]\n[\"s1\", \"5\", \"hi\"]\n[\"s1\", 5, \"hi\", 6]\n{\"session_id\":\"s2\",\"ts\":7,\"text\":\"obj\"}\n",
    );
    assert_eq!(skipped, 3);
    assert_eq!(entries.len(), 2);
    assert_eq!(entries[0].session_id, "s1");
    assert_eq!(entries[0].ts, 5);
    assert_eq!(entries[0].text, "hi");
    assert_eq!(entries[1].text, "obj");
}

#[test]
fn shown_text_stays_as_it_is_when_shown_again() {
    for text in ["a\u{1b}\u{7}\n\tb", "plain", "\t\t", "x\r\ny\u{9f}z"] {
        let once = display_text(text);
        assert_eq!(display_text(&once), once);
    }
}
