use codex_prompt_history::clipboard::{
    native_failed, route, selection, terminal_sequence, Clipboard, Kind, Mode, Outcome, Received,
    Route, Selection,
};
use codex_prompt_history::history::{Entry, RecordedCommand, ToolInfo};
use std::sync::mpsc;

fn tool_entry(command: RecordedCommand, text: &str) -> Entry {
    Entry {
        source: None,
        tool: Some(ToolInfo { summary: "shortened…".into(), failed: false, command: Some(command) }),
        session_id: "TOOL · shell".into(),
        ts: 0,
        text: text.into(),
    }
}

#[test]
fn content_and_commands_are_complete_and_ids_are_not_role_names() {
    let full = "echo '中文'\nprintf '%s' \"$HOME\"\n".repeat(20);
    let e = tool_entry(RecordedCommand::Shell(full.clone()), &full);
    assert_eq!(selection(Some(&e), false, None, Kind::Content).unwrap().text, full);
    assert_eq!(selection(Some(&e), false, None, Kind::Command).unwrap().text, full);
    let id = "real-session-id".to_owned();
    assert_eq!(selection(Some(&e), true, Some(&id), Kind::SessionId).unwrap().text, "real-session-id");
    assert!(selection(None, true, Some(&id), Kind::Content).is_err());
    assert_eq!(selection(None, true, Some(&id), Kind::SessionId).unwrap().text, "real-session-id");
}

#[test]
fn argument_vectors_are_copied_as_json_arrays() {
    let e = tool_entry(
        RecordedCommand::Arguments(vec!["bash".into(), "-lc".into(), "echo 'a b'".into()]),
        "x",
    );
    let s = selection(Some(&e), false, None, Kind::Command).unwrap();
    assert_eq!(s.label, "tool arguments (JSON array)");
    assert_eq!(s.text, "[\"bash\",\"-lc\",\"echo 'a b'\"]");
    let plain = Entry { tool: None, ..tool_entry(RecordedCommand::Shell("x".into()), "x") };
    assert_eq!(
        selection(Some(&plain), false, None, Kind::Command).err().unwrap(),
        "The selected record has no recorded command"
    );
    let empty = Entry { session_id: String::new(), ..plain };
    assert!(selection(Some(&empty), false, None, Kind::SessionId).is_err());
}

#[test]
fn terminal_copy_encodes_and_never_truncates() {
    let sequence = terminal_sequence("hello").unwrap();
    assert!(sequence.contains("52;c;aGVsbG8="));
    assert_eq!(sequence, "\x1b]52;c;aGVsbG8=\x1b\\");
    assert!(terminal_sequence(&"x".repeat(100 * 1024 + 1)).is_err());
    assert!(terminal_sequence(&"x".repeat(100 * 1024)).is_ok());
}

#[test]
fn routes_depend_on_mode_and_session() {
    assert!(matches!(route(Mode::Auto, false, "a"), Route::Native));
    assert!(matches!(route(Mode::Auto, true, "a"), Route::Terminal));
    assert!(matches!(route(Mode::Terminal, false, "a"), Route::Terminal));
    assert!(matches!(route(Mode::Native, true, "a"), Route::Native));
    assert!(matches!(route(Mode::Native, true, "a\0b"), Route::Refuse(_)));
    let s = Selection { label: "record content", text: "t".into() };
    assert!(matches!(native_failed(Mode::Native, s, "boom"), Outcome::Error(m) if m == "Native clipboard unavailable: boom"));
    let s = Selection { label: "record content", text: "t".into() };
    assert!(matches!(native_failed(Mode::Auto, s, "boom"), Outcome::Terminal(sel) if sel.text == "t"));
}

#[test]
fn one_copy_at_a_time() {
    let (requests, worker) = mpsc::sync_channel::<Selection>(1);
    let (sender, results) = mpsc::channel::<Outcome>();
    let mut clipboard = Clipboard::connect(requests, results);
    clipboard.copy(Selection { label: "record content", text: "a".into() }).unwrap();
    assert!(clipboard.pending());
    assert_eq!(
        clipboard.copy(Selection { label: "record content", text: "b".into() }).err().unwrap(),
        "A clipboard request is already in progress"
    );
    assert!(clipboard.poll().is_none());
    let taken = worker.recv().unwrap();
    sender.send(Outcome::Native(taken.label)).unwrap();
    assert!(matches!(clipboard.poll(), Some(Outcome::Native("record content"))));
    assert!(!clipboard.pending());
    clipboard.copy(Selection { label: "record content", text: "c".into() }).unwrap();
    drop(sender);
    assert!(matches!(clipboard.poll(), Some(Outcome::Error(m)) if m == "Clipboard worker stopped"));
    assert!(clipboard.take(Received::Closed).is_none());
}

#[test]
fn json_arrays_escape_quotes_backslashes_and_controls() {
    let e = tool_entry(
        RecordedCommand::Arguments(vec!["a\"b".into(), "c\\d".into(), "e\nf\u{1}\t".into(), "ü/".into()]),
        "x",
    );
    let s = selection(Some(&e), false, None, Kind::Command).unwrap();
    assert_eq!(s.text, "[\"a\\\"b\",\"c\\\\d\",\"e\\nf\\u0001\\t\",\"ü/\"]");
    let none = tool_entry(RecordedCommand::Arguments(vec![]), "x");
    assert_eq!(selection(Some(&none), false, None, Kind::Command).unwrap().text, "[]");
}
