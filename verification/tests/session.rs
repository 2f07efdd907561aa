use codex_prompt_history::formatting::Summary;
use codex_prompt_history::history::Entry;
use codex_prompt_history::session::{session_directory, Session};

/// How a result's duration is shown: the first recorded duration that reads
/// as a number, with one decimal, when it is finite and not negative.
fn duration_label(summary: &Summary) -> Option<String> {
    let seconds = summary
        .durations
        .iter()
        .find_map(|text| text.parse::<f64>().ok())?;
    if seconds.is_finite() && seconds >= 0.0 {
        Some(format!("{seconds:.1}"))
    } else {
        None
    }
}

fn parse(data: &str, path: &str) -> Session {
    let reading = Session::read(data);
    let labels: Vec<Option<String>> = reading
        .results
        .iter()
        .map(|(_, _, summary)| duration_label(summary))
        .collect();
    Session::assemble(reading, &labels, path)
}

fn item(payload: &str) -> String {
    format!("{{\"type\":\"response_item\",\"payload\":{payload}}}")
}

#[test]
fn pairs_interleaved_calls_by_id_and_preserves_unmatched_records() {
    let payloads = [
        r#"{"type":"function_call","call_id":"a","name":"shell","arguments":"command A"}"#,
        r#"{"type":"custom_tool_call","call_id":"b","name":"search","input":"query B"}"#,
        r#"{"type":"message","role":"assistant","content":[{"text":"Working"}]}"#,
        r#"{"type":"custom_tool_call_output","call_id":"b","output":{"output":"answer B","exit_code":0,"wall_time_seconds":1.2}}"#,
        r#"{"type":"function_call_output","call_id":"a","output":{"stderr":"error A","exit_code":2}}"#,
        r#"{"type":"function_call","call_id":"pending","name":"shell","arguments":"waiting"}"#,
        r#"{"type":"function_call_output","call_id":"orphan","output":"orphan result"}"#,
        r#"{"type":"function_call_output","call_id":"a","output":"extra result"}"#,
        r#"{"type":"function_call","name":"anonymous","arguments":"no id"}"#,
        r#"{"type":"function_call_output","output":"no id output"}"#,
    ];
    let data = payloads.iter().map(|p| item(p)).collect::<Vec<_>>().join("\n");
    let session = parse(&data, "demo");
    let entries = &session.history.entries;
    assert_eq!(entries.len(), 8);
    assert!(entries[0].text.starts_with("Failed · exit 2"));
    assert!(entries[0].text.contains("command A"));
    assert!(entries[0].text.contains("error A"));
    assert!(!entries[0].text.contains("answer B"));
    assert!(entries[1].text.starts_with("Completed · 1.2s"));
    assert!(entries[1].text.contains("query B"));
    assert!(entries[1].text.contains("answer B"));
    assert_eq!(entries[2].text, "Working");
    assert!(entries[3].text.starts_with("No result recorded"));
    assert!(entries[4].text.contains("orphan result"));
    assert!(entries[5].text.contains("extra result"));
    assert!(entries[6].text.starts_with("No result recorded"));
    assert!(entries[7].session_id.starts_with("RESULT ·"));
}

#[test]
fn matches_a_result_recorded_before_its_call() {
    let data = r#"{"type":"response_item","payload":{"type":"function_call_output","call_id":"a","output":"answer"}}
{"type":"response_item","payload":{"type":"function_call","call_id":"a","name":"tool","arguments":"input"}}"#;
    let session = parse(data, "demo");
    assert_eq!(session.history.entries.len(), 1);
    assert_eq!(session.history.entries[0].session_id, "TOOL · tool");
    assert!(session.history.entries[0].text.contains("answer"));
}

#[test]
fn parses_messages_tools_and_metadata_without_event_duplicates() {
    let data = r#"{"type":"session_meta","payload":{"id":"test","cwd":"/demo"}}
{"type":"turn_context","payload":{"model":"demo-model"}}
{"type":"event_msg","payload":{"type":"user_message","message":"duplicate"}}
{"type":"response_item","payload":{"type":"message","role":"developer","content":[{"text":"instructions"}]}}
{"type":"response_item","timestamp":"2026-09-16T00:00:00Z","payload":{"type":"message","role":"user","content":[{"type":"input_text","text":"你好"},{"type":"input_image"}]}}
{"type":"response_item","payload":{"type":"function_call","call_id":"1","name":"shell","arguments":"ls"}}
{"type":"response_item","payload":{"type":"function_call_output","call_id":"1","output":{"ok":true}}}
{"type":"response_item","payload":{"type":"message","role":"assistant","content":[{"type":"output_text","text":"Done"}]}}
broken"#;
    let session = parse(data, "demo");
    assert_eq!(session.history.entries.len(), 3);
    assert_eq!(session.history.skipped, 1);
    assert_eq!(session.history.entries[0].text, "你好\n[input_image]");
    assert!(session.history.entries[0].ts > 0);
    assert_eq!(session.history.entries[1].session_id, "TOOL · shell");
    assert!(session.history.entries[1].text.contains("INPUT\nls"));
    assert!(
        session.history.entries[1]
            .text
            .contains("CALL REFERENCE\n1")
    );
    assert!(session.info.contains("demo-model"));
}

#[test]
fn supports_event_only_logs() {
    let data = r#"{"type":"event_msg","payload":{"type":"user_message","message":"hello"}}
{"type":"event_msg","payload":{"type":"agent_message","message":"world"}}"#;
    let s = parse(data, "demo");
    assert_eq!(s.history.entries.len(), 2);
    assert_eq!(s.history.entries[1].text, "world");
}

#[test]
fn session_metadata_gives_the_id_directory_and_model() {
    let data = r#"{"type":"session_meta","payload":{"session_id":"abc","cwd":"/work"}}
{"type":"turn_context","payload":{"model":"first"}}
{"type":"turn_context","payload":{"model":""}}"#;
    let s = parse(data, "log.jsonl");
    assert_eq!(s.info, "Session: abc\nDirectory: /work\nModel: first");
    assert_eq!(s.id, "abc");
    assert_eq!(s.path, "log.jsonl");
    assert!(s.history.entries.is_empty());
}

#[test]
fn unknown_session_ids_and_missing_outputs_are_reported() {
    let data = r#"{"type":"session_meta","payload":{"cwd":"/x"}}
{"type":"response_item","payload":{"type":"function_call_output","call_id":"z"}}"#;
    let s = parse(data, "demo");
    assert_eq!(s.info, "Session: unknown\nDirectory: /x");
    assert_eq!(s.id, "");
    assert_eq!(s.history.entries.len(), 1);
    assert_eq!(s.history.entries[0].session_id, "RESULT · Unmatched result");
    assert_eq!(s.history.entries[0].text, "(no output)\n\nCALL REFERENCE\nz");
}

#[test]
fn repeated_call_ids_pair_in_order() {
    let data = [
        item(r#"{"type":"function_call","call_id":"x","name":"t","arguments":"first"}"#),
        item(r#"{"type":"function_call","call_id":"x","name":"t","arguments":"second"}"#),
        item(r#"{"type":"function_call_output","call_id":"x","output":"one"}"#),
        item(r#"{"type":"function_call_output","call_id":"x","output":"two"}"#),
    ]
    .join("\n");
    let s = parse(&data, "demo");
    assert_eq!(s.history.entries.len(), 2);
    assert_eq!(s.history.entries[0].text, "Result received\n\nINPUT\nfirst\n\nRESULT\none\n\nCALL REFERENCE\nx");
    assert_eq!(s.history.entries[1].text, "Result received\n\nINPUT\nsecond\n\nRESULT\ntwo\n\nCALL REFERENCE\nx");
}

#[test]
fn event_only_logs_are_ordered_by_time() {
    let data = r#"{"type":"event_msg","timestamp":"2026-09-16T00:00:10Z","payload":{"type":"user_message","message":"late"}}
{"type":"event_msg","timestamp":"2026-09-16T00:00:01Z","payload":{"type":"agent_message","message":"early"}}"#;
    let s = parse(data, "demo");
    assert_eq!(s.history.entries[0].text, "early");
    assert_eq!(s.history.entries[0].session_id, "ASSISTANT");
    assert_eq!(s.history.entries[1].text, "late");
}

#[test]
fn multi_file_is_opt_in_and_sessions_follow_the_source() {
    let entry = Entry {
        tool: None,
        source: Some(".codex-beta/history.jsonl".into()),
        session_id: "same".into(),
        ts: 0,
        text: String::new(),
    };
    assert_eq!(session_directory(&entry, None), ".codex-beta/sessions");
    assert_eq!(session_directory(&entry, Some("custom")), "custom");
    let loose = Entry { source: None, ..entry };
    assert_eq!(session_directory(&loose, None), "./sessions");
}
