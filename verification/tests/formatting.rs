use codex_prompt_history::formatting::{result, result_summary, typeset};
use codex_prompt_history::json::{Json, JsonNumber};

fn json(text: &str) -> Json {
    plain(serde_json::from_str(text).expect("valid JSON"))
}

fn plain(value: serde_json::Value) -> Json {
    match value {
        serde_json::Value::Null => Json::Null,
        serde_json::Value::Bool(b) => Json::Bool(b),
        serde_json::Value::Number(n) => Json::Number(JsonNumber { text: n.to_string(), int: n.as_i64() }),
        serde_json::Value::String(s) => Json::Str(s),
        serde_json::Value::Array(items) => Json::Array(items.into_iter().map(plain).collect()),
        serde_json::Value::Object(fields) => {
            Json::Object(fields.into_iter().map(|(k, v)| (k, plain(v))).collect())
        }
    }
}

#[test]
fn typesets_fields_arrays_and_escaped_multiline_strings() {
    let text = typeset(
        r#"{"command":"echo hello\necho world","items":[{"ok":true}],"output":"{\"count\":2}"}"#,
    );
    assert!(text.contains("command:\n  echo hello\n  echo world"));
    assert!(text.contains("• Item 1\n    ok: true"));
    assert!(text.contains("output:\n  count: 2"));
    assert!(!text.contains('{'));
}

#[test]
fn preserves_plain_text_and_handles_empty_values() {
    assert_eq!(
        typeset("# Hello\n```rust\nfn main() {}\n```"),
        "# Hello\n```rust\nfn main() {}\n```"
    );
    assert_eq!(typeset("{incomplete"), "{incomplete");
    assert_eq!(typeset("[]"), "(empty list)");
}

#[test]
fn unwraps_content_and_prioritizes_output_over_metadata() {
    let value = json(
        r#"{"exit_code":0,"wall_time_seconds":1.2,"output":"{\"content\":[{\"type\":\"text\",\"text\":\"hello\\nworld\"}]}"}"#,
    );
    let text = result(&value);
    assert!(text.starts_with("COMPLETED · exit 0\n\nOUTPUT\nhello\nworld"));
    assert!(text.find("hello").unwrap() < text.find("wall_time_seconds").unwrap());
    assert!(!text.contains("Item 1"));
    assert!(!text.contains("type:"));
}

#[test]
fn preserves_errors_and_unknown_metadata() {
    let text = result(&json(
        r#"{"exit_code":2,"stdout":"","stderr":"permission denied","extra":{"trace":"abc"}}"#,
    ));
    assert!(text.starts_with("FAILED · exit 2"));
    assert!(text.contains("ERROR OUTPUT\npermission denied"));
    assert!(text.contains("trace:\n    abc"));
}

#[test]
fn summaries_report_only_recorded_status_and_durations() {
    let s = result_summary(&json(r#"{"exit_code":2,"wall_time":3}"#));
    assert_eq!(s.status.as_deref(), Some("Failed · exit 2"));
    assert_eq!(s.durations, vec!["3".to_owned()]);
    assert_eq!(s.line(Some("3.0".into())), "Failed · exit 2 · 3.0s");
    assert!(s.failed());
    let plain = result_summary(&json(r#""just text""#));
    assert!(plain.status.is_none());
    assert_eq!(plain.line(None), "Result received");
    let envelope = result_summary(&json(
        r#""Chunk ID: x\nWall time: abc seconds\nWall time: 0.25 seconds\nProcess exited with code 0\nFinal output:\nok""#,
    ));
    assert_eq!(envelope.status.as_deref(), Some("Completed"));
    assert_eq!(envelope.durations, vec!["abc".to_owned(), "0.25".to_owned()]);
    let error = result_summary(&json(r#"{"isError":true,"exit_code":0}"#));
    assert_eq!(error.status.as_deref(), Some("Failed"));
}
