use codex_prompt_history::history::RecordedCommand;
use codex_prompt_history::json::{Json, JsonNumber};
use codex_prompt_history::tool_summary::{failed, recorded_command, summarize};

fn json(text: &str) -> Json {
    plain(serde_json::from_str(text).expect("valid JSON"))
}

fn plain(value: serde_json::Value) -> Json {
    match value {
        serde_json::Value::Null => Json::Null,
        serde_json::Value::Bool(b) => Json::Bool(b),
        serde_json::Value::Number(n) => Json::Number(JsonNumber { text: n.to_string(), int: n.as_i64() }),
        serde_json::Value::String(s) => Json::Str(s),
        serde_json::Value::Array(items) => Json::Array(items.into_iter().map(plain).collect()),
        serde_json::Value::Object(fields) => {
            Json::Object(fields.into_iter().map(|(k, v)| (k, plain(v))).collect())
        }
    }
}

fn string(text: &str) -> Json {
    Json::Str(text.to_owned())
}

#[test]
fn extracts_commands_paths_queries_and_patch_files() {
    let script = "printf '%s' \"$HOME\"\necho 中文\n".repeat(20);
    let inner = format!(
        "{{\"cmd\":{}}}",
        serde_json::Value::String(script.clone())
    );
    let outer = Json::Object(vec![("arguments".to_owned(), Json::Str(inner))]);
    assert!(matches!(recorded_command(&outer), Some(RecordedCommand::Shell(s)) if s == script));
    let expected: Vec<String> = vec!["bash".into(), "-lc".into(), "echo 'a b'".into()];
    assert!(matches!(
        recorded_command(&json(r#"{"command":["bash", "-lc", "echo 'a b'"]}"#)),
        Some(RecordedCommand::Arguments(args)) if args == expected
    ));
    assert_eq!(summarize(&string(r#"{"cmd":"cargo test","cwd":"/work"}"#)), "cargo test");
    assert_eq!(summarize(&json(r#"{"command":["bash","-lc","ls"]}"#)), "bash -lc ls");
    assert_eq!(summarize(&json(r#"{"file_path":"src/main.rs"}"#)), "src/main.rs");
    assert_eq!(summarize(&json(r#"{"parameters":{"query":"hello world"}}"#)), "hello world");
    assert_eq!(
        summarize(&string("*** Begin Patch\n*** Update File: src/app.rs\n@@")),
        "src/app.rs"
    );
    let summary = summarize(&string(&"中文".repeat(100)));
    assert!(summary.ends_with('…'));
    assert_eq!(summary.chars().count(), 121);
    assert!(summarize(&json(r#"{"unknown": true}"#)).is_empty());
    assert!(recorded_command(&json(r#"{"file_path":"src/main.rs"}"#)).is_none());
}

#[test]
fn errors_need_metadata_not_error_words_in_output() {
    assert!(!failed(&json(r#"{"exit_code":0,"output":"Failed tests: 0"}"#)));
    assert!(failed(&json(
        r#"{"content":[{"type":"text","text":"{\"exit_code\":2,\"output\":\"oops\"}"}]}"#
    )));
    assert!(failed(&json(r#"{"isError":true,"content":[]}"#)));
    assert!(failed(&string("Chunk ID: demo\nProcess exited with code 1\nFinal output:\nerror")));
    assert!(!failed(&string("error: documentation example")));
}

#[test]
fn summaries_compact_whitespace_and_drop_control_characters() {
    assert_eq!(summarize(&string("  first\u{1b}  line \t here\nsecond")), "first line here");
    assert_eq!(summarize(&string("\n   \nreal line")), "real line");
    assert_eq!(summarize(&json(r#"{"cmd":"   ","path":"p"}"#)), "p");
    assert_eq!(summarize(&json(r#"{"command":[]}"#)), "");
    assert_eq!(summarize(&string(&"x".repeat(120))), "x".repeat(120));
}
