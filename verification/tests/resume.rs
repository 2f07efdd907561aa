use codex_prompt_history::resume::{project_directory, valid_id, Plan, Probe, Settings};

const ID: &str = "019feeaf-b9a2-7773-8776-269af6ca57c4";

fn meta(cwd: Option<&str>) -> String {
    match cwd {
        Some(c) => format!("{{\"type\":\"session_meta\",\"payload\":{{\"id\":\"{ID}\",\"cwd\":\"{c}\"}}}}"),
        None => format!("{{\"type\":\"session_meta\",\"payload\":{{\"id\":\"{ID}\",\"cwd\":null}}}}"),
    }
}

fn plan() -> Plan {
    Plan::new(ID, "/base/history.jsonl", Probe::Directory("/base".into())).unwrap()
}

#[test]
fn preparation_uses_recorded_project_and_override_wins() {
    let settings = Settings { program: "/bin/codex".into(), cwd: None };
    let recorded = project_directory(&meta(Some("/base/project & spaces")), ID);
    assert_eq!(recorded.as_deref(), Ok("/base/project & spaces"));
    let ready = settings
        .prepare(
            plan(),
            Some(recorded),
            Ok("/bin/codex".into()),
            Probe::Directory("/base/project & spaces".into()),
        )
        .unwrap();
    assert_eq!(ready.cwd, "/base/project & spaces");
    assert_eq!(ready.program, "/bin/codex");
    let missing = project_directory(&meta(None), ID);
    assert!(missing.is_err());
    assert!(settings
        .prepare(plan(), Some(missing.clone()), Ok("/bin/codex".into()), Probe::Directory("/x".into()))
        .is_err());
    let override_settings = Settings { program: "/bin/codex".into(), cwd: Some("/base/project".into()) };
    assert!(override_settings
        .prepare(plan(), Some(missing), Ok("/bin/codex".into()), Probe::Directory("/base/project".into()))
        .is_ok());
    let gone = project_directory(&meta(Some("/base/missing")), ID);
    assert!(settings
        .prepare(plan(), Some(gone), Ok("/bin/codex".into()), Probe::Unreachable("not found".into()))
        .is_err());
}

#[test]
fn sources_set_only_child_home_and_keep_uuid_and_cwd_as_separate_arguments() {
    for (directory, profile) in [
        ("/base/.codex", ".codex"),
        ("/base/.codex-beta", ".codex-beta"),
        ("/base/.codex-gamma", ".codex-gamma"),
    ] {
        let history = format!("{directory}/history.jsonl");
        assert_eq!(Plan::home_of(&history).as_deref(), Some(directory));
        let plan = Plan::new(ID, &history, Probe::Directory(directory.into())).unwrap();
        assert_eq!(plan.profile, profile);
        assert_eq!(plan.home, directory);
        assert_eq!(plan.id, ID);
    }
    assert!(Plan::new("--last", "/base/history.jsonl", Probe::Directory("/base".into())).is_err());
    assert!(Plan::new("id & echo injected", "/base/history.jsonl", Probe::Directory("/base".into())).is_err());
    let settings = Settings { program: "/base/missing-codex".into(), cwd: None };
    assert!(settings
        .resolve(None, Err("Codex executable not found".into()), Probe::Directory("/x".into()))
        .is_err());
}

#[test]
fn session_ids_must_be_uuids() {
    assert!(valid_id(ID));
    assert!(valid_id("019FEEAF-B9A2-7773-8776-269AF6CA57C4"));
    assert!(!valid_id("019feeaf-b9a2-7773-8776-269af6ca57c"));
    assert!(!valid_id("019feeafxb9a2-7773-8776-269af6ca57c4"));
    assert!(!valid_id("019feeaf-b9a2-7773-8776-269af6ca57cg"));
    assert!(!valid_id(""));
}

#[test]
fn plan_errors_name_the_home_directory() {
    assert_eq!(
        Plan::new("bad", "/h/history.jsonl", Probe::Directory("/h".into())).err().unwrap(),
        "Cannot resume: the recorded session ID is not a UUID"
    );
    assert_eq!(
        Plan::new(ID, "/h/history.jsonl", Probe::NotDirectory("/h".into())).err().unwrap(),
        "CODEX_HOME is not a directory: /h"
    );
    assert_eq!(
        Plan::new(ID, "/h/history.jsonl", Probe::Unreachable("gone".into())).err().unwrap(),
        "Cannot access CODEX_HOME /h: gone"
    );
}

#[test]
fn metadata_must_belong_to_the_session() {
    assert_eq!(
        project_directory(&meta(Some("/p")), "other").err().unwrap(),
        "Session metadata does not match the selected session"
    );
    assert_eq!(
        project_directory("{not json", ID).err().unwrap(),
        "Invalid session metadata; use --resume-cwd PATH"
    );
    let by_session_id = format!("{{\"type\":\"session_meta\",\"payload\":{{\"session_id\":\"{ID}\",\"cwd\":\"/p\"}}}}");
    assert_eq!(project_directory(&by_session_id, ID).unwrap(), "/p");
}

#[test]
fn recorded_directories_must_be_absolute_unless_overridden() {
    let settings = Settings { program: "codex".into(), cwd: None };
    assert_eq!(
        settings.directory_for(Some("relative/dir")).err().unwrap(),
        "Recorded project path is not absolute on this platform; use --resume-cwd PATH"
    );
    assert_eq!(
        settings.directory_for(None).err().unwrap(),
        "Session has no project directory; use --resume-cwd PATH"
    );
    assert_eq!(settings.directory_for(Some("/abs")).unwrap(), "/abs");
    let over = Settings { program: "codex".into(), cwd: Some("rel".into()) };
    assert_eq!(over.directory_for(Some("/abs")).unwrap(), "rel");
    assert_eq!(
        settings
            .resolve(Some("/abs"), Ok("/bin/codex".into()), Probe::NotDirectory("/abs".into()))
            .err()
            .unwrap(),
        "Project path is not a directory: /abs; use --resume-cwd PATH"
    );
}
