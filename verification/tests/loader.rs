use codex_prompt_history::history::History;
use codex_prompt_history::loader::{
    session_bytes, Envelope, Event, Job, Loaded, Loader, Request, SessionCache, Stamp, Target,
};
use codex_prompt_history::loader::{newest_request, progress_message, progress_step};
use codex_prompt_history::session::Session;
use std::sync::atomic::{AtomicU64, Ordering};
use std::sync::{mpsc, Arc};

fn session(text: &str) -> Session {
    let data = format!(
        "{{\"type\":\"session_meta\",\"payload\":{{\"id\":\"same\"}}}}\n{{\"type\":\"response_item\",\"payload\":{{\"type\":\"message\",\"role\":\"assistant\",\"content\":[{{\"type\":\"output_text\",\"text\":\"{text}\"}}]}}}}"
    );
    let reading = Session::read(&data);
    Session::assemble(reading, &Vec::new(), "alpha/session.jsonl")
}

fn stamp(size: u64, modified: i128) -> Stamp {
    Stamp { size, modified: Some(modified) }
}

#[test]
fn only_the_latest_request_can_complete_and_cancel_discards_results() {
    let (requests, worker) = mpsc::channel::<Request>();
    let (events_tx, events) = mpsc::channel::<Envelope>();
    let generation = Arc::new(AtomicU64::new(0));
    let mut loader = Loader::connect(requests, events, generation.clone());
    loader.start(Job::History(vec!["missing".into()])).unwrap();
    loader.start(Job::History(vec!["history.jsonl".into()])).unwrap();
    assert_eq!(loader.pending(), Some(Target::History));
    let first = worker.recv().unwrap();
    let second = worker.recv().unwrap();
    assert_eq!(generation.load(Ordering::Relaxed), second.id);
    events_tx
        .send(Envelope {
            id: first.id,
            event: Event::Finished { target: Target::History, result: Err("stale".into()) },
        })
        .unwrap();
    let mut latest = History::parse("{\"session_id\":\"a\",\"ts\":1,\"text\":\"latest\"}\n");
    latest.sources.push("history.jsonl".into());
    events_tx
        .send(Envelope {
            id: second.id,
            event: Event::Finished { target: Target::History, result: Ok(Loaded::History(latest)) },
        })
        .unwrap();
    match loader.poll() {
        Some(Event::Finished { result: Ok(Loaded::History(history)), .. }) => {
            assert_eq!(history.entries[0].text, "latest");
        }
        _ => panic!("wrong payload"),
    }
    assert!(loader.pending().is_none());
    loader.start(Job::History(vec!["history.jsonl".into()])).unwrap();
    let third = worker.recv().unwrap();
    loader.cancel();
    events_tx
        .send(Envelope {
            id: third.id,
            event: Event::Progress { target: Target::History, message: "late".into() },
        })
        .unwrap();
    assert!(loader.poll().is_none());
    assert!(loader.pending().is_none());
    assert_eq!(Job::ReloadSession("x".into()).target(), Target::ReloadSession);
}

#[test]
fn a_stopped_reader_fails_the_pending_job() {
    let (requests, _worker) = mpsc::channel::<Request>();
    let (events_tx, events) = mpsc::channel::<Envelope>();
    let mut loader = Loader::connect(requests, events, Arc::new(AtomicU64::new(0)));
    loader.start(Job::ReloadSession("s.jsonl".into())).unwrap();
    drop(events_tx);
    match loader.poll() {
        Some(Event::Finished { target, result: Err(e) }) => {
            assert_eq!(target, Target::ReloadSession);
            assert_eq!(e, "Background loader stopped");
        }
        _ => panic!("expected a failure"),
    }
    assert!(loader.poll().is_none());
}

#[test]
fn cache_reuses_unchanged_sessions_and_invalidates_on_reload_or_change() {
    let mut cache = SessionCache::new(4, 1024 * 1024);
    let path = "alpha/session.jsonl";
    assert!(cache.lookup(path, stamp(10, 1), false).is_none());
    let fresh = session("original");
    cache.store(path.into(), stamp(10, 1), stamp(10, 1), &fresh, 100);
    let mut first = cache.lookup(path, stamp(10, 1), false).unwrap();
    first.history.entries[0].text = "modified view".into();
    let second = cache.lookup(path, stamp(10, 1), false).unwrap();
    assert_eq!(second.history.entries[0].text, "original");
    assert!(cache.lookup(path, stamp(10, 1), true).is_none());
    assert_eq!(cache.len(), 0);
    cache.store(path.into(), stamp(10, 1), stamp(10, 1), &fresh, 100);
    assert!(cache.lookup(path, stamp(29, 2), false).is_none());
}

#[test]
fn cache_bounds_and_source_identity_are_respected() {
    let mut cache = SessionCache::new(1, 1024 * 1024);
    cache.store("alpha/session.jsonl".into(), stamp(1, 1), stamp(1, 1), &session("alpha"), 10);
    cache.store("beta/session.jsonl".into(), stamp(1, 1), stamp(1, 1), &session("beta"), 10);
    assert_eq!(cache.len(), 1);
    assert!(cache.lookup("alpha/session.jsonl", stamp(1, 1), false).is_none());
    assert_eq!(
        cache.lookup("beta/session.jsonl", stamp(1, 1), false).unwrap().history.entries[0].text,
        "beta"
    );
    let mut tiny = SessionCache::new(4, 1);
    let s = session("alpha");
    tiny.store("alpha/session.jsonl".into(), stamp(1, 1), stamp(1, 1), &s, session_bytes(&s));
    assert_eq!(tiny.len(), 0);
    assert_eq!(tiny.bytes(), 0);
    let mut changing = SessionCache::new(4, 1024);
    changing.store("a".into(), stamp(1, 1), stamp(2, 2), &s, 10);
    changing.store("b".into(), Stamp { size: 1, modified: None }, Stamp { size: 1, modified: None }, &s, 10);
    assert_eq!(changing.len(), 0);
}

#[test]
fn cache_evicts_least_recently_used_sessions_to_fit_the_budget() {
    let mut cache = SessionCache::new(4, 250);
    for name in ["a", "b", "c"] {
        cache.store(name.into(), stamp(1, 1), stamp(1, 1), &session(name), 100);
    }
    assert_eq!(cache.len(), 2);
    assert_eq!(cache.bytes(), 200);
    assert!(cache.lookup("a", stamp(1, 1), false).is_none());
    cache.remember("dir".into(), "same".into(), "b".into());
    assert_eq!(cache.known_path("dir", "same").as_deref(), Some("b"));
    assert!(cache.known_path("dir", "other").is_none());
}

#[test]
fn session_size_estimate_covers_its_text() {
    let long = "x".repeat(5000);
    let s = session(&long);
    assert!(session_bytes(&s) >= 5000 + "same".len());
}

#[test]
fn the_reader_runs_the_newest_request_and_paces_its_reports() {
    assert_eq!(newest_request(&vec![]), None);
    assert_eq!(newest_request(&vec![4, 5, 6]), Some(2));
    assert_eq!(progress_step(3, 2, None, "Reading"), Err("Loading cancelled".to_string()));
    assert_eq!(progress_step(2, 2, None, "Reading"), Ok(true));
    assert_eq!(progress_step(2, 2, Some(("Reading", 40)), "Reading"), Ok(false));
    assert_eq!(progress_step(2, 2, Some(("Reading", 100)), "Reading"), Ok(true));
    assert_eq!(progress_step(2, 2, Some(("Opening", 1)), "Reading"), Ok(true));
    assert_eq!(progress_message("Reading session", 12), "Reading session · 12 · Esc cancels");
}
