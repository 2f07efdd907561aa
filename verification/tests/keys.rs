use codex_prompt_history::app::Focus;
use codex_prompt_history::clipboard::Kind;
use codex_prompt_history::keys::{
    changes, command, edit, escape, Command, Edit, Escape, EscapeState, Key, KeyPress,
};

fn press(key: Key, control: bool) -> KeyPress {
    KeyPress { key, control, alt: false }
}

#[test]
fn editing_keys_map_to_edits() {
    assert_eq!(edit(press(Key::Char('a'), true)), Edit::Home);
    assert_eq!(edit(press(Key::Char('a'), false)), Edit::Insert('a'));
    assert_eq!(edit(press(Key::Char('u'), true)), Edit::Clear);
    assert_eq!(edit(press(Key::Char('w'), true)), Edit::DeleteWord);
    assert_eq!(edit(press(Key::Backspace, true)), Edit::DeleteWord);
    assert_eq!(edit(press(Key::Backspace, false)), Edit::Backspace);
    assert_eq!(edit(press(Key::Up, false)), Edit::Recall(true));
    assert_eq!(edit(press(Key::Char('x'), true)), Edit::Nothing);
    assert_eq!(edit(KeyPress { key: Key::Char('x'), control: false, alt: true }), Edit::Nothing);
    assert!(changes(Edit::Insert('x')));
    assert!(!changes(Edit::Left));
}

#[test]
fn browsing_keys_depend_on_the_view() {
    assert_eq!(command(Key::Char('Y'), false, Focus::List), Command::Copy(Kind::SessionId));
    assert_eq!(command(Key::Char(']'), true, Focus::List), Command::Failure(true));
    assert_eq!(command(Key::Char(']'), false, Focus::List), Command::Nothing);
    assert_eq!(command(Key::Char('s'), true, Focus::List), Command::Nothing);
    assert_eq!(command(Key::Char('s'), false, Focus::List), Command::ToggleSession);
    assert_eq!(command(Key::Left, false, Focus::Activity), Command::Navigate(-1));
    assert_eq!(command(Key::Left, false, Focus::List), Command::ScrollUp);
    assert_eq!(command(Key::Enter, true, Focus::List), Command::ToggleTool);
    assert_eq!(command(Key::F(1), false, Focus::List), Command::Help);
    assert_eq!(command(Key::PageUp, false, Focus::Detail), Command::Page(-1));
}

#[test]
fn escape_clears_one_filter_at_a_time_then_leaves_the_session() {
    let mut s = EscapeState {
        editing: false,
        help: false,
        loading: false,
        focus: Focus::List,
        finding: false,
        query: true,
        session: true,
        date: true,
        source: true,
        in_session: true,
    };
    assert_eq!(escape(&s), Escape::ClearQuery);
    s.query = false;
    assert_eq!(escape(&s), Escape::ClearSession);
    s.session = false;
    assert_eq!(escape(&s), Escape::ClearDate);
    s.date = false;
    assert_eq!(escape(&s), Escape::ClearSource);
    s.source = false;
    assert_eq!(escape(&s), Escape::LeaveSession);
    s.in_session = false;
    assert_eq!(escape(&s), Escape::Pass);
}

#[test]
fn escape_finishes_editing_and_cancels_loads_first() {
    let s = EscapeState {
        editing: true,
        help: false,
        loading: true,
        focus: Focus::Activity,
        finding: false,
        query: true,
        session: false,
        date: false,
        source: false,
        in_session: false,
    };
    assert_eq!(escape(&s), Escape::Pass);
    let s = EscapeState { editing: false, ..s };
    assert_eq!(escape(&s), Escape::CancelLoad);
    let s = EscapeState { loading: false, ..s };
    assert_eq!(escape(&s), Escape::LeaveActivity);
    let s = EscapeState { focus: Focus::Detail, finding: true, ..s };
    assert_eq!(escape(&s), Escape::ClearFind);
    let s = EscapeState { focus: Focus::List, ..s };
    assert_eq!(escape(&s), Escape::ClearQuery);
}
