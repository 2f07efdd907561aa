//! What keys do: editing a query, and browsing commands.
use crate::app::Focus;
use crate::clipboard::Kind;
use vstd::prelude::*;

verus! {

/// A key, as the browser tells keys apart.
#[derive(Clone, Copy, Debug, PartialEq, Eq, Structural)]
pub enum Key {
    Char(char),
    Left,
    Right,
    Up,
    Down,
    Home,
    End,
    PageUp,
    PageDown,
    Backspace,
    Delete,
    Enter,
    Esc,
    Tab,
    BackTab,
    F(u8),
    Other,
}

/// A key press with its modifiers.
#[derive(Clone, Copy, Debug, PartialEq, Eq, Structural)]
pub struct KeyPress {
    pub key: Key,
    pub control: bool,
    pub alt: bool,
}

/// What a key does to a query being edited.
#[derive(Clone, Copy, Debug, PartialEq, Eq, Structural)]
pub enum Edit {
    Left,
    Right,
    Home,
    End,
    Clear,
    DeleteWord,
    Backspace,
    Delete,
    /// Recall an older (`true`) or newer (`false`) recent query.
    Recall(bool),
    Insert(char),
    Nothing,
}

/// The edit a key makes: arrows and Home/End move, Ctrl-A/E move to the
/// ends, Ctrl-U clears, Ctrl-W and Ctrl-Backspace delete a word, Up/Down
/// recall recent queries, and plain characters are typed.
pub open spec fn edit_of(k: KeyPress) -> Edit {
    match k.key {
        Key::Left => Edit::Left,
        Key::Right => Edit::Right,
        Key::Home => Edit::Home,
        Key::End => Edit::End,
        Key::Char(c) => if k.control && c == 'a' {
            Edit::Home
        } else if k.control && c == 'e' {
            Edit::End
        } else if k.control && c == 'u' {
            Edit::Clear
        } else if k.control && c == 'w' {
            Edit::DeleteWord
        } else if !k.control && !k.alt {
            Edit::Insert(c)
        } else {
            Edit::Nothing
        },
        Key::Backspace => if k.control {
            Edit::DeleteWord
        } else {
            Edit::Backspace
        },
        Key::Delete => Edit::Delete,
        Key::Up => Edit::Recall(true),
        Key::Down => Edit::Recall(false),
        _ => Edit::Nothing,
    }
}

/// Whether an edit can change the query text.
pub open spec fn edit_changes(e: Edit) -> bool {
    match e {
        Edit::Clear | Edit::DeleteWord | Edit::Backspace | Edit::Delete | Edit::Recall(_)
        | Edit::Insert(_) => true,
        _ => false,
    }
}

/// The edit a key makes to a query being edited.
pub fn edit(k: KeyPress) -> (r: Edit)
    ensures
        r == edit_of(k),
{
    match k.key {
        Key::Left => Edit::Left,
        Key::Right => Edit::Right,
        Key::Home => Edit::Home,
        Key::End => Edit::End,
        Key::Char(c) => if k.control && c == 'a' {
            Edit::Home
        } else if k.control && c == 'e' {
            Edit::End
        } else if k.control && c == 'u' {
            Edit::Clear
        } else if k.control && c == 'w' {
            Edit::DeleteWord
        } else if !k.control && !k.alt {
            Edit::Insert(c)
        } else {
            Edit::Nothing
        },
        Key::Backspace => if k.control {
            Edit::DeleteWord
        } else {
            Edit::Backspace
        },
        Key::Delete => Edit::Delete,
        Key::Up => Edit::Recall(true),
        Key::Down => Edit::Recall(false),
        _ => Edit::Nothing,
    }
}

/// Whether an edit can change the query text (the list is filtered again then).
pub fn changes(e: Edit) -> (r: bool)
    ensures
        r == edit_changes(e),
{
    match e {
        Edit::Clear | Edit::DeleteWord | Edit::Backspace | Edit::Delete | Edit::Recall(_)
        | Edit::Insert(_) => true,
        _ => false,
    }
}

/// A browsing command.
#[derive(Clone, Copy, Debug, PartialEq, Eq, Structural)]
pub enum Command {
    Copy(Kind),
    CollapseGroups,
    /// Jump to the next (`true`) or previous failed tool.
    Failure(bool),
    ToggleTool,
    Quit,
    BeginFind,
    ClearFind,
    /// Jump to the next (`true`) or previous match in the details.
    Match(bool),
    FocusActivity,
    CycleWindow,
    ClearDate,
    Navigate(i8),
    ToggleFocus,
    CycleSource,
    ClearQuery,
    BeginSearch,
    First,
    Last,
    Page(i8),
    ScrollDown,
    ScrollUp,
    ToggleSession,
    ToggleOrder,
    Help,
    Nothing,
}

/// The command of a key in the list and details (no modifiers held), in a
/// session timeline (`in_session`) or in the prompt history.
pub open spec fn command_of(key: Key, in_session: bool, focus: Focus) -> Command {
    match key {
        Key::Char(c) => if c == 'y' {
            Command::Copy(Kind::Content)
        } else if c == 'Y' {
            Command::Copy(Kind::SessionId)
        } else if c == 'C' {
            Command::Copy(Kind::Command)
        } else if c == 'c' && in_session {
            Command::CollapseGroups
        } else if c == ']' && in_session {
            Command::Failure(true)
        } else if c == '[' && in_session {
            Command::Failure(false)
        } else if c == ' ' && in_session {
            Command::ToggleTool
        } else if c == 'q' {
            Command::Quit
        } else if c == 'f' {
            Command::BeginFind
        } else if c == 'F' {
            Command::ClearFind
        } else if c == 'n' {
            Command::Match(true)
        } else if c == 'N' {
            Command::Match(false)
        } else if c == 'a' && !in_session {
            Command::FocusActivity
        } else if c == 'w' && !in_session {
            Command::CycleWindow
        } else if c == 'd' && !in_session {
            Command::ClearDate
        } else if c == 't' && !in_session {
            Command::CycleSource
        } else if c == 'x' {
            Command::ClearQuery
        } else if c == '/' {
            Command::BeginSearch
        } else if c == 'j' {
            Command::Navigate(1i8)
        } else if c == 'k' {
            Command::Navigate(-1i8)
        } else if c == 'g' {
            Command::First
        } else if c == 'G' {
            Command::Last
        } else if c == 'J' {
            Command::ScrollDown
        } else if c == 'K' {
            Command::ScrollUp
        } else if c == 's' && !in_session {
            Command::ToggleSession
        } else if c == 'o' {
            Command::ToggleOrder
        } else if c == '?' {
            Command::Help
        } else {
            Command::Nothing
        },
        Key::Enter => if in_session {
            Command::ToggleTool
        } else {
            Command::Nothing
        },
        Key::Left => if focus == Focus::Activity {
            Command::Navigate(-1i8)
        } else {
            Command::ScrollUp
        },
        Key::Right => if focus == Focus::Activity {
            Command::Navigate(1i8)
        } else {
            Command::ScrollDown
        },
        Key::Tab | Key::BackTab => Command::ToggleFocus,
        Key::Down => Command::Navigate(1i8),
        Key::Up => Command::Navigate(-1i8),
        Key::Home => Command::First,
        Key::End => Command::Last,
        Key::PageDown => Command::Page(1i8),
        Key::PageUp => Command::Page(-1i8),
        Key::F(n) => if n == 1 {
            Command::Help
        } else {
            Command::Nothing
        },
        _ => Command::Nothing,
    }
}

/// The command of a key in the list and details (see `command_of`).
pub fn command(key: Key, in_session: bool, focus: Focus) -> (r: Command)
    ensures
        r == command_of(key, in_session, focus),
{
    match key {
        Key::Char(c) => if c == 'y' {
            Command::Copy(Kind::Content)
        } else if c == 'Y' {
            Command::Copy(Kind::SessionId)
        } else if c == 'C' {
            Command::Copy(Kind::Command)
        } else if c == 'c' && in_session {
            Command::CollapseGroups
        } else if c == ']' && in_session {
            Command::Failure(true)
        } else if c == '[' && in_session {
            Command::Failure(false)
        } else if c == ' ' && in_session {
            Command::ToggleTool
        } else if c == 'q' {
            Command::Quit
        } else if c == 'f' {
            Command::BeginFind
        } else if c == 'F' {
            Command::ClearFind
        } else if c == 'n' {
            Command::Match(true)
        } else if c == 'N' {
            Command::Match(false)
        } else if c == 'a' && !in_session {
            Command::FocusActivity
        } else if c == 'w' && !in_session {
            Command::CycleWindow
        } else if c == 'd' && !in_session {
            Command::ClearDate
        } else if c == 't' && !in_session {
            Command::CycleSource
        } else if c == 'x' {
            Command::ClearQuery
        } else if c == '/' {
            Command::BeginSearch
        } else if c == 'j' {
            Command::Navigate(1)
        } else if c == 'k' {
            Command::Navigate(-1)
        } else if c == 'g' {
            Command::First
        } else if c == 'G' {
            Command::Last
        } else if c == 'J' {
            Command::ScrollDown
        } else if c == 'K' {
            Command::ScrollUp
        } else if c == 's' && !in_session {
            Command::ToggleSession
        } else if c == 'o' {
            Command::ToggleOrder
        } else if c == '?' {
            Command::Help
        } else {
            Command::Nothing
        },
        Key::Enter => if in_session {
            Command::ToggleTool
        } else {
            Command::Nothing
        },
        Key::Left => if focus == Focus::Activity {
            Command::Navigate(-1)
        } else {
            Command::ScrollUp
        },
        Key::Right => if focus == Focus::Activity {
            Command::Navigate(1)
        } else {
            Command::ScrollDown
        },
        Key::Tab | Key::BackTab => Command::ToggleFocus,
        Key::Down => Command::Navigate(1),
        Key::Up => Command::Navigate(-1),
        Key::Home => Command::First,
        Key::End => Command::Last,
        Key::PageDown => Command::Page(1),
        Key::PageUp => Command::Page(-1),
        Key::F(n) => if n == 1 {
            Command::Help
        } else {
            Command::Nothing
        },
        _ => Command::Nothing,
    }
}

/// What the screen holds when Esc is pressed.
#[derive(Clone, Copy, Debug)]
pub struct EscapeState {
    /// A query or a details search is being edited.
    pub editing: bool,
    /// The help overlay is open.
    pub help: bool,
    /// A background load is pending.
    pub loading: bool,
    pub focus: Focus,
    /// A details search is active.
    pub finding: bool,
    /// Filters in force: search, session, date, source.
    pub query: bool,
    pub session: bool,
    pub date: bool,
    pub source: bool,
    /// A session timeline is open over the prompt history.
    pub in_session: bool,
}

/// What Esc does.
#[derive(Clone, Copy, Debug, PartialEq, Eq, Structural)]
pub enum Escape {
    /// Esc goes on to the editor or the help overlay, or does nothing.
    Pass,
    CancelLoad,
    LeaveActivity,
    ClearFind,
    ClearQuery,
    ClearSession,
    ClearDate,
    ClearSource,
    LeaveSession,
}

/// Esc finishes editing and closes help first; otherwise it cancels a
/// pending load, leaves the activity chart, clears a details search, clears
/// one filter at a time (search, session, date, then source), and only then
/// returns from a session timeline.
pub open spec fn escape_of(s: EscapeState) -> Escape {
    if s.editing || s.help {
        Escape::Pass
    } else if s.loading {
        Escape::CancelLoad
    } else if s.focus == Focus::Activity {
        Escape::LeaveActivity
    } else if s.focus == Focus::Detail && s.finding {
        Escape::ClearFind
    } else if s.query {
        Escape::ClearQuery
    } else if s.session {
        Escape::ClearSession
    } else if s.date {
        Escape::ClearDate
    } else if s.source {
        Escape::ClearSource
    } else if s.in_session {
        Escape::LeaveSession
    } else {
        Escape::Pass
    }
}

/// Decides what Esc does.
pub fn escape(s: &EscapeState) -> (r: Escape)
    ensures
        r == escape_of(*s),
{
    if s.editing || s.help {
        Escape::Pass
    } else if s.loading {
        Escape::CancelLoad
    } else if s.focus == Focus::Activity {
        Escape::LeaveActivity
    } else if s.focus == Focus::Detail && s.finding {
        Escape::ClearFind
    } else if s.query {
        Escape::ClearQuery
    } else if s.session {
        Escape::ClearSession
    } else if s.date {
        Escape::ClearDate
    } else if s.source {
        Escape::ClearSource
    } else if s.in_session {
        Escape::LeaveSession
    } else {
        Escape::Pass
    }
}

/// Law: Esc never leaves a session timeline while a filter is still in force.
pub proof fn lemma_filters_clear_before_leaving(s: EscapeState)
    requires
        s.query || s.session || s.date || s.source,
    ensures
        escape_of(s) != Escape::LeaveSession,
{
}

} // verus!
