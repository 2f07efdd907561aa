//! Copying records to the clipboard: what to copy, the one request in flight
//! at a time, the choice between the native clipboard and the terminal
//! (OSC 52), and the terminal sequence. No shell commands or temp files.
use crate::history::{opt_text, strings, CommandView, Entry, EntryView, RecordedCommand};
use crate::text::joined;
use crossterm::Command;
use std::sync::mpsc::{Receiver, SyncSender, TryRecvError};
use vstd::prelude::*;

verus! {

#[verifier::external_type_specification]
#[verifier::external_body]
#[verifier::reject_recursive_types(T)]
pub struct ExSyncSender<T>(SyncSender<T>);

#[verifier::external_type_specification]
#[verifier::external_body]
#[verifier::reject_recursive_types(T)]
pub struct ExReceiver<T>(Receiver<T>);

/// Which clipboard copies go to.
#[derive(Clone, Copy, Debug, PartialEq, Eq, Structural)]
pub enum Mode {
    /// Native locally, the terminal over SSH.
    Auto,
    Native,
    Terminal,
}

impl Default for Mode {
    fn default() -> (r: Self)
        ensures
            r == Mode::Auto,
    {
        Mode::Auto
    }
}

/// What to copy from the selected record.
#[derive(Clone, Copy, Debug, PartialEq, Eq, Structural)]
pub enum Kind {
    Content,
    SessionId,
    Command,
}

/// Text to copy, with a label naming what it is.
pub struct Selection {
    pub label: &'static str,
    pub text: String,
}

/// How a copy ended.
pub enum Outcome {
    /// Copied to the native clipboard (the label of what was copied).
    Native(&'static str),
    /// To be copied through the terminal.
    Terminal(Selection),
    Error(String),
}

/// What a non-blocking receive found.
pub enum Received<T> {
    Item(T),
    Empty,
    Closed,
}

/// What `selection` gives: a label and a text, or an error message.
pub open spec fn selected_text(
    selected: Option<EntryView>,
    in_session: bool,
    session_id: Option<Seq<char>>,
    kind: Kind,
) -> Result<(Seq<char>, Seq<char>), Seq<char>> {
    match kind {
        Kind::Content => match selected {
            Some(e) => Ok(("record content"@, e.text)),
            None => Err("Select an individual record to copy"@),
        },
        Kind::SessionId => {
            let id = if in_session {
                session_id
            } else {
                match selected {
                    Some(e) => Some(e.session_id),
                    None => None,
                }
            };
            match id {
                Some(i) => if i.len() > 0 {
                    Ok(("session ID"@, i))
                } else {
                    Err("No session ID is recorded for this selection"@)
                },
                None => Err("No session ID is recorded for this selection"@),
            }
        },
        Kind::Command => match selected {
            Some(e) => match e.tool {
                Some(t) => match t.command {
                    Some(CommandView::Shell(text)) => Ok(("tool command"@, text)),
                    Some(CommandView::Arguments(args)) => Ok(
                        ("tool arguments (JSON array)"@, json_array_text(args)),
                    ),
                    None => Err("The selected record has no recorded command"@),
                },
                None => Err("The selected record has no recorded command"@),
            },
            None => Err("The selected record has no recorded command"@),
        },
    }
}

/// A lower-case hexadecimal digit.
pub open spec fn hex_digit(d: int) -> char {
    if d < 10 {
        crate::formatting::digit(d as nat)
    } else if d == 10 {
        'a'
    } else if d == 11 {
        'b'
    } else if d == 12 {
        'c'
    } else if d == 13 {
        'd'
    } else if d == 14 {
        'e'
    } else {
        'f'
    }
}

/// How `serde_json` writes a character inside a JSON string: a quote, a
/// backslash and the control characters below U+0020 escaped (`\b`, `\t`,
/// `\n`, `\f`, `\r`, else `\u00` and two lower-case hex digits), every
/// other character as it is.
pub open spec fn json_escape(c: char) -> Seq<char> {
    if c == '"' {
        seq!['\\', '"']
    } else if c == '\\' {
        seq!['\\', '\\']
    } else if c == '\u{8}' {
        seq!['\\', 'b']
    } else if c == '\t' {
        seq!['\\', 't']
    } else if c == '\n' {
        seq!['\\', 'n']
    } else if c == '\u{c}' {
        seq!['\\', 'f']
    } else if c == '\r' {
        seq!['\\', 'r']
    } else if (c as u32) < 0x20 {
        seq!['\\', 'u', '0', '0', hex_digit((c as u32) as int / 16), hex_digit((c as u32) as int % 16)]
    } else {
        seq![c]
    }
}

/// A text as a JSON string.
pub open spec fn json_quoted(s: Seq<char>) -> Seq<char> {
    seq!['"'] + s.map_values(|c: char| json_escape(c)).flatten() + seq!['"']
}

/// The compact JSON array of strings that `serde_json::to_string` writes:
/// the strings quoted, separated by commas, in brackets.
pub open spec fn json_array_text(args: Seq<Seq<char>>) -> Seq<char> {
    seq!['['] + joined(args.map_values(|a: Seq<char>| json_quoted(a)), seq![',']) + seq![']']
}

/// The text to copy of `kind`: the selected record's content, its command,
/// or the session ID (of the open session when `in_session`, else of the
/// selected record).
pub fn selection(selected: Option<&Entry>, in_session: bool, session_id: Option<&String>, kind: Kind) -> (r: Result<Selection, String>)
    ensures
        match r {
            Ok(s) => selected_text(
                match selected {
                    Some(e) => Some(e@),
                    None => None,
                },
                in_session,
                match session_id {
                    Some(i) => Some(i@),
                    None => None,
                },
                kind,
            ) == Ok::<(Seq<char>, Seq<char>), Seq<char>>((s.label@, s.text@)),
            Err(e) => selected_text(
                match selected {
                    Some(e) => Some(e@),
                    None => None,
                },
                in_session,
                match session_id {
                    Some(i) => Some(i@),
                    None => None,
                },
                kind,
            ) == Err::<(Seq<char>, Seq<char>), Seq<char>>(e@),
        },
{
    match kind {
        Kind::Content => match selected {
            Some(e) => Ok(Selection { label: "record content", text: e.text.clone() }),
            None => Err(String::from_str("Select an individual record to copy")),
        },
        Kind::SessionId => {
            let id = if in_session {
                session_id
            } else {
                match selected {
                    Some(e) => Some(&e.session_id),
                    None => None,
                }
            };
            match id {
                Some(i) => if !i.as_str().is_empty() {
                    Ok(Selection { label: "session ID", text: i.clone() })
                } else {
                    Err(String::from_str("No session ID is recorded for this selection"))
                },
                None => Err(String::from_str("No session ID is recorded for this selection")),
            }
        },
        Kind::Command => {
            let missing = String::from_str("The selected record has no recorded command");
            match selected {
                Some(e) => match &e.tool {
                    Some(t) => match &t.command {
                        Some(RecordedCommand::Shell(text)) => Ok(
                            Selection { label: "tool command", text: text.clone() },
                        ),
                        Some(RecordedCommand::Arguments(args)) => Ok(
                            Selection {
                                label: "tool arguments (JSON array)",
                                text: json_array_of(args),
                            },
                        ),
                        None => Err(missing),
                    },
                    None => Err(missing),
                },
                None => Err(missing),
            }
        },
    }
}

/// An argument vector as a JSON array (`serde_json::to_string`, which
/// cannot fail on strings).
#[verifier::external_body]
fn json_array_of(args: &Vec<String>) -> (r: String)
    ensures
        r@ == json_array_text(strings(args@)),
{
    serde_json::to_string(args).unwrap_or_default()
}

/// Where the clipboard worker sends a selection.
pub enum Route {
    /// Refused, with the reason.
    Refuse(String),
    /// Through the terminal.
    Terminal,
    /// To the native clipboard.
    Native,
}

/// Where a selection goes: text with NUL characters is refused; terminal
/// mode, and auto mode over SSH, use the terminal; else the native clipboard.
pub fn route(mode: Mode, remote: bool, text: &str) -> (r: Route)
    ensures
        (r is Refuse) == text@.contains('\0'),
        r is Refuse ==> r->Refuse_0@ == "Cannot copy text containing NUL bytes"@,
        r is Terminal == (!text@.contains('\0') && (mode == Mode::Terminal || (mode == Mode::Auto
            && remote))),
        r is Native == (!text@.contains('\0') && !(mode == Mode::Terminal || (mode == Mode::Auto
            && remote))),
{
    let cs = crate::text::chars_of(text);
    let mut i: usize = 0;
    while i < cs.len()
        invariant
            i <= cs.len(),
            cs@ == text@,
            forall|k: int| 0 <= k < i ==> cs@[k] != '\0',
        decreases cs.len() - i,
    {
        if cs[i] == '\0' {
            return Route::Refuse(String::from_str("Cannot copy text containing NUL bytes"));
        }
        i = i + 1;
    }
    if mode == Mode::Terminal || (mode == Mode::Auto && remote) {
        Route::Terminal
    } else {
        Route::Native
    }
}

/// The outcome when the native clipboard failed: an error in native mode,
/// else a copy through the terminal.
pub fn native_failed(mode: Mode, selection: Selection, error: &str) -> (r: Outcome)
    ensures
        mode == Mode::Native ==> r is Error && r->Error_0@ == "Native clipboard unavailable: "@
            + error@,
        mode != Mode::Native ==> r is Terminal && r->Terminal_0.text@ == selection.text@
            && r->Terminal_0.label == selection.label,
{
    if mode == Mode::Native {
        let mut message = String::from_str("Native clipboard unavailable: ");
        message.append(error);
        Outcome::Error(message)
    } else {
        Outcome::Terminal(selection)
    }
}

/// Offers a selection to the worker without waiting
/// (`SyncSender::try_send`): whether it was taken depends on the worker.
#[verifier::external_body]
fn offer(requests: &SyncSender<Selection>, selection: Selection) -> bool {
    requests.try_send(selection).is_ok()
}

/// Takes a message if one is waiting (`Receiver::try_recv`): what is found
/// depends on the sending thread.
#[verifier::external_body]
pub(crate) fn try_receive<T>(results: &Receiver<T>) -> Received<T> {
    match results.try_recv() {
        Ok(item) => Received::Item(item),
        Err(TryRecvError::Empty) => Received::Empty,
        Err(TryRecvError::Disconnected) => Received::Closed,
    }
}

/// The clipboard, with at most one copy in flight.
pub struct Clipboard {
    requests: SyncSender<Selection>,
    results: Receiver<Outcome>,
    pending: bool,
}

impl Clipboard {
    /// Whether a copy is in flight.
    pub closed spec fn in_flight(&self) -> bool {
        self.pending
    }

    /// Whether a copy is in flight.
    pub fn pending(&self) -> (r: bool)
        ensures
            r == self.in_flight(),
    {
        self.pending
    }

    /// Where selections are handed to the worker.
    pub closed spec fn sends_to(&self) -> SyncSender<Selection> {
        self.requests
    }

    /// Where the worker's outcomes come from.
    pub closed spec fn hears_from(&self) -> Receiver<Outcome> {
        self.results
    }

    /// A clipboard that hands selections to a worker on `requests` and takes
    /// its outcomes from `results`.
    pub fn connect(requests: SyncSender<Selection>, results: Receiver<Outcome>) -> (r: Clipboard)
        ensures
            !r.in_flight(),
            r.sends_to() == requests,
            r.hears_from() == results,
    {
        Clipboard { requests, results, pending: false }
    }

    /// Starts copying a selection, unless a copy is in flight.
    pub fn copy(&mut self, selection: Selection) -> (r: Result<(), String>)
        ensures
            old(self).in_flight() ==> final(self).in_flight() && r is Err && r->Err_0@
                == "A clipboard request is already in progress"@,
            !old(self).in_flight() ==> (r is Ok <==> final(self).in_flight()),
            !old(self).in_flight() && r is Err ==> r->Err_0@ == "Clipboard worker unavailable"@,
            final(self).sends_to() == old(self).sends_to(),
            final(self).hears_from() == old(self).hears_from(),
    {
        if self.pending {
            return Err(String::from_str("A clipboard request is already in progress"));
        }
        if !offer(&self.requests, selection) {
            return Err(String::from_str("Clipboard worker unavailable"));
        }
        self.pending = true;
        Ok(())
    }

    /// What a receive means: a finished copy ends the one in flight; a
    /// stopped worker fails the one in flight; otherwise nothing changes.
    pub fn take(&mut self, received: Received<Outcome>) -> (r: Option<Outcome>)
        ensures
            match received {
                Received::Item(o) => r == Some(o) && !final(self).in_flight(),
                Received::Closed => if old(self).in_flight() {
                    !final(self).in_flight() && r is Some && r->Some_0 is Error && r->Some_0->Error_0@
                        == "Clipboard worker stopped"@
                } else {
                    r is None && !final(self).in_flight()
                },
                Received::Empty => r is None && final(self).in_flight() == old(self).in_flight(),
            },
            final(self).sends_to() == old(self).sends_to(),
            final(self).hears_from() == old(self).hears_from(),
    {
        match received {
            Received::Item(outcome) => {
                self.pending = false;
                Some(outcome)
            },
            Received::Closed => if self.pending {
                self.pending = false;
                Some(Outcome::Error(String::from_str("Clipboard worker stopped")))
            } else {
                None
            },
            Received::Empty => None,
        }
    }

    /// The finished copy, if there is one.
    pub fn poll(&mut self) -> (r: Option<Outcome>)
        ensures
            r is None ==> final(self).in_flight() == old(self).in_flight(),
            r is Some ==> !final(self).in_flight(),
            final(self).sends_to() == old(self).sends_to(),
            final(self).hears_from() == old(self).hears_from(),
    {
        let received = try_receive(&self.results);
        self.take(received)
    }
}

/// The standard base64 of a text's UTF-8 bytes.
pub uninterp spec fn base64_text(text: Seq<char>) -> Seq<char>;

/// The OSC 52 sequence of crossterm's `CopyToClipboard::to_clipboard_from`
/// (`write_ansi` into a `String`, which cannot fail): the escape `ESC ] 52;c;`,
/// the standard base64 of the text, and `ESC \`.
#[verifier::external_body]
fn osc52_sequence(text: &str) -> (r: String)
    ensures
        r@ == "\x1b]52;c;"@ + base64_text(text@) + "\x1b\\"@,
{
    let mut sequence = String::new();
    let _ = crossterm::clipboard::CopyToClipboard::to_clipboard_from(text).write_ansi(&mut sequence);
    sequence
}

/// The largest text, in bytes, sent through the terminal.
pub const TERMINAL_LIMIT: usize = 102400;

/// The OSC 52 sequence that copies `text` to the terminal's clipboard, or an
/// error when the text is longer than terminals accept (never truncated).
pub fn terminal_sequence(text: &str) -> (r: Result<String, String>)
    ensures
        text.len() > TERMINAL_LIMIT ==> r is Err && r->Err_0@
            == "Text exceeds the 100 KiB terminal-copy limit; use --clipboard native"@,
        text.len() <= TERMINAL_LIMIT ==> r is Ok && r->Ok_0@ == "\x1b]52;c;"@
            + base64_text(text@) + "\x1b\\"@,
{
    if text.len() > TERMINAL_LIMIT {
        return Err(String::from_str("Text exceeds the 100 KiB terminal-copy limit; use --clipboard native"));
    }
    Ok(osc52_sequence(text))
}


/// Law: outside a session, copying the session ID copies the selected
/// record's own session ID whenever it has one, whatever open-session ID is
/// passed, and fails without one; inside a session the open session's ID is
/// copied instead. Copying the content copies the selected record's text,
/// and fails with no record selected.
pub proof fn lemma_session_id_of_the_selection(e: EntryView, open: Option<Seq<char>>)
    ensures
        e.session_id.len() > 0 ==> selected_text(Some(e), false, open, Kind::SessionId) == Ok::<
            (Seq<char>, Seq<char>),
            Seq<char>,
        >(("session ID"@, e.session_id)),
        forall|id: Seq<char>|
            open == Some(id) && id.len() > 0 ==> selected_text(Some(e), true, open, Kind::SessionId)
                == Ok::<(Seq<char>, Seq<char>), Seq<char>>(("session ID"@, id)),
        e.session_id.len() == 0 ==> selected_text(Some(e), false, open, Kind::SessionId) is Err,
        selected_text(None, false, open, Kind::SessionId) is Err,
        selected_text(Some(e), false, open, Kind::Content) == Ok::<(Seq<char>, Seq<char>), Seq<char>>(
            ("record content"@, e.text),
        ),
        selected_text(None, false, open, Kind::Content) is Err,
{
}

} // verus!
