//! Resuming a recorded session: the session ID must be a UUID, the history
//! source's directory is the child's `CODEX_HOME`, and the project directory
//! comes from the session metadata unless overridden. No shell interpolation.
use crate::history::{opt_text, parent_of, path_parent, source_label, source_name};
use crate::json::{field, get, json_parse, parse_json, text_of, Json};
use vstd::prelude::*;

verus! {

/// How to launch the resumed session: the program, and a project directory
/// that overrides the recorded one.
pub struct Settings {
    pub program: String,
    pub cwd: Option<String>,
}

impl Clone for Settings {
    fn clone(&self) -> (r: Self)
        ensures
            r.program@ == self.program@,
            opt_text(r.cwd) == opt_text(self.cwd),
    {
        Settings { program: self.program.clone(), cwd: crate::history::copy_opt_string(&self.cwd) }
    }
}

/// A session to resume: its ID, the `CODEX_HOME` it was recorded under and
/// the profile name shown for it.
pub struct Plan {
    pub id: String,
    pub home: String,
    pub profile: String,
}

/// A resume ready to launch: the program and the project directory, both
/// resolved.
pub struct Ready {
    pub plan: Plan,
    pub program: String,
    pub cwd: String,
}

/// What looking at a directory on disk found: its canonical path when it is
/// a directory or something else, or why it cannot be reached.
pub enum Probe {
    Directory(String),
    NotDirectory(String),
    Unreachable(String),
}

/// Whether a character is an ASCII hexadecimal digit.
pub open spec fn hex_digit(c: char) -> bool {
    ('0' <= c <= '9') || ('a' <= c <= 'f') || ('A' <= c <= 'F')
}

/// Whether a session ID is a UUID: 36 characters, hyphens at positions 8,
/// 13, 18 and 23, hexadecimal digits elsewhere.
pub open spec fn uuid_text(id: Seq<char>) -> bool {
    id.len() == 36 && forall|i: int|
        0 <= i < 36 ==> if i == 8 || i == 13 || i == 18 || i == 23 {
            #[trigger] id[i] == '-'
        } else {
            hex_digit(id[i])
        }
}

/// Whether a recorded session ID is a UUID (history files record UUIDs, not
/// shell expressions or command-line flags).
pub fn valid_id(id: &str) -> (r: bool)
    ensures
        r == uuid_text(id@),
{
    let cs = crate::text::chars_of(id);
    if cs.len() != 36 {
        return false;
    }
    let mut i: usize = 0;
    while i < 36
        invariant
            i <= 36,
            cs@ == id@,
            cs.len() == 36,
            forall|k: int|
                0 <= k < i ==> if k == 8 || k == 13 || k == 18 || k == 23 {
                    #[trigger] cs@[k] == '-'
                } else {
                    hex_digit(cs@[k])
                },
        decreases 36 - i,
    {
        let c = cs[i];
        let ok = if i == 8 || i == 13 || i == 18 || i == 23 {
            c == '-'
        } else {
            ('0' <= c && c <= '9') || ('a' <= c && c <= 'f') || ('A' <= c && c <= 'F')
        };
        if !ok {
            return false;
        }
        i = i + 1;
    }
    true
}

/// What `Plan::new` gives for a session ID, a history source and what was
/// found at the source's directory.
pub open spec fn plan_result(id: Seq<char>, history: Seq<char>, home: Probe) -> Result<
    (Seq<char>, Seq<char>, Seq<char>),
    Seq<char>,
> {
    if !uuid_text(id) {
        Err("Cannot resume: the recorded session ID is not a UUID"@)
    } else {
        match parent_of(history) {
            None => Err("History source has no parent directory"@),
            Some(parent) => match home {
                Probe::Unreachable(reason) => Err(
                    "Cannot access CODEX_HOME "@ + parent + ": "@ + reason@,
                ),
                Probe::NotDirectory(h) => Err("CODEX_HOME is not a directory: "@ + h@),
                Probe::Directory(h) => Ok((id, h@, source_label(history))),
            },
        }
    }
}

impl Plan {
    /// The plan to resume session `id` recorded in the history file
    /// `history`, given what was found at the history file's directory
    /// (`home`, see `Plan::home_of`).
    pub fn new(id: &str, history: &str, home: Probe) -> (r: Result<Plan, String>)
        ensures
            match r {
                Ok(p) => plan_result(id@, history@, home) == Ok::<
                    (Seq<char>, Seq<char>, Seq<char>),
                    Seq<char>,
                >((p.id@, p.home@, p.profile@)),
                Err(e) => plan_result(id@, history@, home) == Err::<
                    (Seq<char>, Seq<char>, Seq<char>),
                    Seq<char>,
                >(e@),
            },
    {
        if !valid_id(id) {
            return Err(String::from_str("Cannot resume: the recorded session ID is not a UUID"));
        }
        match path_parent(history) {
            None => Err(String::from_str("History source has no parent directory")),
            Some(parent) => match home {
                Probe::Unreachable(reason) => {
                    let mut e = String::from_str("Cannot access CODEX_HOME ");
                    e.append(parent.as_str());
                    e.append(": ");
                    e.append(reason.as_str());
                    Err(e)
                },
                Probe::NotDirectory(h) => {
                    let mut e = String::from_str("CODEX_HOME is not a directory: ");
                    e.append(h.as_str());
                    Err(e)
                },
                Probe::Directory(h) => Ok(
                    Plan { id: id.to_owned(), home: h, profile: source_name(history) },
                ),
            },
        }
    }

    /// The directory that holds a history source (`Path::parent`), which the
    /// resumed session uses as `CODEX_HOME`.
    pub fn home_of(history: &str) -> (r: Option<String>)
        ensures
            opt_text(r) == parent_of(history@),
    {
        path_parent(history)
    }
}

/// Whether a value is the JSON string `s` (`value == s` of `serde_json`).
pub open spec fn is_string(v: Option<Json>, s: Seq<char>) -> bool {
    text_of(v) == Some(s)
}

/// What `project_directory` gives for a session log's first line.
pub open spec fn project_result(line: Seq<char>, id: Seq<char>) -> Result<Seq<char>, Seq<char>> {
    match json_parse(line) {
        None => Err("Invalid session metadata; use --resume-cwd PATH"@),
        Some(m) => {
            let p = field(m, "payload"@);
            let payload_has = |key: Seq<char>|
                match p {
                    Some(v) => is_string(field(v, key), id),
                    None => false,
                };
            if !is_string(field(m, "type"@), "session_meta"@) || !(payload_has("id"@)
                || payload_has("session_id"@)) {
                Err("Session metadata does not match the selected session"@)
            } else {
                match p {
                    Some(v) => match text_of(field(v, "cwd"@)) {
                        Some(c) => if c.len() > 0 {
                            Ok(c)
                        } else {
                            Err("Session has no recorded project directory; use --resume-cwd PATH"@)
                        },
                        None => Err(
                            "Session has no recorded project directory; use --resume-cwd PATH"@,
                        ),
                    },
                    None => Err("Session has no recorded project directory; use --resume-cwd PATH"@),
                }
            }
        },
    }
}

/// Whether an optional value is the JSON string `s`.
fn is_string_value(v: Option<&Json>, s: &str) -> (r: bool)
    ensures
        r == is_string(crate::json::deref_opt(v), s@),
{
    match v {
        Some(Json::Str(t)) => {
            let u = s.to_owned();
            *t == u
        },
        _ => false,
    }
}

/// The project directory recorded in a session log's first line, which must
/// be the metadata of session `id`.
pub fn project_directory(line: &str, id: &str) -> (r: Result<String, String>)
    ensures
        match r {
            Ok(c) => project_result(line@, id@) == Ok::<Seq<char>, Seq<char>>(c@),
            Err(e) => project_result(line@, id@) == Err::<Seq<char>, Seq<char>>(e@),
        },
{
    let m = match parse_json(line) {
        Some(m) => m,
        None => {
            return Err(String::from_str("Invalid session metadata; use --resume-cwd PATH"));
        },
    };
    let p = get(&m, "payload");
    let has_id = match p {
        Some(v) => is_string_value(get(v, "id"), id) || is_string_value(get(v, "session_id"), id),
        None => false,
    };
    if !is_string_value(get(&m, "type"), "session_meta") || !has_id {
        return Err(String::from_str("Session metadata does not match the selected session"));
    }
    let missing = String::from_str("Session has no recorded project directory; use --resume-cwd PATH");
    match p {
        Some(v) => match get(v, "cwd") {
            Some(Json::Str(c)) => if !c.as_str().is_empty() {
                Ok(c.clone())
            } else {
                Err(missing)
            },
            _ => Err(missing),
        },
        None => Err(missing),
    }
}

/// Whether `Path::is_absolute` holds of a path on this platform.
pub uninterp spec fn absolute_path(p: Seq<char>) -> bool;

/// Whether a path is absolute on this platform (`Path::is_absolute`).
#[verifier::external_body]
fn is_absolute(p: &str) -> (r: bool)
    ensures
        r == absolute_path(p@),
{
    std::path::Path::new(p).is_absolute()
}

/// The project directory to use: the override, else the recorded one, which
/// must be absolute.
pub open spec fn chosen_directory(cwd: Option<Seq<char>>, recorded: Option<Seq<char>>) -> Result<
    Seq<char>,
    Seq<char>,
> {
    match cwd {
        Some(c) => Ok(c),
        None => match recorded {
            None => Err("Session has no project directory; use --resume-cwd PATH"@),
            Some(d) => if absolute_path(d) {
                Ok(d)
            } else {
                Err("Recorded project path is not absolute on this platform; use --resume-cwd PATH"@)
            },
        },
    }
}

/// What `Settings::resolve` gives: the program, then the chosen project
/// directory, which must be a directory on disk.
pub open spec fn resolved(
    cwd: Option<Seq<char>>,
    recorded: Option<Seq<char>>,
    program: Result<Seq<char>, Seq<char>>,
    found: Probe,
) -> Result<(Seq<char>, Seq<char>), Seq<char>> {
    match program {
        Err(e) => Err(e),
        Ok(p) => match chosen_directory(cwd, recorded) {
            Err(e) => Err(e),
            Ok(d) => match found {
                Probe::Unreachable(reason) => Err(
                    "Cannot access project directory "@ + d
                        + "; use --resume-cwd PATH if it moved: "@ + reason@,
                ),
                Probe::NotDirectory(c) => Err(
                    "Project path is not a directory: "@ + c@ + "; use --resume-cwd PATH"@,
                ),
                Probe::Directory(c) => Ok((p, c@)),
            },
        },
    }
}

/// The view of a result holding texts.
pub open spec fn result_text(r: Result<String, String>) -> Result<Seq<char>, Seq<char>> {
    match r {
        Ok(t) => Ok(t@),
        Err(e) => Err(e@),
    }
}

impl Settings {
    /// The project directory to use (see `chosen_directory`); the caller
    /// looks at it on disk before `resolve`.
    pub fn directory_for(&self, recorded: Option<&str>) -> (r: Result<String, String>)
        ensures
            result_text(r) == chosen_directory(
                opt_text(self.cwd),
                match recorded {
                    Some(d) => Some(d@),
                    None => None,
                },
            ),
    {
        match &self.cwd {
            Some(c) => Ok(c.clone()),
            None => match recorded {
                None => Err(String::from_str("Session has no project directory; use --resume-cwd PATH")),
                Some(d) => if is_absolute(d) {
                    Ok(d.to_owned())
                } else {
                    Err(
                        String::from_str(
                            "Recorded project path is not absolute on this platform; use --resume-cwd PATH",
                        ),
                    )
                },
            },
        }
    }

    /// The program and the project directory to launch with: `program` is
    /// the program as found, `found` what was found at the chosen directory.
    pub fn resolve(&self, recorded: Option<&str>, program: Result<String, String>, found: Probe) -> (r: Result<(String, String), String>)
        ensures
            match r {
                Ok((p, c)) => resolved(
                    opt_text(self.cwd),
                    match recorded {
                        Some(d) => Some(d@),
                        None => None,
                    },
                    result_text(program),
                    found,
                ) == Ok::<(Seq<char>, Seq<char>), Seq<char>>((p@, c@)),
                Err(e) => resolved(
                    opt_text(self.cwd),
                    match recorded {
                        Some(d) => Some(d@),
                        None => None,
                    },
                    result_text(program),
                    found,
                ) == Err::<(Seq<char>, Seq<char>), Seq<char>>(e@),
            },
    {
        let program = match program {
            Ok(p) => p,
            Err(e) => {
                return Err(e);
            },
        };
        let directory = match self.directory_for(recorded) {
            Ok(d) => d,
            Err(e) => {
                return Err(e);
            },
        };
        match found {
            Probe::Unreachable(reason) => {
                let mut e = String::from_str("Cannot access project directory ");
                e.append(directory.as_str());
                e.append("; use --resume-cwd PATH if it moved: ");
                e.append(reason.as_str());
                Err(e)
            },
            Probe::NotDirectory(c) => {
                let mut e = String::from_str("Project path is not a directory: ");
                e.append(c.as_str());
                e.append("; use --resume-cwd PATH");
                Err(e)
            },
            Probe::Directory(c) => Ok((program, c)),
        }
    }

    /// Prepares `plan`: the project directory comes from the override, else
    /// from the session metadata (`recorded`, see `project_directory`); then
    /// the program and the directory are resolved (see `resolve`).
    pub fn prepare(&self, plan: Plan, recorded: Option<Result<String, String>>, program: Result<String, String>, found: Probe) -> (r: Result<Ready, String>)
        ensures
            match r {
                Ok(ready) => ready.plan == plan && match recorded {
                    Some(Err(_)) => self.cwd is Some,
                    _ => true,
                } && resolved(
                    opt_text(self.cwd),
                    if self.cwd is Some {
                        None
                    } else {
                        match recorded {
                            Some(Ok(d)) => Some(d@),
                            _ => None,
                        }
                    },
                    result_text(program),
                    found,
                ) == Ok::<(Seq<char>, Seq<char>), Seq<char>>((ready.program@, ready.cwd@)),
                Err(e) => match recorded {
                    Some(Err(m)) => if self.cwd is None {
                        e@ == m@
                    } else {
                        resolved(opt_text(self.cwd), None, result_text(program), found) == Err::<
                            (Seq<char>, Seq<char>),
                            Seq<char>,
                        >(e@)
                    },
                    _ => resolved(
                        opt_text(self.cwd),
                        if self.cwd is Some {
                            None
                        } else {
                            match recorded {
                                Some(Ok(d)) => Some(d@),
                                _ => None,
                            }
                        },
                        result_text(program),
                        found,
                    ) == Err::<(Seq<char>, Seq<char>), Seq<char>>(e@),
                },
            },
    {
        let directory = if self.cwd.is_none() {
            match recorded {
                Some(Ok(d)) => Some(d),
                Some(Err(m)) => {
                    return Err(m);
                },
                None => None,
            }
        } else {
            None
        };
        let resolution = match directory {
            Some(d) => self.resolve(Some(d.as_str()), program, found),
            None => self.resolve(None, program, found),
        };
        match resolution {
            Ok((program, cwd)) => Ok(Ready { plan, program, cwd }),
            Err(e) => Err(e),
        }
    }
}

} // verus!
