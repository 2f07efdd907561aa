//! Prompt-history records: reading JSON lines, merging files, naming sources.
use crate::json::{field, int_of, parse_json, get_i64, get_str, json_parse, text_of, Json};
use crate::sort::{index_order, key_rows, lemma_index_order_total, sort_indices};
use crate::text::{
    chars_of, is_blank, is_control, lines_of, spec_is_control, string_of, text_lines, trimmed,
};
use vstd::prelude::*;
use vstd::relations::sorted_by;

verus! {

broadcast use vstd::seq_lib::group_to_multiset_ensures;

/// A command a tool call recorded: shell text or an argument vector.
#[derive(Debug)]
pub enum RecordedCommand {
    Shell(String),
    Arguments(Vec<String>),
}

/// Display information kept for a tool record.
#[derive(Debug)]
pub struct ToolInfo {
    pub summary: String,
    pub failed: bool,
    pub command: Option<RecordedCommand>,
}

/// One record: a prompt, or in a session timeline a message or tool event
/// (then `session_id` holds the role label).
#[derive(Debug)]
pub struct Entry {
    pub tool: Option<ToolInfo>,
    pub source: Option<String>,
    pub session_id: String,
    pub ts: i64,
    pub text: String,
}

/// Records read from one or more files.
pub struct History {
    pub sources: Vec<String>,
    pub entries: Vec<Entry>,
    pub skipped: usize,
}

pub ghost enum CommandView {
    Shell(Seq<char>),
    Arguments(Seq<Seq<char>>),
}

pub ghost struct ToolView {
    pub summary: Seq<char>,
    pub failed: bool,
    pub command: Option<CommandView>,
}

pub ghost struct EntryView {
    pub tool: Option<ToolView>,
    pub source: Option<Seq<char>>,
    pub session_id: Seq<char>,
    pub ts: i64,
    pub text: Seq<char>,
}

pub ghost struct HistoryView {
    pub sources: Seq<Seq<char>>,
    pub entries: Seq<EntryView>,
    pub skipped: nat,
}

/// The views of a list of strings.
pub open spec fn strings(v: Seq<String>) -> Seq<Seq<char>> {
    v.map_values(|s: String| s@)
}

/// The view of an optional string.
pub open spec fn opt_text(s: Option<String>) -> Option<Seq<char>> {
    match s {
        Some(t) => Some(t@),
        None => None,
    }
}

impl View for RecordedCommand {
    type V = CommandView;

    open spec fn view(&self) -> CommandView {
        match self {
            RecordedCommand::Shell(s) => CommandView::Shell(s@),
            RecordedCommand::Arguments(a) => CommandView::Arguments(strings(a@)),
        }
    }
}

impl View for ToolInfo {
    type V = ToolView;

    open spec fn view(&self) -> ToolView {
        ToolView {
            summary: self.summary@,
            failed: self.failed,
            command: match self.command {
                Some(c) => Some(c@),
                None => None,
            },
        }
    }
}

impl View for Entry {
    type V = EntryView;

    open spec fn view(&self) -> EntryView {
        EntryView {
            tool: match self.tool {
                Some(t) => Some(t@),
                None => None,
            },
            source: opt_text(self.source),
            session_id: self.session_id@,
            ts: self.ts,
            text: self.text@,
        }
    }
}

/// The views of a list of records.
pub open spec fn entry_views(v: Seq<Entry>) -> Seq<EntryView> {
    v.map_values(|e: Entry| e@)
}

impl View for History {
    type V = HistoryView;

    open spec fn view(&self) -> HistoryView {
        HistoryView {
            sources: strings(self.sources@),
            entries: entry_views(self.entries@),
            skipped: self.skipped as nat,
        }
    }
}

/// Copies a list of strings.
pub fn copy_strings(v: &Vec<String>) -> (r: Vec<String>)
    ensures
        strings(r@) == strings(v@),
{
    let r = v.clone();
    assert(r@ =~= v@);
    r
}

/// Copies an optional string.
pub fn copy_opt_string(s: &Option<String>) -> (r: Option<String>)
    ensures
        opt_text(r) == opt_text(*s),
{
    match s {
        Some(t) => Some(t.clone()),
        None => None,
    }
}

impl Clone for RecordedCommand {
    fn clone(&self) -> (r: Self)
        ensures
            r@ == self@,
    {
        match self {
            RecordedCommand::Shell(s) => RecordedCommand::Shell(s.clone()),
            RecordedCommand::Arguments(a) => RecordedCommand::Arguments(copy_strings(a)),
        }
    }
}

impl Clone for ToolInfo {
    fn clone(&self) -> (r: Self)
        ensures
            r@ == self@,
    {
        ToolInfo {
            summary: self.summary.clone(),
            failed: self.failed,
            command: match &self.command {
                Some(c) => Some(c.clone()),
                None => None,
            },
        }
    }
}

impl Clone for Entry {
    fn clone(&self) -> (r: Self)
        ensures
            r@ == self@,
    {
        Entry {
            tool: match &self.tool {
                Some(t) => Some(t.clone()),
                None => None,
            },
            source: copy_opt_string(&self.source),
            session_id: self.session_id.clone(),
            ts: self.ts,
            text: self.text.clone(),
        }
    }
}

/// A copy of a list of records.
pub fn copy_entries(v: &Vec<Entry>) -> (r: Vec<Entry>)
    ensures
        entry_views(r@) == entry_views(v@),
{
    let mut out: Vec<Entry> = Vec::new();
    let mut i: usize = 0;
    while i < v.len()
        invariant
            i <= v.len(),
            entry_views(out@) =~= entry_views(v@).take(i as int),
        decreases v.len() - i,
    {
        let ghost before = entry_views(out@);
        out.push(v[i].clone());
        assert(entry_views(out@) =~= before.push(v@[i as int]@));
        assert(entry_views(v@).take(i + 1) =~= entry_views(v@).take(i as int).push(v@[i as int]@));
        i = i + 1;
    }
    assert(entry_views(v@).take(v.len() as int) =~= entry_views(v@));
    out
}

impl Clone for History {
    fn clone(&self) -> (r: Self)
        ensures
            r@ == self@,
    {
        History {
            sources: copy_strings(&self.sources),
            entries: copy_entries(&self.entries),
            skipped: self.skipped,
        }
    }
}

impl Default for History {
    fn default() -> (r: Self)
        ensures
            r@.sources.len() == 0,
            r@.entries.len() == 0,
            r@.skipped == 0,
    {
        History { sources: Vec::new(), entries: Vec::new(), skipped: 0 }
    }
}

/// The record a JSON value describes: an object with a string
/// `session_id`, an integer `ts` that fits `i64` and a string `text` (other
/// fields are ignored), or an array of exactly those three values in that
/// order.
pub open spec fn entry_from(v: Json) -> Option<EntryView> {
    let (id, ts, text) = match v {
        Json::Array(items) => if items.len() == 3 {
            (text_of(Some(items[0])), int_of(Some(items[1])), text_of(Some(items[2])))
        } else {
            (None, None, None)
        },
        _ => (
            text_of(field(v, seq!['s', 'e', 's', 's', 'i', 'o', 'n', '_', 'i', 'd'])),
            int_of(field(v, seq!['t', 's'])),
            text_of(field(v, seq!['t', 'e', 'x', 't'])),
        ),
    };
    match (id, ts, text) {
        (Some(id), Some(ts), Some(text)) => Some(
            EntryView { tool: None, source: None, session_id: id, ts: ts, text: text },
        ),
        _ => None,
    }
}

/// Reads one JSON value as a record.
pub fn entry_of(v: &Json) -> (r: Option<Entry>)
    ensures
        match r {
            Some(e) => entry_from(*v) == Some(e@),
            None => entry_from(*v) is None,
        },
{
    if let Json::Array(items) = v {
        if items.len() != 3 {
            return None;
        }
        return match (&items[0], &items[1], &items[2]) {
            (Json::Str(id), Json::Number(n), Json::Str(text)) => match n.int {
                Some(ts) => Some(Entry { tool: None, source: None, session_id: id.clone(), ts, text: text.clone() }),
                None => None,
            },
            _ => None,
        };
    }
    proof {
        reveal_strlit("session_id");
        reveal_strlit("ts");
        reveal_strlit("text");
    }
    assert("session_id"@ =~= seq!['s', 'e', 's', 's', 'i', 'o', 'n', '_', 'i', 'd']);
    assert("ts"@ =~= seq!['t', 's']);
    assert("text"@ =~= seq!['t', 'e', 'x', 't']);
    let id = get_str(v, "session_id");
    let ts = get_i64(v, "ts");
    let text = get_str(v, "text");
    match (id, ts, text) {
        (Some(id), Some(ts), Some(text)) => Some(
            Entry { tool: None, source: None, session_id: id.clone(), ts, text: text.clone() },
        ),
        _ => None,
    }
}

/// Records and the count of unreadable lines in `lines`: blank lines are
/// ignored, lines that are not a record are counted.
pub open spec fn read_lines(lines: Seq<Seq<char>>) -> (Seq<EntryView>, nat)
    decreases lines.len(),
{
    if lines.len() == 0 {
        (Seq::empty(), 0)
    } else {
        let (es, skipped) = read_lines(lines.drop_last());
        let line = lines.last();
        if trimmed(line).len() == 0 {
            (es, skipped)
        } else {
            match json_parse(line) {
                Some(v) => match entry_from(v) {
                    Some(e) => (es.push(e), skipped),
                    None => (es, skipped + 1),
                },
                None => (es, skipped + 1),
            }
        }
    }
}

/// A sort key that orders later timestamps first.
pub open spec fn later_first(ts: i64) -> i128 {
    (0 - ts) as i128
}

/// Sort keys that put later timestamps first.
pub open spec fn time_keys(es: Seq<EntryView>) -> Seq<Seq<i128>> {
    es.map_values(|e: EntryView| seq![later_first(e.ts)])
}

/// `es` rearranged by the rows of `keys`: stably, each record at the place
/// that its key row (then its position) gives it.
pub open spec fn arranged(es: Seq<EntryView>, keys: Seq<Seq<i128>>) -> Seq<EntryView> {
    upto(es.len()).sort_by(index_order(keys)).map_values(|i: usize| es[i as int])
}

/// `es` newest first; records with equal timestamps keep their order.
pub open spec fn newest_first(es: Seq<EntryView>) -> Seq<EntryView> {
    arranged(es, time_keys(es))
}

/// Sort keys that put earlier timestamps first.
pub open spec fn ts_keys(es: Seq<EntryView>) -> Seq<Seq<i128>> {
    es.map_values(|e: EntryView| seq![e.ts as i128])
}

/// `es` oldest first; records with equal timestamps keep their order.
pub open spec fn oldest_first(es: Seq<EntryView>) -> Seq<EntryView> {
    arranged(es, ts_keys(es))
}

/// The indices `0..n`.
pub open spec fn upto(n: nat) -> Seq<usize> {
    Seq::new(n, |i: int| i as usize)
}

/// The indices `0..n`, in order.
pub fn indices(n: usize) -> (r: Vec<usize>)
    ensures
        r@ == upto(n as nat),
{
    let mut out: Vec<usize> = Vec::new();
    let mut i: usize = 0;
    while i < n
        invariant
            i <= n,
            out@ =~= Seq::new(i as nat, |k: int| k as usize),
        decreases n - i,
    {
        out.push(i);
        i = i + 1;
    }
    out
}

/// The order in which `arranged` lists records: sorted, and a
/// rearrangement of all indices.
pub proof fn lemma_sorted_order_is_arranged(order: Seq<usize>, n: nat, keys: Seq<Seq<i128>>)
    requires
        sorted_by(order, index_order(keys)),
        order.to_multiset() == upto(n).to_multiset(),
    ensures
        order == upto(n).sort_by(index_order(keys)),
{
    let leq = index_order(keys);
    lemma_index_order_total(keys);
    upto(n).lemma_sort_by_ensures(leq);
    vstd::seq_lib::lemma_sorted_unique(order, upto(n).sort_by(leq), leq);
}

/// Rearranges records by the rows of `keys` (a stable sort).
pub fn arrange(es: Vec<Entry>, keys: &Vec<Vec<i128>>) -> (r: Vec<Entry>)
    requires
        keys.len() == es.len(),
    ensures
        entry_views(r@) == arranged(entry_views(es@), key_rows(keys@)),
{
    let ghost ev = entry_views(es@);
    let order = sort_indices(indices(es.len()), keys);
    proof {
        lemma_sorted_order_is_arranged(order@, ev.len(), key_rows(keys@));
        assert forall|k: int| 0 <= k < order@.len() implies (#[trigger] order@[k]) < es@.len() by {
            assert(order@.contains(order@[k]));
            assert(order@.to_multiset().count(order@[k]) > 0);
            assert(upto(ev.len()).to_multiset().count(order@[k]) > 0);
            assert(upto(ev.len()).contains(order@[k]));
            let m = choose|m: int| 0 <= m < upto(ev.len()).len() && upto(ev.len())[m] == order@[k];
            assert(upto(ev.len())[m] == m as usize);
        }
    }
    let mut out: Vec<Entry> = Vec::new();
    let mut j: usize = 0;
    while j < order.len()
        invariant
            j <= order.len(),
            ev == entry_views(es@),
            forall|k: int| 0 <= k < order@.len() ==> (#[trigger] order@[k]) < es@.len(),
            entry_views(out@) == order@.take(j as int).map_values(|i: usize| ev[i as int]),
        decreases order.len() - j,
    {
        let e = es[order[j]].clone();
        let ghost before = entry_views(out@);
        out.push(e);
        assert(entry_views(out@) =~= before.push(e@));
        assert(ev[order@[j as int] as int] == es@[order@[j as int] as int]@);
        assert(order@.take(j + 1).map_values(|i: usize| ev[i as int]) =~= order@.take(j as int).map_values(
            |i: usize| ev[i as int],
        ).push(ev[order@[j as int] as int]));
        assert(entry_views(out@) =~= order@.take(j + 1).map_values(|i: usize| ev[i as int]));
        j = j + 1;
    }
    assert(order@.take(order@.len() as int) =~= order@);
    out
}

/// Reorders records newest first (a stable sort by descending timestamp).
pub fn sort_newest_first(es: Vec<Entry>) -> (r: Vec<Entry>)
    ensures
        entry_views(r@) == newest_first(entry_views(es@)),
{
    let ghost ev = entry_views(es@);
    let mut keys: Vec<Vec<i128>> = Vec::new();
    let mut i: usize = 0;
    while i < es.len()
        invariant
            i <= es.len(),
            ev == entry_views(es@),
            keys@.len() == i,
            forall|k: int| 0 <= k < i ==> #[trigger] keys@[k]@ == seq![later_first(es@[k].ts)],
        decreases es.len() - i,
    {
        let key: i128 = 0 - (es[i].ts as i128);
        keys.push(vec![key]);
        i = i + 1;
    }
    assert(key_rows(keys@) =~= time_keys(ev));
    arrange(es, &keys)
}

/// Reorders records oldest first (a stable sort by ascending timestamp).
pub fn sort_oldest_first(es: Vec<Entry>) -> (r: Vec<Entry>)
    ensures
        entry_views(r@) == oldest_first(entry_views(es@)),
{
    let ghost ev = entry_views(es@);
    let mut keys: Vec<Vec<i128>> = Vec::new();
    let mut i: usize = 0;
    while i < es.len()
        invariant
            i <= es.len(),
            ev == entry_views(es@),
            keys@.len() == i,
            forall|k: int| 0 <= k < i ==> #[trigger] keys@[k]@ == seq![es@[k].ts as i128],
        decreases es.len() - i,
    {
        let key: i128 = es[i].ts as i128;
        keys.push(vec![key]);
        i = i + 1;
    }
    assert(key_rows(keys@) =~= ts_keys(ev));
    arrange(es, &keys)
}

/// Reads records from the lines of `text`.
pub fn read_records(text: &str) -> (r: (Vec<Entry>, usize))
    ensures
        (entry_views(r.0@), r.1 as nat) == read_lines(text_lines(text@)),
{
    let cs = chars_of(text);
    let lines = lines_of(cs.as_slice());
    let ghost ls = lines@.map_values(|l: Vec<char>| l@);
    let mut es: Vec<Entry> = Vec::new();
    let mut skipped: usize = 0;
    let mut i: usize = 0;
    while i < lines.len()
        invariant
            i <= lines.len(),
            ls == lines@.map_values(|l: Vec<char>| l@),
            (entry_views(es@), skipped as nat) == read_lines(ls.take(i as int)),
            skipped <= i,
        decreases lines.len() - i,
    {
        assert(ls.take(i + 1).drop_last() =~= ls.take(i as int));
        assert(ls.take(i + 1).last() == lines@[i as int]@);
        let line = lines[i].as_slice();
        if !is_blank(line) {
            let s = string_of(line);
            match parse_json(s.as_str()) {
                Some(v) => match entry_of(&v) {
                    Some(e) => {
                        es.push(e);
                        assert(entry_views(es@) =~= read_lines(ls.take(i as int)).0.push(e@));
                    },
                    None => {
                        skipped = skipped + 1;
                    },
                },
                None => {
                    skipped = skipped + 1;
                },
            }
        }
        i = i + 1;
    }
    assert(ls.take(lines.len() as int) =~= ls);
    (es, skipped)
}

impl History {
    /// Reads a history file's contents: one JSON record per line, newest first.
    pub fn parse(text: &str) -> (r: History)
        ensures
            r@.sources.len() == 0,
            r@.entries == newest_first(read_lines(text_lines(text@)).0),
            r@.skipped == read_lines(text_lines(text@)).1,
    {
        let (es, skipped) = read_records(text);
        History { sources: Vec::new(), entries: sort_newest_first(es), skipped }
    }
}

} // verus!

verus! {

/// What `Path::parent` gives for a path.
pub uninterp spec fn parent_of(p: Seq<char>) -> Option<Seq<char>>;

/// What `Path::file_name` gives for a path.
pub uninterp spec fn file_name_of(p: Seq<char>) -> Option<Seq<char>>;

/// The parent directory of a path (`Path::parent`).
#[verifier::external_body]
pub(crate) fn path_parent(p: &str) -> (r: Option<String>)
    ensures
        opt_text(r) == parent_of(p@),
{
    std::path::Path::new(p).parent().map(|q| q.to_string_lossy().into_owned())
}

/// The last component of a path (`Path::file_name`).
#[verifier::external_body]
pub(crate) fn path_file_name(p: &str) -> (r: Option<String>)
    ensures
        opt_text(r) == file_name_of(p@),
{
    std::path::Path::new(p).file_name().map(|q| q.to_string_lossy().into_owned())
}

/// The directory that holds `p`, with `"."` for a bare file name.
pub open spec fn containing_dir(p: Seq<char>) -> Seq<char> {
    match parent_of(p) {
        Some(q) => if q.len() > 0 {
            q
        } else {
            seq!['.']
        },
        None => seq!['.'],
    }
}

/// A source's display name: the name of the directory holding the file.
pub open spec fn source_label(p: Seq<char>) -> Seq<char> {
    match file_name_of(containing_dir(p)) {
        Some(n) => n,
        None => containing_dir(p),
    }
}

/// Display the parent directory name without profile aliases.
pub fn source_name(path: &str) -> (r: String)
    ensures
        r@ == source_label(path@),
{
    let dir = match path_parent(path) {
        Some(q) => if q.as_str().unicode_len() > 0 {
            q
        } else {
            String::from_str(".")
        },
        None => String::from_str("."),
    };
    proof {
        reveal_strlit(".");
    }
    assert("."@ =~= seq!['.']);
    match path_file_name(dir.as_str()) {
        Some(n) => n,
        None => dir,
    }
}

/// `text` as shown on screen: control characters other than line feeds and
/// tabs removed, tabs widened to four spaces.
pub open spec fn shown(text: Seq<char>) -> Seq<char>
    decreases text.len(),
{
    if text.len() == 0 {
        text
    } else {
        let c = text.last();
        let rest = shown(text.drop_last());
        if c == '\t' {
            rest + seq![' ', ' ', ' ', ' ']
        } else if spec_is_control(c) && c != '\n' {
            rest
        } else {
            rest.push(c)
        }
    }
}

/// Remove terminal control characters while preserving prompt layout.
pub fn display_text(text: &str) -> (r: String)
    ensures
        r@ == shown(text@),
{
    let cs = chars_of(text);
    let mut out: Vec<char> = Vec::new();
    let mut i: usize = 0;
    while i < cs.len()
        invariant
            i <= cs.len(),
            cs@ == text@,
            out@ == shown(cs@.take(i as int)),
        decreases cs.len() - i,
    {
        let c = cs[i];
        assert(cs@.take(i + 1).drop_last() =~= cs@.take(i as int));
        assert(cs@.take(i + 1).last() == c);
        if c == '\t' {
            out.push(' ');
            out.push(' ');
            out.push(' ');
            out.push(' ');
            assert(out@ =~= shown(cs@.take(i as int)) + seq![' ', ' ', ' ', ' ']);
        } else if is_control(c) && c != '\n' {
        } else {
            out.push(c);
        }
        i = i + 1;
    }
    assert(cs@.take(cs.len() as int) =~= cs@);
    string_of(out.as_slice())
}

/// Whether a text is as it is shown: no control character but line breaks.
pub open spec fn plain(t: Seq<char>) -> bool {
    forall|i: int| 0 <= i < t.len() ==> #[trigger] t[i] == '\n' || !spec_is_control(t[i])
}

proof fn lemma_shown_is_plain(t: Seq<char>)
    ensures
        plain(shown(t)),
    decreases t.len(),
{
    if t.len() > 0 {
        lemma_shown_is_plain(t.drop_last());
        let rest = shown(t.drop_last());
        let c = t.last();
        if c == '\t' {
            assert forall|i: int| 0 <= i < shown(t).len() implies #[trigger] shown(t)[i] == '\n'
                || !spec_is_control(shown(t)[i]) by {
                if i >= rest.len() {
                    assert(shown(t)[i] == ' ');
                } else {
                    assert(shown(t)[i] == rest[i]);
                }
            }
        } else if spec_is_control(c) && c != '\n' {
        } else {
            assert forall|i: int| 0 <= i < shown(t).len() implies #[trigger] shown(t)[i] == '\n'
                || !spec_is_control(shown(t)[i]) by {
                if i < rest.len() {
                    assert(shown(t)[i] == rest[i]);
                }
            }
        }
    }
}

proof fn lemma_plain_is_shown(t: Seq<char>)
    requires
        plain(t),
    ensures
        shown(t) == t,
    decreases t.len(),
{
    if t.len() > 0 {
        let c = t.last();
        assert(t[t.len() - 1] == c);
        assert(plain(t.drop_last())) by {
            assert forall|i: int| 0 <= i < t.drop_last().len() implies #[trigger] t.drop_last()[i] == '\n'
                || !spec_is_control(t.drop_last()[i]) by {
                assert(t.drop_last()[i] == t[i]);
            }
        }
        lemma_plain_is_shown(t.drop_last());
        assert(c != '\t');
        assert(t.drop_last().push(c) =~= t);
    }
}

/// Law: `display_text` changes nothing in a text it gave back (its result
/// holds no control character but line breaks).
pub proof fn lemma_display_text_idempotent(t: Seq<char>)
    ensures
        plain(shown(t)),
        shown(shown(t)) == shown(t),
{
    lemma_shown_is_plain(t);
    lemma_plain_is_shown(shown(t));
}

/// `a + b`, held at `usize::MAX`.
pub open spec fn sat_add(a: nat, b: nat) -> nat {
    if a + b > usize::MAX {
        usize::MAX as nat
    } else {
        a + b
    }
}

/// `es` marked as read from `path`.
pub open spec fn from_source(es: Seq<EntryView>, path: Seq<char>) -> Seq<EntryView> {
    es.map_values(|e: EntryView| EntryView { source: Some(path), ..e })
}

/// Files merged in order before sorting: a file whose path was already read
/// is skipped, every other file's records are marked with its path.
pub open spec fn merged(files: Seq<(Seq<char>, Seq<char>)>) -> HistoryView
    decreases files.len(),
{
    if files.len() == 0 {
        HistoryView { sources: Seq::empty(), entries: Seq::empty(), skipped: 0 }
    } else {
        let h = merged(files.drop_last());
        let (path, contents) = files.last();
        if h.sources.contains(path) {
            h
        } else {
            let (es, n) = read_lines(text_lines(contents));
            HistoryView {
                sources: h.sources.push(path),
                entries: h.entries + from_source(es, path),
                skipped: sat_add(h.skipped, n),
            }
        }
    }
}

/// The views of `(path, contents)` pairs.
pub open spec fn file_views(files: Seq<(String, String)>) -> Seq<(Seq<char>, Seq<char>)> {
    files.map_values(|f: (String, String)| (f.0@, f.1@))
}

/// Whether `path` is among `paths`.
fn has_path(paths: &Vec<String>, path: &String) -> (r: bool)
    ensures
        r == strings(paths@).contains(path@),
{
    let mut i: usize = 0;
    while i < paths.len()
        invariant
            i <= paths.len(),
            forall|k: int| 0 <= k < i ==> strings(paths@)[k] != path@,
        decreases paths.len() - i,
    {
        if paths[i] == *path {
            assert(strings(paths@)[i as int] == path@);
            return true;
        }
        i = i + 1;
    }
    false
}

impl History {
    /// Merges history files given as `(canonical path, contents)` pairs, as
    /// `load_many_with` does.
    pub fn load_many(files: &Vec<(String, String)>) -> (r: History)
        ensures
            r@.sources == merged(file_views(files@)).sources,
            r@.entries == newest_first(merged(file_views(files@)).entries),
            r@.skipped == merged(file_views(files@)).skipped,
    {
        History::load_many_with(files)
    }

    /// Merges history files given as `(canonical path, contents)` pairs, in
    /// order. A path that appears again is read once; records remember the
    /// file they came from and all records are sorted newest first.
    pub fn load_many_with(files: &Vec<(String, String)>) -> (r: History)
        ensures
            r@.sources == merged(file_views(files@)).sources,
            r@.entries == newest_first(merged(file_views(files@)).entries),
            r@.skipped == merged(file_views(files@)).skipped,
    {
        let ghost fv = file_views(files@);
        let mut sources: Vec<String> = Vec::new();
        let mut entries: Vec<Entry> = Vec::new();
        let mut skipped: usize = 0;
        let mut i: usize = 0;
        while i < files.len()
            invariant
                i <= files.len(),
                fv == file_views(files@),
                strings(sources@) == merged(fv.take(i as int)).sources,
                entry_views(entries@) == merged(fv.take(i as int)).entries,
                skipped as nat == merged(fv.take(i as int)).skipped,
            decreases files.len() - i,
        {
            assert(fv.take(i + 1).drop_last() =~= fv.take(i as int));
            assert(fv.take(i + 1).last() == (files@[i as int].0@, files@[i as int].1@));
            let path = &files[i].0;
            if !has_path(&sources, path) {
                let (es, n) = read_records(files[i].1.as_str());
                let ghost before = entry_views(entries@);
                let mut k: usize = 0;
                while k < es.len()
                    invariant
                        k <= es.len(),
                        entry_views(entries@) == before + from_source(
                            entry_views(es@).take(k as int),
                            path@,
                        ),
                    decreases es.len() - k,
                {
                    let e = &es[k];
                    let marked = Entry {
                        tool: match &e.tool {
                            Some(t) => Some(t.clone()),
                            None => None,
                        },
                        source: Some(path.clone()),
                        session_id: e.session_id.clone(),
                        ts: e.ts,
                        text: e.text.clone(),
                    };
                    assert(marked@ == EntryView { source: Some(path@), ..es@[k as int]@ });
                    let ghost mid = entry_views(entries@);
                    entries.push(marked);
                    assert(entry_views(entries@) =~= mid.push(marked@));
                    assert(from_source(entry_views(es@).take(k + 1), path@) =~= from_source(
                        entry_views(es@).take(k as int),
                        path@,
                    ).push(marked@));
                    assert(entry_views(es@).take(k + 1) =~= entry_views(es@).take(k as int).push(
                        es@[k as int]@,
                    ));
                    assert(entry_views(entries@) =~= before + from_source(
                        entry_views(es@).take(k + 1),
                        path@,
                    ));
                    k = k + 1;
                }
                assert(entry_views(es@).take(es.len() as int) =~= entry_views(es@));
                sources.push(path.clone());
                assert(strings(sources@) =~= merged(fv.take(i as int)).sources.push(path@));
                skipped = skipped.saturating_add(n);
            }
            i = i + 1;
        }
        assert(fv.take(files.len() as int) =~= fv);
        History { sources, entries: sort_newest_first(entries), skipped }
    }
}


/// Law: merging one more file adds its count of malformed lines to the
/// merged count (held at `usize::MAX`) when its path was not read before,
/// and leaves the count as it is for a path read again.
pub proof fn lemma_merge_adds_skipped_lines(files: Seq<(Seq<char>, Seq<char>)>, path: Seq<char>, contents: Seq<char>)
    ensures
        ({
            let before = merged(files);
            let after = merged(files.push((path, contents)));
            let n = read_lines(text_lines(contents)).1;
            &&& !before.sources.contains(path) ==> after.skipped == if before.skipped + n <= usize::MAX {
                before.skipped + n
            } else {
                usize::MAX as nat
            }
            &&& before.sources.contains(path) ==> after.skipped == before.skipped
        }),
{
    assert(files.push((path, contents)).drop_last() =~= files);
}

} // verus!
