//! Session logs: one JSON event per line, read into a timeline of messages and
//! tool records, with each tool call paired with its result by call ID.
use crate::formatting::{
    inspect, render, rendered, result, result_summary, result_text, summary_line_text, summary_view, typeset,
    typeset_text, Summary,
};
use crate::history::{entry_views, oldest_first, opt_text, sort_oldest_first, strings, Entry, EntryView, History};
use crate::json::{deref_opt, field, get, get_str, json_parse, parse_json, text_of, Json};
use crate::text::{chars_of, is_blank, join, joined, lines_of, string_of, text_lines, trimmed};
use vstd::prelude::*;

verus! {

/// The Unix seconds of an RFC 3339 time, as `chrono::DateTime::parse_from_rfc3339`
/// reads it (`None` when the text is not such a time).
pub uninterp spec fn rfc3339_seconds(text: Seq<char>) -> Option<i64>;

/// Reads an RFC 3339 time with `chrono::DateTime::parse_from_rfc3339` and
/// gives its Unix seconds.
#[verifier::external_body]
fn timestamp_of(text: &str) -> (r: Option<i64>)
    ensures
        r == rfc3339_seconds(text@),
{
    chrono::DateTime::parse_from_rfc3339(text).ok().map(|t| t.timestamp())
}

/// A session log read into a timeline.
pub struct Session {
    pub history: History,
    pub info: String,
    pub path: String,
    pub id: String,
}

impl Clone for Session {
    fn clone(&self) -> (r: Self)
        ensures
            r.history@ == self.history@,
            r.info@ == self.info@,
            r.path@ == self.path@,
            r.id@ == self.id@,
    {
        Session {
            history: self.history.clone(),
            info: self.info.clone(),
            path: self.path.clone(),
            id: self.id.clone(),
        }
    }
}

/// A field of an optional value (`value[key]` of `serde_json` on a missing value).
pub open spec fn field_in(p: Option<Json>, key: Seq<char>) -> Option<Json> {
    match p {
        Some(v) => field(v, key),
        None => None,
    }
}

/// The text of a string value, or the empty text.
pub open spec fn text_or_empty(v: Option<Json>) -> Seq<char> {
    match text_of(v) {
        Some(t) => t,
        None => Seq::empty(),
    }
}

/// A recorded value as shown: strings typeset, other values rendered.
pub open spec fn render_text(v: Json) -> Seq<char> {
    match v {
        Json::Str(s) => typeset_text(s@),
        _ => rendered(v),
    }
}

/// One part of a message: its text typeset, or `[kind]` for attachments.
pub open spec fn part_text(part: Json) -> Seq<char> {
    match text_of(field(part, "text"@)) {
        Some(t) => typeset_text(t),
        None => "["@ + match text_of(field(part, "type"@)) {
            Some(k) => k,
            None => "attachment"@,
        } + "]"@,
    }
}

/// A message's content: its parts, one per line.
pub open spec fn content_text(c: Option<Json>) -> Seq<char> {
    match c {
        Some(Json::Array(parts)) => joined(parts@.map_values(|p: Json| part_text(p)), "\n"@),
        _ => Seq::empty(),
    }
}

/// The input of a tool call (`arguments`, else `input`).
pub open spec fn call_input(p: Option<Json>) -> Seq<char> {
    match field_in(p, "arguments"@) {
        Some(a) => render_text(a),
        None => match field_in(p, "input"@) {
            Some(i) => render_text(i),
            None => Seq::empty(),
        },
    }
}

/// The reference line added to records that carry a call ID.
pub open spec fn reference(call_id: Seq<char>) -> Seq<char> {
    if call_id.len() > 0 {
        "\n\nCALL REFERENCE\n"@ + call_id
    } else {
        Seq::empty()
    }
}

/// The text of a tool result record.
pub open spec fn result_output(p: Option<Json>, call_id: Seq<char>) -> Seq<char> {
    (match field_in(p, "output"@) {
        Some(o) => result_text(o, 0),
        None => "(no output)"@,
    }) + reference(call_id)
}

/// What a tool result records about its outcome (nothing when it has no output).
pub open spec fn result_outcome(p: Option<Json>) -> (Option<Seq<char>>, Seq<Seq<char>>) {
    match field_in(p, "output"@) {
        Some(o) => inspect(o, 0),
        None => (None, Seq::empty()),
    }
}

/// The session ID shown in the session information.
pub open spec fn shown_id(p: Option<Json>) -> Seq<char> {
    match text_of(field_in(p, "id"@)) {
        Some(i) => i,
        None => match text_of(field_in(p, "session_id"@)) {
            Some(i) => i,
            None => "unknown"@,
        },
    }
}

/// The session ID recorded in session metadata (empty when there is none).
pub open spec fn recorded_id(p: Option<Json>) -> Seq<char> {
    match text_of(field_in(p, "id"@)) {
        Some(i) => i,
        None => text_or_empty(field_in(p, "session_id"@)),
    }
}

/// What reading a session log has gathered so far.
#[verifier::ext_equal]
pub ghost struct ReadState {
    pub entries: Seq<EntryView>,
    pub skipped: nat,
    pub info: Seq<char>,
    pub id: Seq<char>,
    pub model: Seq<char>,
    pub fallback: Seq<EntryView>,
    pub has_messages: bool,
    pub calls: Seq<(int, Seq<char>)>,
    pub results: Seq<(int, Seq<char>, (Option<Seq<char>>, Seq<Seq<char>>))>,
}

/// A timeline record without tool or source information.
pub open spec fn plain_entry(role: Seq<char>, ts: i64, text: Seq<char>) -> EntryView {
    EntryView { tool: None, source: None, session_id: role, ts, text }
}

/// Nothing read yet.
pub open spec fn initial_state() -> ReadState {
    ReadState {
        entries: Seq::empty(),
        skipped: 0,
        info: Seq::empty(),
        id: Seq::empty(),
        model: Seq::empty(),
        fallback: Seq::empty(),
        has_messages: false,
        calls: Seq::empty(),
        results: Seq::empty(),
    }
}

/// A `response_item` event: a user or assistant message, a tool call, or a
/// tool result becomes a record; anything else is ignored.
pub open spec fn response_step(s: ReadState, p: Option<Json>, ts: i64) -> ReadState {
    let kind = text_or_empty(field_in(p, "type"@));
    let n = s.entries.len() as int;
    if kind == "message"@ {
        let role = text_or_empty(field_in(p, "role"@));
        if role == "user"@ || role == "assistant"@ {
            let label = if role == "user"@ {
                "USER"@
            } else {
                "ASSISTANT"@
            };
            ReadState {
                entries: s.entries.push(plain_entry(label, ts, content_text(field_in(p, "content"@)))),
                has_messages: true,
                ..s
            }
        } else {
            s
        }
    } else if kind == "function_call"@ || kind == "custom_tool_call"@ {
        let call_id = text_or_empty(field_in(p, "call_id"@));
        let name = text_or_empty(field_in(p, "name"@));
        ReadState {
            entries: s.entries.push(plain_entry("TOOL · "@ + name, ts, call_input(p))),
            calls: s.calls.push((n, call_id)),
            ..s
        }
    } else if kind == "function_call_output"@ || kind == "custom_tool_call_output"@ {
        let call_id = text_or_empty(field_in(p, "call_id"@));
        ReadState {
            entries: s.entries.push(
                plain_entry("RESULT · Unmatched result"@, ts, result_output(p, call_id)),
            ),
            results: s.results.push((n, call_id, result_outcome(p))),
            ..s
        }
    } else {
        s
    }
}

/// An `event_msg` event: user and agent messages are kept aside, for logs
/// that record no response messages.
pub open spec fn event_step(s: ReadState, p: Option<Json>, ts: i64) -> ReadState {
    let kind = text_or_empty(field_in(p, "type"@));
    let message = text_or_empty(field_in(p, "message"@));
    if kind == "user_message"@ {
        ReadState { fallback: s.fallback.push(plain_entry("USER"@, ts, message)), ..s }
    } else if kind == "agent_message"@ {
        ReadState { fallback: s.fallback.push(plain_entry("ASSISTANT"@, ts, message)), ..s }
    } else {
        s
    }
}

/// One line of a session log: blank lines are ignored, lines that are not
/// JSON are counted as skipped, and events are taken by their `type`.
pub open spec fn step(s: ReadState, line: Seq<char>) -> ReadState {
    if trimmed(line).len() == 0 {
        s
    } else {
        match json_parse(line) {
            None => ReadState { skipped: s.skipped + 1, ..s },
            Some(v) => {
                let p = field(v, "payload"@);
                let ts = match rfc3339_seconds(text_or_empty(field(v, "timestamp"@))) {
                    Some(t) => t,
                    None => 0,
                };
                let kind = text_or_empty(field(v, "type"@));
                if kind == "session_meta"@ {
                    ReadState {
                        info: "Session: "@ + shown_id(p) + "\nDirectory: "@ + text_or_empty(
                            field_in(p, "cwd"@),
                        ),
                        id: recorded_id(p),
                        ..s
                    }
                } else if kind == "turn_context"@ {
                    let next = text_or_empty(field_in(p, "model"@));
                    if next.len() > 0 {
                        ReadState { model: next, ..s }
                    } else {
                        s
                    }
                } else if kind == "response_item"@ {
                    response_step(s, p, ts)
                } else if kind == "event_msg"@ {
                    event_step(s, p, ts)
                } else {
                    s
                }
            },
        }
    }
}

/// What reading the given lines gathers.
pub open spec fn read_from(lines: Seq<Seq<char>>) -> ReadState
    decreases lines.len(),
{
    if lines.len() == 0 {
        initial_state()
    } else {
        step(read_from(lines.drop_last()), lines.last())
    }
}

/// Record positions that the pairing can rely on: every call and result
/// names a distinct record.
pub open spec fn positions_valid(s: ReadState) -> bool {
    &&& forall|j: int| 0 <= j < s.calls.len() ==> 0 <= #[trigger] s.calls[j].0 < s.entries.len()
    &&& forall|k: int| 0 <= k < s.results.len() ==> 0 <= #[trigger] s.results[k].0 < s.entries.len()
    &&& forall|a: int, b: int|
        0 <= a < b < s.calls.len() ==> #[trigger] s.calls[a].0 < #[trigger] s.calls[b].0
    &&& forall|a: int, b: int|
        0 <= a < b < s.results.len() ==> #[trigger] s.results[a].0 < #[trigger] s.results[b].0
    &&& forall|j: int, k: int|
        0 <= j < s.calls.len() && 0 <= k < s.results.len() ==> #[trigger] s.calls[j].0
            != #[trigger] s.results[k].0
}

proof fn lemma_step_keeps_positions(s: ReadState, line: Seq<char>)
    requires
        positions_valid(s),
    ensures
        positions_valid(step(s, line)),
{
}

/// Reading keeps every call and result at a distinct record of its own.
proof fn lemma_read_positions(lines: Seq<Seq<char>>)
    ensures
        positions_valid(read_from(lines)),
    decreases lines.len(),
{
    if lines.len() > 0 {
        lemma_read_positions(lines.drop_last());
        lemma_step_keeps_positions(read_from(lines.drop_last()), lines.last());
    }
}

/// How many of the first `n` IDs equal `id`.
pub open spec fn count_ids(ids: Seq<Seq<char>>, id: Seq<char>, n: int) -> nat
    decreases n,
{
    if n <= 0 {
        0
    } else {
        count_ids(ids, id, n - 1) + if ids[n - 1] == id {
            1nat
        } else {
            0nat
        }
    }
}

/// The position, at `from` or later, of the occurrence of `id` in `ids`
/// that has `rank` occurrences before it.
pub open spec fn nth_position(ids: Seq<Seq<char>>, id: Seq<char>, rank: nat, from: int) -> Option<int>
    decreases ids.len() - from,
{
    if from < 0 || from >= ids.len() {
        None
    } else if ids[from] == id && count_ids(ids, id, from) == rank {
        Some(from)
    } else {
        nth_position(ids, id, rank, from + 1)
    }
}

/// The first position, at `from` or later, that holds `i`.
pub open spec fn position_in(pos: Seq<int>, i: int, from: int) -> Option<int>
    decreases pos.len() - from,
{
    if from < 0 || from >= pos.len() {
        None
    } else if pos[from] == i {
        Some(from)
    } else {
        position_in(pos, i, from + 1)
    }
}

/// The call IDs of tool calls.
pub open spec fn call_ids(calls: Seq<(int, Seq<char>)>) -> Seq<Seq<char>> {
    calls.map_values(|c: (int, Seq<char>)| c.1)
}

/// The call IDs of tool results.
pub open spec fn result_ids(results: Seq<(int, Seq<char>, Seq<char>)>) -> Seq<Seq<char>> {
    results.map_values(|r: (int, Seq<char>, Seq<char>)| r.1)
}

/// The result paired with call `j`: among records with the same (non-empty)
/// call ID, the n-th call takes the n-th result.
pub open spec fn partner(calls: Seq<(int, Seq<char>)>, results: Seq<(int, Seq<char>, Seq<char>)>, j: int) -> Option<int> {
    let id = calls[j].1;
    if id.len() > 0 {
        nth_position(result_ids(results), id, count_ids(call_ids(calls), id, j), 0)
    } else {
        None
    }
}

/// Whether result `k` is paired with a call: it carries an ID, and fewer
/// results than calls with that ID come before it.
pub open spec fn result_paired(calls: Seq<(int, Seq<char>)>, results: Seq<(int, Seq<char>, Seq<char>)>, k: int) -> bool {
    let id = results[k].1;
    id.len() > 0 && count_ids(result_ids(results), id, k) < count_ids(
        call_ids(calls),
        id,
        calls.len() as int,
    )
}

/// The text of call `j` after pairing: the result's summary line, the input
/// and the output when a result is paired, else a note that none was recorded.
pub open spec fn paired_call_text(
    es: Seq<EntryView>,
    calls: Seq<(int, Seq<char>)>,
    results: Seq<(int, Seq<char>, Seq<char>)>,
    j: int,
) -> Seq<char> {
    let input = es[calls[j].0].text;
    match partner(calls, results, j) {
        Some(k) => results[k].2 + "\n\nINPUT\n"@ + input + "\n\nRESULT\n"@ + es[results[k].0].text,
        None => "No result recorded\n\nINPUT\n"@ + input + reference(calls[j].1),
    }
}

/// What record `i` becomes: nothing for a paired result, a call with its
/// new text, or the record unchanged.
pub open spec fn paired_at(
    es: Seq<EntryView>,
    calls: Seq<(int, Seq<char>)>,
    results: Seq<(int, Seq<char>, Seq<char>)>,
    i: int,
) -> Seq<EntryView> {
    let removed = match position_in(results.map_values(|r: (int, Seq<char>, Seq<char>)| r.0), i, 0) {
        Some(k) => result_paired(calls, results, k),
        None => false,
    };
    if removed {
        Seq::empty()
    } else {
        match position_in(calls.map_values(|c: (int, Seq<char>)| c.0), i, 0) {
            Some(j) => seq![EntryView { text: paired_call_text(es, calls, results, j), ..es[i] }],
            None => seq![es[i]],
        }
    }
}

/// The first `n` records after pairing.
pub open spec fn paired_upto(
    es: Seq<EntryView>,
    calls: Seq<(int, Seq<char>)>,
    results: Seq<(int, Seq<char>, Seq<char>)>,
    n: int,
) -> Seq<EntryView>
    decreases n,
{
    if n <= 0 {
        Seq::empty()
    } else {
        paired_upto(es, calls, results, n - 1) + paired_at(es, calls, results, n - 1)
    }
}

/// The timeline after pairing: each paired result leaves, its text joining
/// its call at the call's place.
pub open spec fn paired(
    es: Seq<EntryView>,
    calls: Seq<(int, Seq<char>)>,
    results: Seq<(int, Seq<char>, Seq<char>)>,
) -> Seq<EntryView> {
    paired_upto(es, calls, results, es.len() as int)
}

/// The view of recorded calls.
pub open spec fn calls_view(calls: Seq<(usize, String)>) -> Seq<(int, Seq<char>)> {
    calls.map_values(|c: (usize, String)| (c.0 as int, c.1@))
}

/// The view of results with their summary lines.
pub open spec fn lines_view(results: Seq<(usize, String, String)>) -> Seq<(int, Seq<char>, Seq<char>)> {
    results.map_values(|r: (usize, String, String)| (r.0 as int, r.1@, r.2@))
}

/// The view of a list of positions.
pub open spec fn positions(v: Seq<usize>) -> Seq<int> {
    v.map_values(|p: usize| p as int)
}

proof fn lemma_position_bounds(pos: Seq<int>, i: int, from: int)
    ensures
        match position_in(pos, i, from) {
            Some(k) => from <= k < pos.len() && pos[k] == i,
            None => true,
        },
    decreases pos.len() - from,
{
    if 0 <= from < pos.len() && pos[from] != i {
        lemma_position_bounds(pos, i, from + 1);
    }
}

proof fn lemma_nth_bounds(ids: Seq<Seq<char>>, id: Seq<char>, rank: nat, from: int)
    ensures
        match nth_position(ids, id, rank, from) {
            Some(k) => from <= k < ids.len() && ids[k] == id,
            None => true,
        },
    decreases ids.len() - from,
{
    if 0 <= from < ids.len() && !(ids[from] == id && count_ids(ids, id, from) == rank) {
        lemma_nth_bounds(ids, id, rank, from + 1);
    }
}

/// How many of the first `n` IDs equal `id`.
fn count_id(ids: &Vec<String>, id: &String, n: usize) -> (r: usize)
    requires
        n <= ids.len(),
    ensures
        r == count_ids(strings(ids@), id@, n as int),
        r <= n,
{
    let ghost v = strings(ids@);
    let mut c: usize = 0;
    let mut i: usize = 0;
    while i < n
        invariant
            i <= n,
            n <= ids.len(),
            v == strings(ids@),
            c == count_ids(v, id@, i as int),
            c <= i,
        decreases n - i,
    {
        if ids[i] == *id {
            c = c + 1;
        }
        i = i + 1;
    }
    c
}

/// The position of the occurrence of `id` that has `rank` occurrences before it.
fn nth_index(ids: &Vec<String>, id: &String, rank: usize) -> (r: Option<usize>)
    ensures
        match r {
            Some(k) => nth_position(strings(ids@), id@, rank as nat, 0) == Some(k as int) && k
                < ids.len(),
            None => nth_position(strings(ids@), id@, rank as nat, 0) is None,
        },
{
    let ghost v = strings(ids@);
    proof {
        lemma_nth_bounds(v, id@, rank as nat, 0);
    }
    let mut c: usize = 0;
    let mut f: usize = 0;
    while f < ids.len()
        invariant
            f <= ids.len(),
            v == strings(ids@),
            c == count_ids(v, id@, f as int),
            c <= f,
            nth_position(v, id@, rank as nat, 0) == nth_position(v, id@, rank as nat, f as int),
        decreases ids.len() - f,
    {
        if ids[f] == *id {
            if c == rank {
                return Some(f);
            }
            c = c + 1;
        }
        f = f + 1;
    }
    None
}

/// The first position that holds `i`.
fn position_of(pos: &Vec<usize>, i: usize) -> (r: Option<usize>)
    ensures
        match r {
            Some(k) => position_in(positions(pos@), i as int, 0) == Some(k as int) && k < pos.len(),
            None => position_in(positions(pos@), i as int, 0) is None,
        },
{
    let ghost v = positions(pos@);
    proof {
        lemma_position_bounds(v, i as int, 0);
    }
    let mut f: usize = 0;
    while f < pos.len()
        invariant
            f <= pos.len(),
            v == positions(pos@),
            position_in(v, i as int, 0) == position_in(v, i as int, f as int),
        decreases pos.len() - f,
    {
        if pos[f] == i {
            return Some(f);
        }
        f = f + 1;
    }
    None
}

/// Pairs tool calls with their results by call ID, not by adjacency: the
/// n-th call with an ID takes the n-th result with that ID, which leaves the
/// timeline while its text joins the call at the call's place.
fn pair_tools(entries: &mut Vec<Entry>, calls: Vec<(usize, String)>, results: Vec<(usize, String, String)>)
    requires
        forall|j: int| 0 <= j < calls.len() ==> #[trigger] calls@[j].0 < old(entries).len(),
        forall|k: int| 0 <= k < results.len() ==> #[trigger] results@[k].0 < old(entries).len(),
    ensures
        entry_views(final(entries)@) == paired(
            entry_views(old(entries)@),
            calls_view(calls@),
            lines_view(results@),
        ),
{
    let ghost ev = entry_views(entries@);
    let ghost cv = calls_view(calls@);
    let ghost rv = lines_view(results@);
    let mut cids: Vec<String> = Vec::new();
    let mut cpos: Vec<usize> = Vec::new();
    let mut j: usize = 0;
    while j < calls.len()
        invariant
            j <= calls.len(),
            cv == calls_view(calls@),
            strings(cids@) =~= call_ids(cv).take(j as int),
            positions(cpos@) =~= cv.map_values(|c: (int, Seq<char>)| c.0).take(j as int),
        decreases calls.len() - j,
    {
        let ghost (ci, cp) = (strings(cids@), positions(cpos@));
        cids.push(calls[j].1.clone());
        cpos.push(calls[j].0);
        assert(strings(cids@) =~= ci.push(calls@[j as int].1@));
        assert(positions(cpos@) =~= cp.push(calls@[j as int].0 as int));
        assert(call_ids(cv).take(j + 1) =~= call_ids(cv).take(j as int).push(cv[j as int].1));
        assert(cv.map_values(|c: (int, Seq<char>)| c.0).take(j + 1) =~= cv.map_values(
            |c: (int, Seq<char>)| c.0,
        ).take(j as int).push(cv[j as int].0));
        j = j + 1;
    }
    let mut rids: Vec<String> = Vec::new();
    let mut rpos: Vec<usize> = Vec::new();
    let mut k: usize = 0;
    while k < results.len()
        invariant
            k <= results.len(),
            rv == lines_view(results@),
            strings(rids@) =~= result_ids(rv).take(k as int),
            positions(rpos@) =~= rv.map_values(|r: (int, Seq<char>, Seq<char>)| r.0).take(k as int),
        decreases results.len() - k,
    {
        let ghost (ri, rp) = (strings(rids@), positions(rpos@));
        rids.push(results[k].1.clone());
        rpos.push(results[k].0);
        assert(strings(rids@) =~= ri.push(results@[k as int].1@));
        assert(positions(rpos@) =~= rp.push(results@[k as int].0 as int));
        assert(result_ids(rv).take(k + 1) =~= result_ids(rv).take(k as int).push(rv[k as int].1));
        assert(rv.map_values(|r: (int, Seq<char>, Seq<char>)| r.0).take(k + 1) =~= rv.map_values(
            |r: (int, Seq<char>, Seq<char>)| r.0,
        ).take(k as int).push(rv[k as int].0));
        k = k + 1;
    }
    assert(strings(cids@) =~= call_ids(cv));
    assert(positions(cpos@) =~= cv.map_values(|c: (int, Seq<char>)| c.0));
    assert(strings(rids@) =~= result_ids(rv));
    assert(positions(rpos@) =~= rv.map_values(|r: (int, Seq<char>, Seq<char>)| r.0));
    let mut out: Vec<Entry> = Vec::new();
    let mut i: usize = 0;
    while i < entries.len()
        invariant
            i <= entries.len(),
            ev == entry_views(entries@),
            cv == calls_view(calls@),
            rv == lines_view(results@),
            strings(cids@) == call_ids(cv),
            positions(cpos@) == cv.map_values(|c: (int, Seq<char>)| c.0),
            strings(rids@) == result_ids(rv),
            positions(rpos@) == rv.map_values(|r: (int, Seq<char>, Seq<char>)| r.0),
            cids.len() == calls.len(),
            rids.len() == results.len(),
            forall|j: int| 0 <= j < calls.len() ==> #[trigger] calls@[j].0 < entries.len(),
            forall|k: int| 0 <= k < results.len() ==> #[trigger] results@[k].0 < entries.len(),
            entry_views(out@) == paired_upto(ev, cv, rv, i as int),
        decreases entries.len() - i,
    {
        let ghost rpv = rv.map_values(|r: (int, Seq<char>, Seq<char>)| r.0);
        let ghost cpv = cv.map_values(|c: (int, Seq<char>)| c.0);
        let removed = match position_of(&rpos, i) {
            Some(k) => {
                let id = &rids[k];
                assert(id@ == result_ids(rv)[k as int]);
                assert(id@ == rv[k as int].1);
                let paired = !id.as_str().is_empty() && count_id(&rids, id, k) < count_id(
                    &cids,
                    id,
                    cids.len(),
                );
                assert(paired == result_paired(cv, rv, k as int));
                paired
            },
            None => false,
        };
        let ghost before = entry_views(out@);
        assert(removed == match position_in(rpv, i as int, 0) {
            Some(k) => result_paired(cv, rv, k),
            None => false,
        });
        if !removed {
            match position_of(&cpos, i) {
                Some(j) => {
                    let input = entries[calls[j].0].text.as_str();
                    let id = &cids[j];
                    assert(id@ == call_ids(cv)[j as int]);
                    assert(id@ == cv[j as int].1);
                    let found = if id.as_str().is_empty() {
                        None
                    } else {
                        let rank = count_id(&cids, id, j);
                        assert(rank == count_ids(call_ids(cv), cv[j as int].1, j as int));
                        nth_index(&rids, id, rank)
                    };
                    let mut text = match found {
                        Some(k) => {
                            let mut t = results[k].2.clone();
                            t.append("\n\nINPUT\n");
                            t.append(input);
                            t.append("\n\nRESULT\n");
                            t.append(entries[results[k].0].text.as_str());
                            t
                        },
                        None => {
                            let mut t = String::from_str("No result recorded\n\nINPUT\n");
                            t.append(input);
                            if !id.as_str().is_empty() {
                                t.append("\n\nCALL REFERENCE\n");
                                t.append(id.as_str());
                            }
                            t
                        },
                    };
                    assert(match found {
                        Some(k) => partner(cv, rv, j as int) == Some(k as int),
                        None => partner(cv, rv, j as int) is None,
                    });
                    assert(text@ == paired_call_text(ev, cv, rv, j as int));
                    let mut e = entries[i].clone();
                    e.text = text;
                    assert(e@ == EntryView { text: paired_call_text(ev, cv, rv, j as int), ..ev[i as int] });
                    out.push(e);
                    assert(entry_views(out@) =~= before + paired_at(ev, cv, rv, i as int));
                },
                None => {
                    out.push(entries[i].clone());
                    assert(entry_views(out@) =~= before + paired_at(ev, cv, rv, i as int));
                },
            }
        } else {
            assert(paired_at(ev, cv, rv, i as int) =~= Seq::<EntryView>::empty());
            assert(entry_views(out@) =~= before + paired_at(ev, cv, rv, i as int));
        }
        i = i + 1;
    }
    *entries = out;
}

/// A session log read line by line, before tool calls and results are paired.
pub struct Reading {
    pub entries: Vec<Entry>,
    pub skipped: usize,
    pub info: String,
    pub id: String,
    pub model: String,
    pub fallback: Vec<Entry>,
    pub has_messages: bool,
    pub calls: Vec<(usize, String)>,
    pub results: Vec<(usize, String, Summary)>,
}

/// The view of results with what each records about its outcome.
pub open spec fn outcomes_view(v: Seq<(usize, String, Summary)>) -> Seq<
    (int, Seq<char>, (Option<Seq<char>>, Seq<Seq<char>>)),
> {
    v.map_values(|x: (usize, String, Summary)| (x.0 as int, x.1@, summary_view(x.2)))
}

/// What a reading has gathered.
pub open spec fn reading_view(r: Reading) -> ReadState {
    ReadState {
        entries: entry_views(r.entries@),
        skipped: r.skipped as nat,
        info: r.info@,
        id: r.id@,
        model: r.model@,
        fallback: entry_views(r.fallback@),
        has_messages: r.has_messages,
        calls: calls_view(r.calls@),
        results: outcomes_view(r.results@),
    }
}

/// `value[key]` on an optional value.
fn field_of<'a>(p: Option<&'a Json>, key: &str) -> (r: Option<&'a Json>)
    ensures
        deref_opt(r) == field_in(deref_opt(p), key@),
{
    match p {
        Some(v) => get(v, key),
        None => None,
    }
}

/// The text of an optional string value, or the empty text.
fn text_value(v: Option<&Json>) -> (r: String)
    ensures
        r@ == text_or_empty(deref_opt(v)),
{
    match v {
        Some(Json::Str(s)) => s.clone(),
        _ => String::new(),
    }
}

/// Whether `s` is the text `t`.
fn is_text(s: &String, t: &str) -> (r: bool)
    ensures
        r == (s@ == t@),
{
    let u = t.to_owned();
    *s == u
}

/// A recorded value as shown: strings typeset, other values rendered.
fn render_value(v: &Json) -> (r: String)
    ensures
        r@ == render_text(*v),
{
    match v {
        Json::Str(text) => typeset(text.as_str()),
        _ => render(v),
    }
}

/// One part of a message.
fn part_of(part: &Json) -> (r: String)
    ensures
        r@ == part_text(*part),
{
    match get(part, "text") {
        Some(Json::Str(t)) => typeset(t.as_str()),
        _ => {
            let mut out = String::from_str("[");
            match get(part, "type") {
                Some(Json::Str(k)) => out.append(k.as_str()),
                _ => out.append("attachment"),
            }
            out.append("]");
            out
        },
    }
}

/// A message's content, one part per line.
fn content_of(c: Option<&Json>) -> (r: String)
    ensures
        r@ == content_text(deref_opt(c)),
{
    match c {
        Some(Json::Array(parts)) => {
            let ghost want = parts@.map_values(|p: Json| part_text(p));
            let mut texts: Vec<Vec<char>> = Vec::new();
            let mut i: usize = 0;
            while i < parts.len()
                invariant
                    i <= parts.len(),
                    want == parts@.map_values(|p: Json| part_text(p)),
                    texts@.map_values(|t: Vec<char>| t@) =~= want.take(i as int),
                decreases parts.len() - i,
            {
                let t = part_of(&parts[i]);
                let ghost before = texts@.map_values(|t: Vec<char>| t@);
                texts.push(chars_of(t.as_str()));
                assert(texts@.map_values(|t: Vec<char>| t@) =~= before.push(want[i as int]));
                assert(want.take(i + 1) =~= want.take(i as int).push(want[i as int]));
                i = i + 1;
            }
            assert(want.take(parts.len() as int) =~= want);
            let lines = join(&texts, chars_of("\n").as_slice());
            string_of(lines.as_slice())
        },
        _ => String::new(),
    }
}

/// The input of a tool call.
fn input_of(p: Option<&Json>) -> (r: String)
    ensures
        r@ == call_input(deref_opt(p)),
{
    match field_of(p, "arguments") {
        Some(a) => render_value(a),
        None => match field_of(p, "input") {
            Some(i) => render_value(i),
            None => String::new(),
        },
    }
}

/// Takes a `response_item` event.
fn read_response(r: &mut Reading, p: Option<&Json>, ts: i64)
    ensures
        reading_view(*final(r)) == response_step(reading_view(*old(r)), deref_opt(p), ts),
        final(r).skipped == old(r).skipped,
{
    let ghost s = reading_view(*r);
    let kind = text_value(field_of(p, "type"));
    let n = r.entries.len();
    if is_text(&kind, "message") {
        let role = text_value(field_of(p, "role"));
        if is_text(&role, "user") || is_text(&role, "assistant") {
            let label = if is_text(&role, "user") {
                String::from_str("USER")
            } else {
                String::from_str("ASSISTANT")
            };
            let text = content_of(field_of(p, "content"));
            let e = Entry { tool: None, source: None, session_id: label, ts, text };
            r.entries.push(e);
            r.has_messages = true;
            assert(reading_view(*r).entries =~= s.entries.push(e@));
            assert(reading_view(*r) =~= response_step(s, deref_opt(p), ts));
        }
    } else if is_text(&kind, "function_call") || is_text(&kind, "custom_tool_call") {
        let call_id = text_value(field_of(p, "call_id"));
        let mut label = String::from_str("TOOL · ");
        label.append(text_value(field_of(p, "name")).as_str());
        let text = input_of(p);
        let e = Entry { tool: None, source: None, session_id: label, ts, text };
        let ghost cid = call_id@;
        r.calls.push((n, call_id));
        r.entries.push(e);
        assert(reading_view(*r).entries =~= s.entries.push(e@));
        assert(reading_view(*r).calls =~= s.calls.push((n as int, cid)));
        assert(reading_view(*r) =~= response_step(s, deref_opt(p), ts));
    } else if is_text(&kind, "function_call_output") || is_text(&kind, "custom_tool_call_output") {
        let call_id = text_value(field_of(p, "call_id"));
        let output = field_of(p, "output");
        let summary = match output {
            Some(o) => result_summary(o),
            None => {
                let none = Summary { status: None, durations: Vec::new() };
                assert(summary_view(none).1 =~= Seq::<Seq<char>>::empty());
                none
            },
        };
        assert(summary_view(summary) == result_outcome(deref_opt(p)));
        let mut text = match output {
            Some(o) => result(o),
            None => String::from_str("(no output)"),
        };
        if !call_id.as_str().is_empty() {
            text.append("\n\nCALL REFERENCE\n");
            text.append(call_id.as_str());
        }
        assert(text@ == result_output(deref_opt(p), call_id@));
        let e = Entry {
            tool: None,
            source: None,
            session_id: String::from_str("RESULT · Unmatched result"),
            ts,
            text,
        };
        let ghost cid = call_id@;
        let ghost outcome = summary_view(summary);
        r.results.push((n, call_id, summary));
        r.entries.push(e);
        assert(reading_view(*r).entries =~= s.entries.push(e@));
        assert(reading_view(*r).results =~= s.results.push((n as int, cid, outcome)));
        assert(reading_view(*r) =~= response_step(s, deref_opt(p), ts));
    }
}

/// Takes an `event_msg` event.
fn read_event(r: &mut Reading, p: Option<&Json>, ts: i64)
    ensures
        reading_view(*final(r)) == event_step(reading_view(*old(r)), deref_opt(p), ts),
        final(r).skipped == old(r).skipped,
{
    let ghost s = reading_view(*r);
    let kind = text_value(field_of(p, "type"));
    let is_user = is_text(&kind, "user_message");
    if is_user || is_text(&kind, "agent_message") {
        let label = if is_user {
            String::from_str("USER")
        } else {
            String::from_str("ASSISTANT")
        };
        let e = Entry { tool: None, source: None, session_id: label, ts, text: text_value(field_of(p, "message")) };
        r.fallback.push(e);
        assert(reading_view(*r).fallback =~= s.fallback.push(e@));
    }
}

/// Takes one line of a session log.
fn read_line(r: &mut Reading, line: &[char])
    requires
        old(r).skipped < usize::MAX,
    ensures
        reading_view(*final(r)) == step(reading_view(*old(r)), line@),
        final(r).skipped <= old(r).skipped + 1,
{
    if is_blank(line) {
        return;
    }
    let text = string_of(line);
    match parse_json(text.as_str()) {
        None => {
            r.skipped = r.skipped + 1;
        },
        Some(v) => {
            let p = get(&v, "payload");
            let stamp = text_value(get(&v, "timestamp"));
            let ts = match timestamp_of(stamp.as_str()) {
                Some(t) => t,
                None => 0,
            };
            let kind = text_value(get(&v, "type"));
            if is_text(&kind, "session_meta") {
                let mut info = String::from_str("Session: ");
                let shown = match field_of(p, "id") {
                    Some(Json::Str(i)) => i.clone(),
                    _ => match field_of(p, "session_id") {
                        Some(Json::Str(i)) => i.clone(),
                        _ => String::from_str("unknown"),
                    },
                };
                info.append(shown.as_str());
                info.append("\nDirectory: ");
                info.append(text_value(field_of(p, "cwd")).as_str());
                r.info = info;
                r.id = match field_of(p, "id") {
                    Some(Json::Str(i)) => i.clone(),
                    _ => text_value(field_of(p, "session_id")),
                };
            } else if is_text(&kind, "turn_context") {
                let next = text_value(field_of(p, "model"));
                if !next.as_str().is_empty() {
                    r.model = next;
                }
            } else if is_text(&kind, "response_item") {
                read_response(r, p, ts);
            } else if is_text(&kind, "event_msg") {
                read_event(r, p, ts);
            }
        },
    }
}

impl Session {
    /// Reads the lines of a session log, before tool calls and results are
    /// paired (see `Session::assemble`).
    pub fn read(text: &str) -> (r: Reading)
        ensures
            reading_view(r) == read_from(text_lines(text@)),
            positions_valid(reading_view(r)),
    {
        let cs = chars_of(text);
        let lines = lines_of(cs.as_slice());
        let ghost ls = lines@.map_values(|l: Vec<char>| l@);
        let mut r = Reading {
            entries: Vec::new(),
            skipped: 0,
            info: String::new(),
            id: String::new(),
            model: String::new(),
            fallback: Vec::new(),
            has_messages: false,
            calls: Vec::new(),
            results: Vec::new(),
        };
        assert(reading_view(r).entries =~= Seq::<EntryView>::empty());
        assert(reading_view(r).fallback =~= Seq::<EntryView>::empty());
        assert(reading_view(r).calls =~= Seq::<(int, Seq<char>)>::empty());
        assert(reading_view(r).results =~= initial_state().results);
        assert(reading_view(r) =~= initial_state());
        assert(ls.take(0) =~= Seq::<Seq<char>>::empty());
        let mut i: usize = 0;
        while i < lines.len()
            invariant
                i <= lines.len(),
                ls == lines@.map_values(|l: Vec<char>| l@),
                ls == text_lines(text@),
                reading_view(r) == read_from(ls.take(i as int)),
                r.skipped <= i,
            decreases lines.len() - i,
        {
            assert(ls.take(i + 1).drop_last() =~= ls.take(i as int));
            assert(ls.take(i + 1).last() == lines@[i as int]@);
            read_line(&mut r, lines[i].as_slice());
            i = i + 1;
        }
        assert(ls.take(lines.len() as int) =~= ls);
        proof {
            lemma_read_positions(ls);
        }
        r
    }
}

/// The duration label given for result `k`, if any.
pub open spec fn label_at(labels: Seq<Option<Seq<char>>>, k: int) -> Option<Seq<char>> {
    if 0 <= k < labels.len() {
        labels[k]
    } else {
        None
    }
}

/// Results with their summary lines, each with the duration label given for it.
pub open spec fn summary_lines(
    results: Seq<(int, Seq<char>, (Option<Seq<char>>, Seq<Seq<char>>))>,
    labels: Seq<Option<Seq<char>>>,
) -> Seq<(int, Seq<char>, Seq<char>)> {
    Seq::new(
        results.len(),
        |k: int| (results[k].0, results[k].1, summary_line_text(results[k].2.0, label_at(labels, k))),
    )
}

/// The timeline of a read session log: tool calls paired with their results;
/// logs without response messages show their message events instead, oldest
/// first.
pub open spec fn timeline(s: ReadState, labels: Seq<Option<Seq<char>>>) -> Seq<EntryView> {
    let es = paired(s.entries, s.calls, summary_lines(s.results, labels));
    if s.has_messages {
        es
    } else {
        oldest_first(es + s.fallback)
    }
}

/// The session information: metadata, then the model when one was recorded.
pub open spec fn session_info(s: ReadState) -> Seq<char> {
    if s.model.len() > 0 {
        s.info + "\nModel: "@ + s.model
    } else {
        s.info
    }
}

/// The views of optional texts.
pub open spec fn opt_texts(v: Seq<Option<String>>) -> Seq<Option<Seq<char>>> {
    v.map_values(|o: Option<String>| opt_text(o))
}

impl Session {
    /// Finishes a read session log found at `path`: `labels[k]` is how the
    /// duration of the k-th tool result is shown (see `Summary::line`); a
    /// missing label shows none.
    pub fn assemble(reading: Reading, labels: &Vec<Option<String>>, path: &str) -> (r: Session)
        requires
            positions_valid(reading_view(reading)),
        ensures
            r.history@.entries == timeline(reading_view(reading), opt_texts(labels@)),
            r.history@.skipped == reading.skipped,
            r.history@.sources.len() == 0,
            r.info@ == session_info(reading_view(reading)),
            r.id@ == reading.id@,
            r.path@ == path@,
    {
        let ghost s = reading_view(reading);
        let ghost want = summary_lines(s.results, opt_texts(labels@));
        let Reading { entries, skipped, info, id, model, fallback, has_messages, calls, results } =
            reading;
        let mut lined: Vec<(usize, String, String)> = Vec::new();
        let mut k: usize = 0;
        while k < results.len()
            invariant
                k <= results.len(),
                s.results == outcomes_view(results@),
                want == summary_lines(s.results, opt_texts(labels@)),
                lines_view(lined@) =~= want.take(k as int),
                forall|m: int| 0 <= m < k ==> #[trigger] lined@[m].0 == results@[m].0,
            decreases results.len() - k,
        {
            let label = if k < labels.len() {
                match &labels[k] {
                    Some(l) => Some(l.clone()),
                    None => None,
                }
            } else {
                None
            };
            assert(opt_text(label) == label_at(opt_texts(labels@), k as int));
            let line = results[k].2.line(label);
            let ghost before = lines_view(lined@);
            lined.push((results[k].0, results[k].1.clone(), line));
            assert(lines_view(lined@) =~= before.push(want[k as int]));
            assert(want.take(k + 1) =~= want.take(k as int).push(want[k as int]));
            k = k + 1;
        }
        assert(want.take(results.len() as int) =~= want);
        let mut entries = entries;
        proof {
            assert forall|j: int| 0 <= j < calls.len() implies #[trigger] calls@[j].0 < entries.len() by {
                assert(s.calls[j].0 == calls@[j].0 as int);
            }
            assert forall|m: int| 0 <= m < lined.len() implies #[trigger] lined@[m].0 < entries.len() by {
                assert(s.results[m].0 == results@[m].0 as int);
            }
        }
        pair_tools(&mut entries, calls, lined);
        if !has_messages {
            let ghost head = entry_views(entries@);
            let mut i: usize = 0;
            while i < fallback.len()
                invariant
                    i <= fallback.len(),
                    entry_views(entries@) =~= head + entry_views(fallback@).take(i as int),
                decreases fallback.len() - i,
            {
                let ghost before = entry_views(entries@);
                entries.push(fallback[i].clone());
                assert(entry_views(entries@) =~= before.push(fallback@[i as int]@));
                assert(entry_views(fallback@).take(i + 1) =~= entry_views(fallback@).take(i as int).push(
                    fallback@[i as int]@,
                ));
                i = i + 1;
            }
            assert(entry_views(fallback@).take(fallback.len() as int) =~= entry_views(fallback@));
            entries = sort_oldest_first(entries);
        }
        let mut info = info;
        if !model.as_str().is_empty() {
            info.append("\nModel: ");
            info.append(model.as_str());
        }
        let history = History { sources: Vec::new(), entries, skipped };
        assert(history@.sources =~= Seq::<Seq<char>>::empty());
        Session { history, info, path: path.to_owned(), id }
    }
}

proof fn lemma_count_grows(ids: Seq<Seq<char>>, id: Seq<char>, a: int, b: int)
    requires
        0 <= a < b <= ids.len(),
        ids[a] == id,
    ensures
        count_ids(ids, id, b) >= count_ids(ids, id, a) + 1,
    decreases b - a,
{
    if b > a + 1 {
        lemma_count_grows(ids, id, a, b - 1);
    }
}

proof fn lemma_nth_found(ids: Seq<Seq<char>>, id: Seq<char>, rank: nat, from: int, k: int)
    requires
        0 <= from <= k < ids.len(),
        ids[k] == id,
        count_ids(ids, id, k) == rank,
    ensures
        nth_position(ids, id, rank, from) == Some(k),
    decreases k - from,
{
    if from < k {
        if ids[from] == id && count_ids(ids, id, from) == rank {
            lemma_count_grows(ids, id, from, k);
        }
        lemma_nth_found(ids, id, rank, from + 1, k);
    }
}

proof fn lemma_nth_meaning(ids: Seq<Seq<char>>, id: Seq<char>, rank: nat, from: int)
    ensures
        match nth_position(ids, id, rank, from) {
            Some(k) => from <= k < ids.len() && ids[k] == id && count_ids(ids, id, k) == rank,
            None => true,
        },
    decreases ids.len() - from,
{
    if 0 <= from < ids.len() && !(ids[from] == id && count_ids(ids, id, from) == rank) {
        lemma_nth_meaning(ids, id, rank, from + 1);
    }
}

proof fn lemma_nth_exists(ids: Seq<Seq<char>>, id: Seq<char>, rank: nat, n: int)
    requires
        0 <= n <= ids.len(),
        count_ids(ids, id, n) > rank,
    ensures
        exists|k: int| 0 <= k < n && ids[k] == id && #[trigger] count_ids(ids, id, k) == rank,
    decreases n,
{
    if count_ids(ids, id, n - 1) > rank {
        lemma_nth_exists(ids, id, rank, n - 1);
    } else {
        assert(count_ids(ids, id, n - 1) == rank);
    }
}

/// Law: a call's partner is a result with the same call ID, and that result
/// counts as paired (it leaves the timeline).
pub proof fn lemma_partner_is_paired(
    calls: Seq<(int, Seq<char>)>,
    results: Seq<(int, Seq<char>, Seq<char>)>,
    j: int,
    k: int,
)
    requires
        0 <= j < calls.len(),
        partner(calls, results, j) == Some(k),
    ensures
        0 <= k < results.len(),
        results[k].1 == calls[j].1,
        result_paired(calls, results, k),
{
    let id = calls[j].1;
    let cids = call_ids(calls);
    let rids = result_ids(results);
    lemma_nth_meaning(rids, id, count_ids(cids, id, j), 0);
    assert(cids[j] == id);
    lemma_count_grows(cids, id, j, calls.len() as int);
}

/// Law: no result is paired with two calls.
pub proof fn lemma_partner_unique(
    calls: Seq<(int, Seq<char>)>,
    results: Seq<(int, Seq<char>, Seq<char>)>,
    j1: int,
    j2: int,
)
    requires
        0 <= j1 < calls.len(),
        0 <= j2 < calls.len(),
        partner(calls, results, j1) is Some,
        partner(calls, results, j1) == partner(calls, results, j2),
    ensures
        j1 == j2,
{
    let cids = call_ids(calls);
    let rids = result_ids(results);
    let k = partner(calls, results, j1)->0;
    lemma_nth_meaning(rids, calls[j1].1, count_ids(cids, calls[j1].1, j1), 0);
    lemma_nth_meaning(rids, calls[j2].1, count_ids(cids, calls[j2].1, j2), 0);
    assert(cids[j1] == calls[j1].1);
    assert(cids[j2] == calls[j2].1);
    if j1 < j2 {
        lemma_count_grows(cids, calls[j1].1, j1, j2);
    } else if j2 < j1 {
        lemma_count_grows(cids, calls[j2].1, j2, j1);
    }
}

/// Law: every paired result is the partner of a call, so its output is
/// shown with that call.
pub proof fn lemma_paired_result_has_call(
    calls: Seq<(int, Seq<char>)>,
    results: Seq<(int, Seq<char>, Seq<char>)>,
    k: int,
)
    requires
        0 <= k < results.len(),
        result_paired(calls, results, k),
    ensures
        exists|j: int| 0 <= j < calls.len() && #[trigger] partner(calls, results, j) == Some(k),
{
    let id = results[k].1;
    let cids = call_ids(calls);
    let rids = result_ids(results);
    let rank = count_ids(rids, id, k);
    lemma_nth_exists(cids, id, rank, calls.len() as int);
    let j = choose|j: int| 0 <= j < calls.len() && cids[j] == id && #[trigger] count_ids(cids, id, j) == rank;
    assert(rids[k] == id);
    lemma_nth_found(rids, id, rank, 0, k);
    assert(partner(calls, results, j) == Some(k));
}

/// What `Path::join` gives for a base path and a relative path.
pub uninterp spec fn joined_path(base: Seq<char>, rest: Seq<char>) -> Seq<char>;

/// Joins a relative path onto a base path (`Path::join`).
#[verifier::external_body]
fn path_join(base: &str, rest: &str) -> (r: String)
    ensures
        r@ == joined_path(base@, rest@),
{
    std::path::Path::new(base).join(rest).to_string_lossy().into_owned()
}

/// Where the session logs of a record are: the override, else `sessions`
/// beside the record's history file (beside `.` when it has none).
pub open spec fn sessions_dir(source: Option<Seq<char>>, override_dir: Option<Seq<char>>) -> Seq<char> {
    match override_dir {
        Some(d) => d,
        None => joined_path(
            match source {
                Some(p) => match crate::history::parent_of(p) {
                    Some(q) => q,
                    None => "."@,
                },
                None => "."@,
            },
            "sessions"@,
        ),
    }
}

/// The directory holding the session logs of a record.
pub fn session_directory(entry: &Entry, override_dir: Option<&str>) -> (r: String)
    ensures
        r@ == sessions_dir(
            entry@.source,
            match override_dir {
                Some(d) => Some(d@),
                None => None,
            },
        ),
{
    match override_dir {
        Some(d) => d.to_owned(),
        None => {
            let base = match &entry.source {
                Some(p) => match crate::history::path_parent(p.as_str()) {
                    Some(q) => q,
                    None => String::from_str("."),
                },
                None => String::from_str("."),
            };
            path_join(base.as_str(), "sessions")
        },
    }
}

/// Whether a session log's first line is the metadata of session `id`.
pub open spec fn metadata_of(line: Seq<char>, id: Seq<char>) -> bool {
    match json_parse(line) {
        Some(v) => text_of(field(v, "type"@)) == Some("session_meta"@) && (text_of(
            field_in(field(v, "payload"@), "id"@),
        ) == Some(id) || text_of(field_in(field(v, "payload"@), "session_id"@)) == Some(id)),
        None => false,
    }
}

/// Whether a session log's first line is the metadata of session `id`
/// (a file name alone cannot select the wrong session).
pub fn matches_id(first_line: &str, id: &str) -> (r: bool)
    ensures
        r == metadata_of(first_line@, id@),
{
    match parse_json(first_line) {
        Some(v) => {
            let p = get(&v, "payload");
            let by_id = match field_of(p, "id") {
                Some(Json::Str(s)) => is_text(s, id),
                _ => false,
            };
            let by_session = match field_of(p, "session_id") {
                Some(Json::Str(s)) => is_text(s, id),
                _ => false,
            };
            let is_meta = match get(&v, "type") {
                Some(Json::Str(k)) => is_text(k, "session_meta"),
                _ => false,
            };
            is_meta && (by_id || by_session)
        },
        None => false,
    }
}


/// Law: a `turn_context` line whose payload names a non-empty model records
/// that model, whatever model was recorded before.
pub proof fn lemma_latest_model_is_recorded(s: ReadState, line: Seq<char>, v: Json)
    requires
        trimmed(line).len() > 0,
        json_parse(line) == Some(v),
        text_or_empty(field(v, "type"@)) == "turn_context"@,
        text_or_empty(field_in(field(v, "payload"@), "model"@)).len() > 0,
    ensures
        step(s, line).model == text_or_empty(field_in(field(v, "payload"@), "model"@)),
{
    reveal_strlit("turn_context");
    reveal_strlit("session_meta");
    assert("turn_context"@[0] != "session_meta"@[0]);
    assert("turn_context"@ != "session_meta"@);
    let p = field(v, "payload"@);
    let next = text_or_empty(field_in(p, "model"@));
    assert(json_parse(line) is Some);
    assert(step(s, line) == ReadState { model: next, ..s });
}

} // verus!
