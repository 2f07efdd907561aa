//! Record predicates of the browser: tool records, failures, search matches,
//! and marks that find a record again after the list is rebuilt.
use crate::activity::{
    date_text, day_count, day_hits, iso_date, lemma_tallied_counts, local_date, local_day_of, next_window, tallied,
    today, window_start, Activity,
    Window,
};
use crate::listing::source_after;
use crate::keys::{Escape, Key};
use crate::loader::{Loaded, Target};
use crate::resume::Ready;
use crate::detail_find::Find;
use crate::history::{entry_views, opt_text, source_label, source_name, Entry, EntryView, History};
use crate::search::{remembered, Editor};
use crate::formatting::{decimal, decimal_of, digits_of};
use crate::text::{
    chars_of, contains, contains_seq, extend_chars, join, joined, lowercase, starts_with_seq, str_starts_with, string_of,
    to_lowercase,
};
use std::hash::{Hash, Hasher};
use vstd::prelude::*;

verus! {

/// Which pane receives navigation keys.
#[derive(Clone, Copy, Debug, PartialEq, Eq, Structural)]
pub enum Focus {
    List,
    Detail,
    Activity,
}

impl Default for Focus {
    fn default() -> (r: Self)
        ensures
            r == Focus::List,
    {
        Focus::List
    }
}

/// Whether a record is a tool call or a tool result.
pub open spec fn tool_record(e: EntryView) -> bool {
    starts_with_seq(e.session_id, "TOOL ·"@) || starts_with_seq(e.session_id, "RESULT ·"@)
}

/// Whether a record is a failed tool: its recorded tool status, or else its
/// text starting with `Failed` or `FAILED`.
pub open spec fn failed_tool(e: EntryView) -> bool {
    tool_record(e) && match e.tool {
        Some(t) => t.failed,
        None => starts_with_seq(e.text, "Failed"@) || starts_with_seq(e.text, "FAILED"@),
    }
}

/// Whether a record matches a (lowercase) query: in its text, its role or
/// session ID, or its tool summary, compared in lowercase.
pub open spec fn query_matches(e: EntryView, query: Seq<char>) -> bool {
    ||| query.len() == 0
    ||| contains_seq(lowercase(e.text), query)
    ||| contains_seq(lowercase(e.session_id), query)
    ||| match e.tool {
        Some(t) => contains_seq(lowercase(t.summary), query),
        None => false,
    }
}

/// Whether a record is a tool call or a tool result.
pub fn is_tool(entry: &Entry) -> (r: bool)
    ensures
        r == tool_record(entry@),
{
    str_starts_with(entry.session_id.as_str(), "TOOL ·") || str_starts_with(
        entry.session_id.as_str(),
        "RESULT ·",
    )
}

/// Whether a record is a failed tool.
pub fn is_failed_tool(entry: &Entry) -> (r: bool)
    ensures
        r == failed_tool(entry@),
{
    is_tool(entry) && match &entry.tool {
        Some(t) => t.failed,
        None => str_starts_with(entry.text.as_str(), "Failed") || str_starts_with(
            entry.text.as_str(),
            "FAILED",
        ),
    }
}

/// Whether `text`, in lowercase, contains `query`.
fn lower_contains(text: &str, query: &[char]) -> (r: bool)
    ensures
        r == contains_seq(lowercase(text@), query@),
{
    let lower = to_lowercase(text);
    contains(chars_of(lower.as_str()).as_slice(), query)
}

/// Whether a record matches a search query (the query is lowercase already).
pub fn matches_query(entry: &Entry, query: &str) -> (r: bool)
    ensures
        r == query_matches(entry@, query@),
{
    let q = chars_of(query);
    q.len() == 0 || lower_contains(entry.text.as_str(), q.as_slice()) || lower_contains(
        entry.session_id.as_str(),
        q.as_slice(),
    ) || match &entry.tool {
        Some(t) => lower_contains(t.summary.as_str(), q.as_slice()),
        None => false,
    }
}

/// The digest that `DefaultHasher::new()` gives after hashing a text (the std
/// documentation promises that all hashers made by `new` are the same).
pub uninterp spec fn text_digest(text: Seq<char>) -> u64;

/// Hashes a text with a hasher made by `std::collections::hash_map::DefaultHasher::new`.
#[verifier::external_body]
fn hash_text(text: &String) -> (r: u64)
    ensures
        r == text_digest(text@),
{
    let mut hash = std::collections::hash_map::DefaultHasher::new();
    text.hash(&mut hash);
    hash.finish()
}

/// What identifies a record across reloads: its source, its session ID, its
/// time and a digest of its text.
pub struct RecordMark {
    pub source: Option<String>,
    pub session_id: String,
    pub ts: i64,
    pub digest: u64,
}

/// Whether a mark identifies a record.
pub open spec fn marks(m: RecordMark, e: EntryView) -> bool {
    &&& opt_text(m.source) == e.source
    &&& m.session_id@ == e.session_id
    &&& m.ts == e.ts
    &&& m.digest == text_digest(e.text)
}

impl RecordMark {
    /// The digest of a record's text.
    pub fn digest(entry: &Entry) -> (r: u64)
        ensures
            r == text_digest(entry.text@),
    {
        hash_text(&entry.text)
    }

    /// The mark of a record.
    pub fn new(entry: &Entry) -> (r: RecordMark)
        ensures
            marks(r, entry@),
    {
        RecordMark {
            source: crate::history::copy_opt_string(&entry.source),
            session_id: entry.session_id.clone(),
            ts: entry.ts,
            digest: Self::digest(entry),
        }
    }

    /// Whether this mark identifies `entry`.
    pub fn matches(&self, entry: &Entry) -> (r: bool)
        ensures
            r == marks(*self, entry@),
    {
        let same_source = match (&self.source, &entry.source) {
            (Some(a), Some(b)) => *a == *b,
            (None, None) => true,
            _ => false,
        };
        same_source && self.session_id == entry.session_id && self.ts == entry.ts && self.digest
            == Self::digest(entry)
    }
}

/// Whether each record is a tool record.
pub open spec fn tool_flags(es: Seq<EntryView>) -> Seq<bool> {
    es.map_values(|e: EntryView| tool_record(e))
}

/// Where the run of tool records that continues at `e` ends.
pub open spec fn run_end(flags: Seq<bool>, e: int) -> int
    decreases flags.len() - e,
{
    if 0 <= e < flags.len() && flags[e] {
        run_end(flags, e + 1)
    } else {
        e
    }
}

/// The runs of at least two consecutive tool records, from `start` on, as
/// `(first, end)` record ranges.
pub open spec fn runs_from(flags: Seq<bool>, start: int) -> Seq<(int, int)>
    decreases flags.len() - start, 1nat,
{
    if start < 0 || start >= flags.len() {
        Seq::empty()
    } else if !flags[start] {
        runs_from(flags, start + 1)
    } else {
        let e = run_end(flags, start + 1);
        proof {
            lemma_run_end_bounds(flags, start + 1);
        }
        (if e - start >= 2 {
            seq![(start, e)]
        } else {
            Seq::empty()
        }) + runs_from(flags, e)
    }
}

/// Where a run of tool records ends: not before it starts, within the
/// timeline, after tool records only, and at a record that is not a tool.
pub proof fn lemma_run_end_bounds(flags: Seq<bool>, e: int)
    requires
        0 <= e,
    ensures
        e <= run_end(flags, e),
        e <= flags.len() ==> run_end(flags, e) <= flags.len(),
        forall|k: int| e <= k < run_end(flags, e) ==> flags[k],
        e <= flags.len() ==> run_end(flags, e) == flags.len() || !flags[run_end(flags, e)],
    decreases flags.len() - e,
{
    if 0 <= e < flags.len() && flags[e] {
        lemma_run_end_bounds(flags, e + 1);
    }
}

/// Every run found from `start` on lies within `start ..= flags.len()` and
/// holds at least one record.
proof fn lemma_runs_within(flags: Seq<bool>, start: int)
    requires
        0 <= start,
    ensures
        forall|g: int|
            0 <= g < runs_from(flags, start).len() ==> start <= #[trigger] runs_from(flags, start)[g].0
                < runs_from(flags, start)[g].1 <= flags.len(),
    decreases flags.len() - start,
{
    if start < flags.len() {
        if !flags[start] {
            lemma_runs_within(flags, start + 1);
            assert(runs_from(flags, start) == runs_from(flags, start + 1));
        } else {
            let e = run_end(flags, start + 1);
            lemma_run_end_bounds(flags, start + 1);
            lemma_runs_within(flags, e);
            let head: Seq<(int, int)> = if e - start >= 2 {
                seq![(start, e)]
            } else {
                Seq::empty()
            };
            assert(runs_from(flags, start) == head + runs_from(flags, e));
            assert forall|g: int| 0 <= g < runs_from(flags, start).len() implies start
                <= #[trigger] runs_from(flags, start)[g].0 < runs_from(flags, start)[g].1 <= flags.len() by {
                if g >= head.len() {
                    assert(runs_from(flags, start)[g] == runs_from(flags, e)[g - head.len()]);
                }
            }
        }
    }
}

/// Every group of a timeline starts at one of its records.
proof fn lemma_runs_start_before(es: Seq<EntryView>)
    ensures
        forall|g: int|
            0 <= g < tool_runs(es).len() ==> 0 <= #[trigger] tool_runs(es)[g].0 < tool_runs(es)[g].1
                <= es.len(),
{
    lemma_runs_within(tool_flags(es), 0);
}

/// The groups of consecutive tool records in a session timeline.
pub open spec fn tool_runs(es: Seq<EntryView>) -> Seq<(int, int)> {
    runs_from(tool_flags(es), 0)
}

/// The runs of at least two consecutive tool records, as `(first, end)`
/// ranges of record indices, in order.
pub fn tool_groups(entries: &Vec<Entry>) -> (r: Vec<(usize, usize)>)
    ensures
        r@.map_values(|g: (usize, usize)| (g.0 as int, g.1 as int)) == tool_runs(entry_views(entries@)),
{
    let ghost flags = tool_flags(crate::history::entry_views(entries@));
    let len = entries.len();
    let mut out: Vec<(usize, usize)> = Vec::new();
    let mut start: usize = 0;
    while start < len
        invariant
            start <= len,
            len == entries.len(),
            flags == tool_flags(crate::history::entry_views(entries@)),
            flags.len() == len,
            out@.map_values(|g: (usize, usize)| (g.0 as int, g.1 as int)) + runs_from(flags, start as int)
                == runs_from(flags, 0),
        decreases len - start,
    {
        assert(flags[start as int] == tool_record(entries@[start as int]@));
        if !is_tool(&entries[start]) {
            start = start + 1;
            continue;
        }
        let mut end = start + 1;
        proof {
            lemma_run_end_bounds(flags, start + 1);
        }
        while end < len && is_tool(&entries[end])
            invariant
                start < end <= len,
                len == entries.len(),
                flags == tool_flags(crate::history::entry_views(entries@)),
                flags.len() == len,
                run_end(flags, end as int) == run_end(flags, start + 1),
            decreases len - end,
        {
            assert(flags[end as int] == tool_record(entries@[end as int]@));
            end = end + 1;
        }
        if end < len {
            assert(flags[end as int] == tool_record(entries@[end as int]@));
        }
        assert(run_end(flags, end as int) == end);
        let ghost before = out@.map_values(|g: (usize, usize)| (g.0 as int, g.1 as int));
        if end - start >= 2 {
            out.push((start, end));
            assert(out@.map_values(|g: (usize, usize)| (g.0 as int, g.1 as int)) =~= before.push(
                (start as int, end as int),
            ));
            assert(before.push((start as int, end as int)) + runs_from(flags, end as int) =~= before
                + (seq![(start as int, end as int)] + runs_from(flags, end as int)));
        } else {
            assert(before + runs_from(flags, end as int) =~= before + (Seq::<(int, int)>::empty()
                + runs_from(flags, end as int)));
        }
        start = end;
    }
    assert(out@.map_values(|g: (usize, usize)| (g.0 as int, g.1 as int)) + Seq::<(int, int)>::empty()
        =~= out@.map_values(|g: (usize, usize)| (g.0 as int, g.1 as int)));
    out
}

/// The view of record ranges.
pub open spec fn ranges_view(groups: Seq<(usize, usize)>) -> Seq<(int, int)> {
    groups.map_values(|g: (usize, usize)| (g.0 as int, g.1 as int))
}

/// The first group, from `from` on, whose range holds record `index`.
pub open spec fn group_containing(groups: Seq<(int, int)>, index: int, from: int) -> Option<int>
    decreases groups.len() - from,
{
    if from < 0 || from >= groups.len() {
        None
    } else if groups[from].0 <= index < groups[from].1 {
        Some(from)
    } else {
        group_containing(groups, index, from + 1)
    }
}

pub(crate) proof fn lemma_group_containing_bounds(groups: Seq<(int, int)>, index: int, from: int)
    requires
        0 <= from,
    ensures
        match group_containing(groups, index, from) {
            Some(g) => from <= g < groups.len() && groups[g].0 <= index < groups[g].1,
            None => true,
        },
    decreases groups.len() - from,
{
    if from < groups.len() && !(groups[from].0 <= index < groups[from].1) {
        lemma_group_containing_bounds(groups, index, from + 1);
    }
}

/// The group whose range holds record `index`, if any.
pub fn group_of(groups: &Vec<(usize, usize)>, index: usize) -> (r: Option<usize>)
    ensures
        match r {
            Some(g) => group_containing(ranges_view(groups@), index as int, 0) == Some(g as int)
                && g < groups.len(),
            None => group_containing(ranges_view(groups@), index as int, 0) is None,
        },
{
    let ghost v = ranges_view(groups@);
    proof {
        lemma_group_containing_bounds(v, index as int, 0);
    }
    let mut g: usize = 0;
    while g < groups.len()
        invariant
            g <= groups.len(),
            v == ranges_view(groups@),
            group_containing(v, index as int, 0) == group_containing(v, index as int, g as int),
        decreases groups.len() - g,
    {
        assert(v[g as int] == (groups@[g as int].0 as int, groups@[g as int].1 as int));
        if groups[g].0 <= index && index < groups[g].1 {
            return Some(g);
        }
        g = g + 1;
    }
    None
}

/// The list rows of a session timeline when no search is active: a group's
/// header row (numbered `len + first`) at its first visible record, then
/// its records only when the group is expanded; other records as they are.
pub open spec fn grouped_rows(
    visible: Seq<usize>,
    groups: Seq<(int, int)>,
    expanded: Seq<usize>,
    len: int,
    n: int,
) -> Seq<int>
    decreases n,
{
    if n <= 0 {
        Seq::empty()
    } else {
        let before = grouped_rows(visible, groups, expanded, len, n - 1);
        let index = visible[n - 1] as int;
        match group_containing(groups, index, 0) {
            Some(g) => {
                let id = len + groups[g].0;
                (if (forall|k: int|
                    0 <= k < n - 1 ==> group_containing(groups, visible[k] as int, 0) != Some(g)) {
                    before.push(id)
                } else {
                    before
                }) + if expanded.contains(id as usize) {
                    seq![index]
                } else {
                    Seq::empty()
                }
            },
            None => before.push(index),
        }
    }
}

/// Whether `v` holds `x`.
pub(crate) fn holds(v: &Vec<usize>, x: usize) -> (r: bool)
    ensures
        r == v@.contains(x),
{
    let mut i: usize = 0;
    while i < v.len()
        invariant
            i <= v.len(),
            forall|k: int| 0 <= k < i ==> v@[k] != x,
        decreases v.len() - i,
    {
        if v[i] == x {
            assert(v@[i as int] == x);
            return true;
        }
        i = i + 1;
    }
    false
}

/// The list rows of visible records `visible` (see `grouped_rows`).
pub fn group_rows(visible: &Vec<usize>, groups: &Vec<(usize, usize)>, expanded: &Vec<usize>, len: usize) -> (r: Vec<usize>)
    requires
        forall|g: int| 0 <= g < groups.len() ==> #[trigger] groups@[g].0 < len,
        len + len <= usize::MAX,
    ensures
        r@.map_values(|x: usize| x as int) == grouped_rows(
            visible@,
            ranges_view(groups@),
            expanded@,
            len as int,
            visible.len() as int,
        ),
{
    let ghost gv = ranges_view(groups@);
    let mut rows: Vec<usize> = Vec::new();
    let mut seen: Vec<usize> = Vec::new();
    let mut i: usize = 0;
    while i < visible.len()
        invariant
            i <= visible.len(),
            gv == ranges_view(groups@),
            forall|g: int| 0 <= g < groups.len() ==> #[trigger] groups@[g].0 < len,
            len + len <= usize::MAX,
            rows@.map_values(|x: usize| x as int) == grouped_rows(visible@, gv, expanded@, len as int, i as int),
            forall|g: int|
                #![trigger seen@.contains(g as usize)]
                0 <= g < groups.len() ==> (seen@.contains(g as usize) <==> exists|k: int|
                    0 <= k < i && #[trigger] group_containing(gv, visible@[k] as int, 0) == Some(g)),
        decreases visible.len() - i,
    {
        let index = visible[i];
        let ghost before = rows@.map_values(|x: usize| x as int);
        match group_of(groups, index) {
            Some(g) => {
                proof {
                    lemma_group_containing_bounds(gv, index as int, 0);
                }
                assert(gv[g as int] == (groups@[g as int].0 as int, groups@[g as int].1 as int));
                let ghost old_seen = seen@;
                assert(old_seen.contains(g as usize) == exists|k: int|
                    0 <= k < i && #[trigger] group_containing(gv, visible@[k] as int, 0) == Some(
                        g as int,
                    ));
                let id = len + groups[g].0;
                let first = !holds(&seen, g);
                if first {
                    rows.push(id);
                    seen.push(g);
                }
                let ghost middle = rows@.map_values(|x: usize| x as int);
                if holds(expanded, id) {
                    rows.push(index);
                    assert(rows@.map_values(|x: usize| x as int) =~= middle + seq![index as int]);
                } else {
                    assert(rows@.map_values(|x: usize| x as int) =~= middle + Seq::<int>::empty());
                }
                if first {
                    assert(middle =~= before.push(id as int));
                } else {
                    assert(middle =~= before);
                }
                assert forall|h: int| #![trigger seen@.contains(h as usize)] 0 <= h < groups.len() implies (seen@.contains(h as usize) <==> exists|k: int|
                    0 <= k < i + 1 && #[trigger] group_containing(gv, visible@[k] as int, 0) == Some(h)) by {
                    assert(group_containing(gv, visible@[i as int] as int, 0) == Some(g as int));
                    assert(old_seen.contains(h as usize) == exists|k: int|
                        0 <= k < i && #[trigger] group_containing(gv, visible@[k] as int, 0) == Some(h));
                    if first {
                        assert(seen@ == old_seen.push(g));
                        assert(seen@.contains(h as usize) == (old_seen.contains(h as usize) || h == g as int)) by {
                            if seen@.contains(h as usize) {
                                let m = choose|m: int| 0 <= m < seen@.len() && seen@[m] == h as usize;
                                if m < old_seen.len() {
                                    assert(old_seen[m] == h as usize);
                                }
                            }
                            if old_seen.contains(h as usize) {
                                let m = choose|m: int| 0 <= m < old_seen.len() && old_seen[m] == h as usize;
                                assert(seen@[m] == h as usize);
                            }
                            if h == g as int {
                                assert(seen@[seen@.len() - 1] == g);
                            }
                        }
                    }
                    if exists|k: int| 0 <= k < i + 1 && #[trigger] group_containing(gv, visible@[k] as int, 0) == Some(h) {
                        let k = choose|k: int| 0 <= k < i + 1 && #[trigger] group_containing(gv, visible@[k] as int, 0) == Some(h);
                        if k == i {
                            assert(h == g as int);
                        }
                    }
                }
            },
            None => {
                rows.push(index);
                assert(rows@.map_values(|x: usize| x as int) =~= before.push(index as int));
                assert forall|h: int| #![trigger seen@.contains(h as usize)] 0 <= h < groups.len() implies (seen@.contains(h as usize) <==> exists|k: int|
                    0 <= k < i + 1 && #[trigger] group_containing(gv, visible@[k] as int, 0) == Some(h)) by {
                    if exists|k: int| 0 <= k < i + 1 && #[trigger] group_containing(gv, visible@[k] as int, 0) == Some(h) {
                        let k = choose|k: int| 0 <= k < i + 1 && #[trigger] group_containing(gv, visible@[k] as int, 0) == Some(h);
                        assert(k < i);
                    }
                }
            },
        }
        i = i + 1;
    }
    rows
}

/// The place of record `index` in display order (reversed when oldest first).
pub open spec fn display_order(index: int, len: int, oldest_first: bool) -> int {
    if oldest_first {
        len - 1 - index
    } else {
        index
    }
}

/// The record failure navigation starts from: the edge of the selected
/// group that comes first in display order, else the selected record.
pub open spec fn failure_start(selected: Option<usize>, group: Option<(usize, usize)>, oldest_first: bool) -> Option<usize> {
    match group {
        Some(r) => Some(
            if oldest_first {
                (r.1 - 1) as usize
            } else {
                r.0
            },
        ),
        None => selected,
    }
}

/// The first failure, from position `k` on, after `current` in display
/// order (within a selected group, its starting record counts too).
pub open spec fn next_failure(
    failures: Seq<usize>,
    current: Option<usize>,
    in_group: bool,
    len: int,
    oldest_first: bool,
    k: int,
) -> Option<usize>
    decreases failures.len() - k,
{
    if k < 0 || k >= failures.len() {
        None
    } else {
        let f = failures[k];
        let after = match current {
            None => true,
            Some(c) => display_order(f as int, len, oldest_first) > display_order(
                c as int,
                len,
                oldest_first,
            ) || (in_group && f == c),
        };
        if after {
            Some(f)
        } else {
            next_failure(failures, current, in_group, len, oldest_first, k + 1)
        }
    }
}

/// The last failure among the first `n` before `current` in display order.
pub open spec fn previous_failure(
    failures: Seq<usize>,
    current: Option<usize>,
    len: int,
    oldest_first: bool,
    n: int,
) -> Option<usize>
    decreases n,
{
    if n <= 0 {
        None
    } else {
        let f = failures[n - 1];
        let before = match current {
            None => true,
            Some(c) => display_order(f as int, len, oldest_first) < display_order(
                c as int,
                len,
                oldest_first,
            ),
        };
        if before {
            Some(f)
        } else {
            previous_failure(failures, current, len, oldest_first, n - 1)
        }
    }
}

/// The failure that navigation lands on: the next (or previous) failure in
/// display order, wrapping around to the first (or last).
pub open spec fn failure_target_of(
    failures: Seq<usize>,
    selected: Option<usize>,
    group: Option<(usize, usize)>,
    oldest_first: bool,
    forward: bool,
    len: int,
) -> usize {
    let current = failure_start(selected, group, oldest_first);
    if forward {
        match next_failure(failures, current, group is Some, len, oldest_first, 0) {
            Some(f) => f,
            None => failures[0],
        }
    } else {
        match previous_failure(failures, current, len, oldest_first, failures.len() as int) {
            Some(f) => f,
            None => failures.last(),
        }
    }
}

/// The place of a record in display order.
fn order_of(index: usize, len: usize, oldest_first: bool) -> (o: usize)
    requires
        oldest_first ==> index < len,
    ensures
        o == display_order(index as int, len as int, oldest_first),
{
    if oldest_first {
        len - 1 - index
    } else {
        index
    }
}

/// The failed tool record that failure navigation goes to, among `failures`
/// (in display order) of a timeline of `len` records.
pub fn failure_target(
    failures: &Vec<usize>,
    selected: Option<usize>,
    group: Option<(usize, usize)>,
    oldest_first: bool,
    forward: bool,
    len: usize,
) -> (r: usize)
    requires
        failures.len() > 0,
        forall|k: int| 0 <= k < failures.len() ==> #[trigger] failures@[k] < len,
        oldest_first ==> match group {
            Some(g) => 0 < g.1 <= len,
            None => selected matches Some(s) ==> s < len,
        },
    ensures
        r == failure_target_of(failures@, selected, group, oldest_first, forward, len as int),
        failures@.contains(r),
{
    let current = match group {
        Some(range) => Some(
            if oldest_first {
                range.1 - 1
            } else {
                range.0
            },
        ),
        None => selected,
    };
    if forward {
        let mut k: usize = 0;
        while k < failures.len()
            invariant
                forward,
                k <= failures.len(),
                forall|j: int| 0 <= j < failures.len() ==> #[trigger] failures@[j] < len,
                oldest_first ==> (current matches Some(c) ==> c < len),
                current == failure_start(selected, group, oldest_first),
                next_failure(failures@, current, group is Some, len as int, oldest_first, 0)
                    == next_failure(failures@, current, group is Some, len as int, oldest_first, k as int),
            decreases failures.len() - k,
        {
            let f = failures[k];
            let after = match current {
                None => true,
                Some(c) => order_of(f, len, oldest_first) > order_of(c, len, oldest_first) || (group.is_some()
                    && f == c),
            };
            if after {
                assert(failures@.contains(f));
                return f;
            }
            k = k + 1;
        }
        assert(failures@.contains(failures@[0]));
        failures[0]
    } else {
        let mut n: usize = failures.len();
        while n > 0
            invariant
                !forward,
                n <= failures.len(),
                forall|j: int| 0 <= j < failures.len() ==> #[trigger] failures@[j] < len,
                oldest_first ==> (current matches Some(c) ==> c < len),
                current == failure_start(selected, group, oldest_first),
                previous_failure(failures@, current, len as int, oldest_first, failures.len() as int)
                    == previous_failure(failures@, current, len as int, oldest_first, n as int),
            decreases n,
        {
            let f = failures[n - 1];
            let before = match current {
                None => true,
                Some(c) => order_of(f, len, oldest_first) < order_of(c, len, oldest_first),
            };
            if before {
                assert(failures@.contains(f));
                return f;
            }
            n = n - 1;
        }
        let last = failures[failures.len() - 1];
        assert(failures@.contains(last));
        last
    }
}

/// Whether a record passes the list filters: its source (when one is
/// chosen), its session (when one is chosen, with the session's source) and
/// the query.
pub open spec fn passes(
    e: EntryView,
    source: Option<Seq<char>>,
    session: Option<(Seq<char>, Option<Seq<char>>)>,
    query: Seq<char>,
) -> bool {
    &&& match source {
        Some(s) => e.source == Some(s),
        None => true,
    }
    &&& match session {
        Some((id, origin)) => id == e.session_id && origin == e.source,
        None => true,
    }
    &&& query_matches(e, query)
}

/// The indices of the first `n` records that pass the filters.
pub open spec fn passing(
    es: Seq<EntryView>,
    source: Option<Seq<char>>,
    session: Option<(Seq<char>, Option<Seq<char>>)>,
    query: Seq<char>,
    n: int,
) -> Seq<int>
    decreases n,
{
    if n <= 0 {
        Seq::empty()
    } else {
        let before = passing(es, source, session, query, n - 1);
        if passes(es[n - 1], source, session, query) {
            before.push(n - 1)
        } else {
            before
        }
    }
}

/// The indices of the records that pass the list filters (`query` in lowercase).
pub fn matching(
    entries: &Vec<Entry>,
    source: Option<&String>,
    session: Option<(&String, Option<&String>)>,
    query: &str,
) -> (r: Vec<usize>)
    ensures
        r@.map_values(|x: usize| x as int) == passing(
            entry_views(entries@),
            match source {
                Some(s) => Some(s@),
                None => None,
            },
            match session {
                Some((id, origin)) => Some(
                    (
                        id@,
                        match origin {
                            Some(o) => Some(o@),
                            None => None,
                        },
                    ),
                ),
                None => None,
            },
            query@,
            entries.len() as int,
        ),
{
    let ghost es = entry_views(entries@);
    let ghost src = match source {
        Some(s) => Some(s@),
        None => None,
    };
    let ghost ses = match session {
        Some((id, origin)) => Some(
            (
                id@,
                match origin {
                    Some(o) => Some(o@),
                    None => None,
                },
            ),
        ),
        None => None,
    };
    let mut out: Vec<usize> = Vec::new();
    let mut i: usize = 0;
    while i < entries.len()
        invariant
            i <= entries.len(),
            es == entry_views(entries@),
            src == match source {
                Some(s) => Some(s@),
                None => None::<Seq<char>>,
            },
            ses == match session {
                Some((id, origin)) => Some(
                    (
                        id@,
                        match origin {
                            Some(o) => Some(o@),
                            None => None::<Seq<char>>,
                        },
                    ),
                ),
                None => None,
            },
            out@.map_values(|x: usize| x as int) == passing(es, src, ses, query@, i as int),
        decreases entries.len() - i,
    {
        let e = &entries[i];
        assert(es[i as int] == e@);
        let by_source = match source {
            Some(s) => match &e.source {
                Some(t) => *t == *s,
                None => false,
            },
            None => true,
        };
        let by_session = match session {
            Some((id, origin)) => *id == e.session_id && match (origin, &e.source) {
                (Some(o), Some(t)) => *o == *t,
                (None, None) => true,
                _ => false,
            },
            None => true,
        };
        let ghost before = out@.map_values(|x: usize| x as int);
        if by_source && by_session && matches_query(e, query) {
            out.push(i);
            assert(out@.map_values(|x: usize| x as int) =~= before.push(i as int));
        }
        i = i + 1;
    }
    out
}

/// How many of the first `n` records equal `e`.
pub open spec fn count_equal(es: Seq<EntryView>, e: EntryView, n: int) -> nat
    decreases n,
{
    if n <= 0 {
        0
    } else {
        count_equal(es, e, n - 1) + if es[n - 1] == e {
            1nat
        } else {
            0nat
        }
    }
}

/// The position, from `from` on, of the record equal to `e` that has `n`
/// equal records before it.
pub open spec fn nth_equal_at(es: Seq<EntryView>, e: EntryView, n: nat, from: int) -> Option<int>
    decreases es.len() - from,
{
    if from < 0 || from >= es.len() {
        None
    } else if es[from] == e && count_equal(es, e, from) == n {
        Some(from)
    } else {
        nth_equal_at(es, e, n, from + 1)
    }
}

/// Whether two texts are equal.
fn same_string(a: &String, b: &String) -> (r: bool)
    ensures
        r == (a@ == b@),
{
    *a == *b
}

/// Whether two optional texts are equal.
fn same_opt(a: &Option<String>, b: &Option<String>) -> (r: bool)
    ensures
        r == (opt_text(*a) == opt_text(*b)),
{
    match (a, b) {
        (Some(x), Some(y)) => *x == *y,
        (None, None) => true,
        _ => false,
    }
}

/// Whether two lists of texts are equal.
fn same_strings(a: &Vec<String>, b: &Vec<String>) -> (r: bool)
    ensures
        r == (crate::history::strings(a@) == crate::history::strings(b@)),
{
    if a.len() != b.len() {
        assert(crate::history::strings(a@).len() != crate::history::strings(b@).len());
        return false;
    }
    let mut i: usize = 0;
    while i < a.len()
        invariant
            i <= a.len(),
            a.len() == b.len(),
            forall|k: int| 0 <= k < i ==> #[trigger] a@[k]@ == b@[k]@,
        decreases a.len() - i,
    {
        if a[i] != b[i] {
            assert(crate::history::strings(a@)[i as int] != crate::history::strings(b@)[i as int]);
            return false;
        }
        i = i + 1;
    }
    assert(crate::history::strings(a@) =~= crate::history::strings(b@));
    true
}

/// Whether two records are equal in every field.
pub fn same_entry(a: &Entry, b: &Entry) -> (r: bool)
    ensures
        r == (a@ == b@),
{
    let same_tool = match (&a.tool, &b.tool) {
        (Some(x), Some(y)) => same_string(&x.summary, &y.summary) && x.failed == y.failed && match (
            &x.command,
            &y.command,
        ) {
            (Some(crate::history::RecordedCommand::Shell(p)), Some(
                crate::history::RecordedCommand::Shell(q),
            )) => same_string(p, q),
            (Some(crate::history::RecordedCommand::Arguments(p)), Some(
                crate::history::RecordedCommand::Arguments(q),
            )) => same_strings(p, q),
            (None, None) => true,
            _ => false,
        },
        (None, None) => true,
        _ => false,
    };
    same_tool && same_opt(&a.source, &b.source) && same_string(&a.session_id, &b.session_id) && a.ts
        == b.ts && same_string(&a.text, &b.text)
}

/// How many records before `index` equal record `index`.
pub fn occurrence(entries: &Vec<Entry>, index: usize) -> (r: usize)
    requires
        index < entries.len(),
    ensures
        r == count_equal(entry_views(entries@), entries@[index as int]@, index as int),
{
    let ghost es = entry_views(entries@);
    let mut c: usize = 0;
    let mut i: usize = 0;
    while i < index
        invariant
            i <= index < entries.len(),
            es == entry_views(entries@),
            c == count_equal(es, entries@[index as int]@, i as int),
            c <= i,
        decreases index - i,
    {
        if same_entry(&entries[i], &entries[index]) {
            c = c + 1;
        }
        i = i + 1;
    }
    c
}

/// Where the record equal to `entry` with `n` equal records before it is.
pub fn nth_equal(entries: &Vec<Entry>, entry: &Entry, n: usize) -> (r: Option<usize>)
    ensures
        match r {
            Some(k) => nth_equal_at(entry_views(entries@), entry@, n as nat, 0) == Some(k as int),
            None => nth_equal_at(entry_views(entries@), entry@, n as nat, 0) is None,
        },
{
    let ghost es = entry_views(entries@);
    let mut c: usize = 0;
    let mut i: usize = 0;
    while i < entries.len()
        invariant
            i <= entries.len(),
            es == entry_views(entries@),
            c == count_equal(es, entry@, i as int),
            c <= i,
            nth_equal_at(es, entry@, n as nat, 0) == nth_equal_at(es, entry@, n as nat, i as int),
        decreases entries.len() - i,
    {
        if same_entry(&entries[i], entry) {
            if c == n {
                return Some(i);
            }
            c = c + 1;
        }
        i = i + 1;
    }
    None
}

proof fn lemma_count_equal_grows(es: Seq<EntryView>, e: EntryView, a: int, b: int)
    requires
        0 <= a < b <= es.len(),
        es[a] == e,
    ensures
        count_equal(es, e, b) >= count_equal(es, e, a) + 1,
    decreases b - a,
{
    if b > a + 1 {
        lemma_count_equal_grows(es, e, a, b - 1);
    }
}

proof fn lemma_nth_equal_from(es: Seq<EntryView>, i: int, from: int)
    requires
        0 <= from <= i < es.len(),
    ensures
        nth_equal_at(es, es[i], count_equal(es, es[i], i), from) == Some(i),
    decreases i - from,
{
    if from < i {
        if es[from] == es[i] && count_equal(es, es[i], from) == count_equal(es, es[i], i) {
            lemma_count_equal_grows(es, es[i], from, i);
        }
        lemma_nth_equal_from(es, i, from + 1);
    }
}

/// Law: a record is found again by its contents and its occurrence among
/// equal records, so a reload that keeps the records keeps the selection.
pub proof fn lemma_occurrence_finds_the_record(es: Seq<EntryView>, i: int)
    requires
        0 <= i < es.len(),
    ensures
        nth_equal_at(es, es[i], count_equal(es, es[i], i), 0) == Some(i),
{
    lemma_nth_equal_from(es, i, 0);
}

/// The first position at or after `from` where `rows` holds `x`.
pub open spec fn position_of(rows: Seq<usize>, x: int, from: int) -> Option<int>
    decreases rows.len() - from,
{
    if from < 0 || from >= rows.len() {
        None
    } else if rows[from] == x {
        Some(from)
    } else {
        position_of(rows, x, from + 1)
    }
}

proof fn lemma_position_of_bounds(rows: Seq<usize>, x: int, from: int)
    requires
        0 <= from,
    ensures
        match position_of(rows, x, from) {
            Some(p) => from <= p < rows.len() && rows[p] == x,
            None => forall|q: int| from <= q < rows.len() ==> rows[q] != x,
        },
    decreases rows.len() - from,
{
    if from < rows.len() && rows[from] != x {
        lemma_position_of_bounds(rows, x, from + 1);
    }
}

/// The first position where `rows` holds `x`.
pub fn position(rows: &Vec<usize>, x: usize) -> (r: Option<usize>)
    ensures
        match r {
            Some(p) => position_of(rows@, x as int, 0) == Some(p as int) && p < rows.len(),
            None => position_of(rows@, x as int, 0) is None,
        },
{
    let mut p: usize = 0;
    while p < rows.len()
        invariant
            p <= rows.len(),
            position_of(rows@, x as int, 0) == position_of(rows@, x as int, p as int),
        decreases rows.len() - p,
    {
        if rows[p] == x {
            return Some(p);
        }
        p = p + 1;
    }
    None
}

/// The list row that shows record `index`: its own row, or else the header
/// row (numbered `len + first`) of the group that folds it.
pub open spec fn row_of(rows: Seq<usize>, groups: Seq<(usize, usize)>, len: int, index: int) -> Option<
    int,
> {
    match position_of(rows, index, 0) {
        Some(p) => Some(p),
        None => if index < len {
            match group_containing(ranges_view(groups), index, 0) {
                Some(g) => position_of(rows, len + groups[g].0, 0),
                None => None,
            }
        } else {
            None
        },
    }
}

/// Finds the list row that shows record `index`.
pub fn visible_position(rows: &Vec<usize>, groups: &Vec<(usize, usize)>, len: usize, index: usize) -> (r:
    Option<usize>)
    ensures
        r matches Some(p) ==> p < rows.len(),
        match r {
            Some(p) => row_of(rows@, groups@, len as int, index as int) == Some(p as int),
            None => row_of(rows@, groups@, len as int, index as int) is None,
        },
{
    if let Some(p) = position(rows, index) {
        return Some(p);
    }
    if index >= len {
        return None;
    }
    match group_of(groups, index) {
        Some(g) => {
            assert(ranges_view(groups@)[g as int].0 == groups@[g as int].0);
            match len.checked_add(groups[g].0) {
                Some(header) => position(rows, header),
                None => {
                    proof {
                        lemma_position_of_bounds(rows@, len + groups@[g as int].0, 0);
                    }
                    None
                },
            }
        },
        None => None,
    }
}

/// Where the selection goes after the rows change: `(row, kept)`. The row
/// that shows the selected record when there is one (`kept`); otherwise the
/// old position, moved up to the last row, and none when no rows are left.
pub open spec fn restored(
    rows: Seq<usize>,
    groups: Seq<(usize, usize)>,
    len: int,
    selected: Option<usize>,
    old_position: int,
) -> (Option<int>, bool) {
    let found = match selected {
        Some(i) => row_of(rows, groups, len, i as int),
        None => None,
    };
    match found {
        Some(p) => (Some(p), true),
        None => if rows.len() == 0 {
            (None, false)
        } else if old_position < rows.len() - 1 {
            (Some(old_position), false)
        } else {
            (Some(rows.len() - 1), false)
        },
    }
}

/// Chooses the selected row after the rows were rebuilt.
pub fn restore_position(
    rows: &Vec<usize>,
    groups: &Vec<(usize, usize)>,
    len: usize,
    selected: Option<usize>,
    old_position: usize,
) -> (r: (Option<usize>, bool))
    ensures
        (match r.0 {
            Some(p) => Some(p as int),
            None => None,
        }, r.1) == restored(rows@, groups@, len as int, selected, old_position as int),
        r.0 matches Some(p) ==> p < rows.len(),
{
    let found = match selected {
        Some(i) => visible_position(rows, groups, len, i),
        None => None,
    };
    match found {
        Some(p) => (Some(p), true),
        None => if rows.len() == 0 {
            (None, false)
        } else if old_position < rows.len() - 1 {
            (Some(old_position), false)
        } else {
            (Some(rows.len() - 1), false)
        },
    }
}

/// Law: filtering and sorting keep the current record selected when it is
/// still listed.
pub proof fn lemma_selection_kept(
    rows: Seq<usize>,
    groups: Seq<(usize, usize)>,
    len: int,
    index: usize,
    old_position: int,
    at: int,
)
    requires
        0 <= at < rows.len(),
        rows[at] == index,
    ensures
        restored(rows, groups, len, Some(index), old_position).1,
        restored(rows, groups, len, Some(index), old_position).0 matches Some(p) && 0 <= p
            < rows.len() && rows[p] == index,
{
    lemma_position_of_bounds(rows, index as int, 0);
}

/// Law: a selected record folded into a collapsed group keeps its group's
/// header row selected when that header is listed.
pub proof fn lemma_folded_selection_kept(
    rows: Seq<usize>,
    groups: Seq<(usize, usize)>,
    len: int,
    index: usize,
    old_position: int,
    g: int,
    at: int,
)
    requires
        index < len,
        forall|q: int| 0 <= q < rows.len() ==> rows[q] != index,
        group_containing(ranges_view(groups), index as int, 0) == Some(g),
        0 <= at < rows.len(),
        rows[at] == len + groups[g].0,
    ensures
        restored(rows, groups, len, Some(index), old_position).1,
        restored(rows, groups, len, Some(index), old_position).0 matches Some(p) && 0 <= p
            < rows.len() && rows[p] == len + groups[g].0,
{
    lemma_position_of_bounds(rows, index as int, 0);
    lemma_position_of_bounds(rows, len + groups[g].0, 0);
}

/// The indices, in order, of the first `n` records equal to one of `wanted`.
pub open spec fn equal_to_any(es: Seq<EntryView>, wanted: Seq<EntryView>, n: int) -> Seq<int>
    decreases n,
{
    if n <= 0 {
        Seq::empty()
    } else {
        let before = equal_to_any(es, wanted, n - 1);
        if wanted.contains(es[n - 1]) {
            before.push(n - 1)
        } else {
            before
        }
    }
}

/// The indices of the records equal to one of `wanted`: where remembered
/// records (expanded tools, expanded groups) are after a reload.
pub fn equal_records(entries: &Vec<Entry>, wanted: &Vec<Entry>) -> (r: Vec<usize>)
    ensures
        r@.map_values(|x: usize| x as int) == equal_to_any(
            entry_views(entries@),
            entry_views(wanted@),
            entries@.len() as int,
        ),
{
    let ghost es = entry_views(entries@);
    let ghost ws = entry_views(wanted@);
    let mut out: Vec<usize> = Vec::new();
    let mut i: usize = 0;
    while i < entries.len()
        invariant
            i <= entries.len(),
            es == entry_views(entries@),
            ws == entry_views(wanted@),
            out@.map_values(|x: usize| x as int) == equal_to_any(es, ws, i as int),
        decreases entries.len() - i,
    {
        let mut found = false;
        let mut j: usize = 0;
        while j < wanted.len()
            invariant
                j <= wanted.len(),
                i < entries.len(),
                es == entry_views(entries@),
                ws == entry_views(wanted@),
                found == exists|m: int| 0 <= m < j && ws[m] == es[i as int],
            decreases wanted.len() - j,
        {
            assert(ws[j as int] == wanted@[j as int]@ && es[i as int] == entries@[i as int]@);
            if same_entry(&wanted[j], &entries[i]) {
                found = true;
            }
            j = j + 1;
        }
        assert(found == ws.contains(es[i as int]));
        let ghost before = out@.map_values(|x: usize| x as int);
        if found {
            out.push(i);
            assert(out@.map_values(|x: usize| x as int) =~= before.push(i as int));
        }
        i = i + 1;
    }
    out
}

/// Law: a remembered record that is still present after a reload is found
/// again, wherever it moved.
pub proof fn lemma_remembered_record_found(es: Seq<EntryView>, wanted: Seq<EntryView>, i: int)
    requires
        0 <= i < es.len(),
        wanted.contains(es[i]),
    ensures
        equal_to_any(es, wanted, es.len() as int).contains(i),
{
    lemma_equal_to_any_keeps(es, wanted, i, es.len() as int);
}

proof fn lemma_equal_to_any_keeps(es: Seq<EntryView>, wanted: Seq<EntryView>, i: int, n: int)
    requires
        0 <= i < n <= es.len(),
        wanted.contains(es[i]),
    ensures
        equal_to_any(es, wanted, n).contains(i),
    decreases n,
{
    if n - 1 == i {
        assert(equal_to_any(es, wanted, n).last() == i);
    } else {
        lemma_equal_to_any_keeps(es, wanted, i, n - 1);
        let before = equal_to_any(es, wanted, n - 1);
        let k = choose|k: int| 0 <= k < before.len() && before[k] == i;
        if wanted.contains(es[n - 1]) {
            assert(before.push(n - 1)[k] == i);
        }
    }
}

/// How many of the first `n` records carry mark `m`.
pub open spec fn count_marked(es: Seq<EntryView>, m: RecordMark, n: int) -> nat
    decreases n,
{
    if n <= 0 {
        0
    } else {
        count_marked(es, m, n - 1) + if marks(m, es[n - 1]) {
            1nat
        } else {
            0nat
        }
    }
}

/// The position, from `from` on, of the record with mark `m` that has `n`
/// such records before it.
pub open spec fn nth_marked_at(es: Seq<EntryView>, m: RecordMark, n: nat, from: int) -> Option<int>
    decreases es.len() - from,
{
    if from < 0 || from >= es.len() {
        None
    } else if marks(m, es[from]) && count_marked(es, m, from) == n {
        Some(from)
    } else {
        nth_marked_at(es, m, n, from + 1)
    }
}

/// How many records before `index` carry mark `m`: with the mark, where a
/// search started, so that cancelling it finds the same record again.
pub fn marked_before(entries: &Vec<Entry>, m: &RecordMark, index: usize) -> (r: usize)
    requires
        index <= entries.len(),
    ensures
        r == count_marked(entry_views(entries@), *m, index as int),
{
    let ghost es = entry_views(entries@);
    let mut c: usize = 0;
    let mut i: usize = 0;
    while i < index
        invariant
            i <= index <= entries.len(),
            es == entry_views(entries@),
            c == count_marked(es, *m, i as int),
            c <= i,
        decreases index - i,
    {
        if m.matches(&entries[i]) {
            c = c + 1;
        }
        i = i + 1;
    }
    c
}

/// Where the record with mark `m` that has `n` such records before it is.
pub fn nth_marked(entries: &Vec<Entry>, m: &RecordMark, n: usize) -> (r: Option<usize>)
    ensures
        match r {
            Some(k) => nth_marked_at(entry_views(entries@), *m, n as nat, 0) == Some(k as int),
            None => nth_marked_at(entry_views(entries@), *m, n as nat, 0) is None,
        },
{
    let ghost es = entry_views(entries@);
    let mut c: usize = 0;
    let mut i: usize = 0;
    while i < entries.len()
        invariant
            i <= entries.len(),
            es == entry_views(entries@),
            c == count_marked(es, *m, i as int),
            c <= i,
            nth_marked_at(es, *m, n as nat, 0) == nth_marked_at(es, *m, n as nat, i as int),
        decreases entries.len() - i,
    {
        if m.matches(&entries[i]) {
            if c == n {
                return Some(i);
            }
            c = c + 1;
        }
        i = i + 1;
    }
    None
}

proof fn lemma_count_marked_grows(es: Seq<EntryView>, m: RecordMark, a: int, b: int)
    requires
        0 <= a < b <= es.len(),
        marks(m, es[a]),
    ensures
        count_marked(es, m, b) >= count_marked(es, m, a) + 1,
    decreases b - a,
{
    if b > a + 1 {
        lemma_count_marked_grows(es, m, a, b - 1);
    }
}

proof fn lemma_nth_marked_from(es: Seq<EntryView>, m: RecordMark, i: int, from: int)
    requires
        0 <= from <= i < es.len(),
        marks(m, es[i]),
    ensures
        nth_marked_at(es, m, count_marked(es, m, i), from) == Some(i),
    decreases i - from,
{
    if from < i {
        if marks(m, es[from]) && count_marked(es, m, from) == count_marked(es, m, i) {
            lemma_count_marked_grows(es, m, from, i);
        }
        lemma_nth_marked_from(es, m, i, from + 1);
    }
}

/// Law: a search that is cancelled finds the record it started on again by
/// its mark and the number of records with the same mark before it.
pub proof fn lemma_mark_finds_the_record(es: Seq<EntryView>, m: RecordMark, i: int)
    requires
        0 <= i < es.len(),
        marks(m, es[i]),
    ensures
        nth_marked_at(es, m, count_marked(es, m, i), 0) == Some(i),
{
    lemma_nth_marked_from(es, m, i, 0);
}

/// `position` moved by `delta`, stopping at 0 and at `last`.
pub open spec fn stepped(position: int, delta: int, last: int) -> int {
    let moved = position + delta;
    if moved < 0 {
        0
    } else if moved > last {
        last
    } else {
        moved
    }
}

/// Moves `position` by `delta` within `0 ..= last`: how the list selection,
/// the details scroll and the chart cursor move.
pub fn step_within(position: usize, delta: isize, last: usize) -> (r: usize)
    ensures
        r == stepped(position as int, delta as int, last as int),
{
    let moved: usize = if delta < 0 {
        let back = (0 - (delta as i128)) as u128;
        if back >= position as u128 {
            0
        } else {
            position - back as usize
        }
    } else {
        position.saturating_add(delta as usize)
    };
    if moved > last {
        last
    } else {
        moved
    }
}

/// Law: a step never leaves `0 ..= last`, and a step of zero keeps a
/// position that is within it.
pub proof fn lemma_step_stays_within(position: int, delta: int, last: int)
    requires
        0 <= last,
    ensures
        0 <= stepped(position, delta, last) <= last,
        0 <= position <= last ==> stepped(position, 0, last) == position,
{
}

/// The list's selected row and first shown row, as a terminal list widget
/// keeps them (`ratatui::widgets::ListState`).
#[derive(Clone, Copy, Debug, PartialEq, Eq, Structural)]
pub struct ListPosition {
    pub selected: Option<usize>,
    pub offset: usize,
}

impl Default for ListPosition {
    fn default() -> (r: Self)
        ensures
            r.selected is None,
            r.offset == 0,
    {
        ListPosition { selected: None, offset: 0 }
    }
}

impl ListPosition {
    /// The selected row.
    pub fn selected(&self) -> (r: Option<usize>)
        ensures
            r == self.selected,
    {
        self.selected
    }

    /// The first shown row.
    pub fn offset(&self) -> (r: usize)
        ensures
            r == self.offset,
    {
        self.offset
    }

    /// Selects row `index`; selecting none also goes back to the top.
    pub fn select(&mut self, index: Option<usize>)
        ensures
            final(self).selected == index,
            final(self).offset == if index is None {
                0
            } else {
                old(self).offset
            },
    {
        self.selected = index;
        if index.is_none() {
            self.offset = 0;
        }
    }
}

/// `a - b`, or 0 where `b` is larger.
pub open spec fn less(a: int, b: int) -> int {
    if a > b {
        a - b
    } else {
        0
    }
}

/// The session filter of a browser: the session ID with the source it
/// came from.
pub open spec fn session_filter(session: Option<String>, origin: Option<String>) -> Option<
    (Seq<char>, Option<Seq<char>>),
> {
    match session {
        Some(id) => Some((id@, opt_text(origin))),
        None => None,
    }
}

/// The first `n` of the matched records `ms` that fall on `date` (all of
/// them without a date), `days` giving each one's local day.
pub open spec fn on_date(ms: Seq<int>, days: Seq<Option<i64>>, date: Option<i64>, n: int) -> Seq<int>
    decreases n,
{
    if n <= 0 {
        Seq::empty()
    } else {
        let before = on_date(ms, days, date, n - 1);
        if date is None || days[n - 1] == date {
            before.push(ms[n - 1])
        } else {
            before
        }
    }
}

/// Records in display order: newest first, or reversed.
pub open spec fn in_order(s: Seq<int>, oldest_first: bool) -> Seq<int> {
    if oldest_first {
        s.reverse()
    } else {
        s
    }
}

/// Indices as `usize`.
pub open spec fn as_indices(s: Seq<int>) -> Seq<usize> {
    s.map_values(|x: int| x as usize)
}

/// The first day of the chart for `window` ending `today`.
pub open spec fn chart_first(counts: Seq<(i64, u64)>, window: Window, today: i64) -> int {
    match window {
        Window::Week => window_start(today, 7) as int,
        Window::Month => window_start(today, 30) as int,
        Window::All => if counts.len() > 0 && counts[0].0 < today {
            counts[0].0 as int
        } else {
            today as int
        },
    }
}

/// `x` kept within `lo ..= hi`.
pub open spec fn clamped(x: int, lo: int, hi: int) -> int {
    if x < lo {
        lo
    } else if x > hi {
        hi
    } else {
        x
    }
}

/// A search's starting point, to return to when the search is cancelled.
pub struct SearchBookmark {
    pub query: String,
    pub mark: Option<RecordMark>,
    pub occurrence: usize,
    pub group: bool,
    pub row: usize,
    pub scroll: usize,
    pub focus: Focus,
    pub activity_cursor: i64,
}

/// The browser: the records and which are listed, the list, search and
/// filters, the activity chart, folding of tool records, and the session
/// timeline opened over the prompt history. Days are counted from the
/// common era.
pub struct App {
    pub history: History,
    pub visible: Vec<usize>,
    pub list: ListPosition,
    pub query: String,
    pub searching: bool,
    pub find: Find,
    pub detail_revision: u64,
    pub search: Editor,
    pub search_bookmark: Option<SearchBookmark>,
    pub session: Option<String>,
    pub session_origin: Option<String>,
    pub source_filter: Option<String>,
    pub focus: Focus,
    pub detail_page_size: usize,
    pub detail_max_scroll: usize,
    pub matched_count: usize,
    pub activity: Activity,
    pub activity_window: Window,
    pub activity_cursor: i64,
    pub date_filter: Option<i64>,
    pub selection_anchor: Option<(usize, usize)>,
    pub oldest_first: bool,
    pub scroll: usize,
    pub help: bool,
    pub help_scroll: usize,
    pub help_max_scroll: usize,
    pub help_page: usize,
    pub status: String,
    pub loading: bool,
    pub transcript: Option<Box<App>>,
    pub session_source: Option<String>,
    pub session_info: String,
    pub session_id: Option<String>,
    pub expanded_tools: Vec<usize>,
    pub expanded_groups: Vec<usize>,
    pub groups: Vec<(usize, usize)>,
}

/// The records that pass the browser's source, session and search filters.
pub open spec fn app_matches(a: App) -> Seq<int> {
    passing(
        entry_views(a.history.entries@),
        opt_text(a.source_filter),
        session_filter(a.session, a.session_origin),
        lowercase(a.query@),
        a.history.entries.len() as int,
    )
}

/// The record on the selected row, if the row lists one.
pub open spec fn selected_row(a: App) -> Option<usize> {
    match a.list.selected {
        Some(i) => if i < a.visible.len() {
            Some(a.visible@[i as int])
        } else {
            None
        },
        None => None,
    }
}

/// The matches of `a` on its chosen date (all of them without one),
/// `days` giving each match's local day.
pub open spec fn dated_of(a: App, days: Seq<Option<i64>>) -> Seq<int> {
    let ms = app_matches(a);
    on_date(ms, days, a.date_filter, ms.len() as int)
}

/// The groups of tool records of `a`: in a session timeline only.
pub open spec fn runs_of(a: App) -> Seq<(int, int)> {
    if a.session_source is Some {
        tool_runs(entry_views(a.history.entries@))
    } else {
        Seq::empty()
    }
}

/// Whether `a` folds tool records into groups: in a session timeline
/// without a search (and with group rows numbered within `usize`).
pub open spec fn folding(a: App) -> bool {
    &&& a.session_source is Some
    &&& a.query@.len() == 0
    &&& a.history.entries.len() + a.history.entries.len() <= usize::MAX
}

/// The rows listed for `a`: its dated matches in display order, folded
/// into groups where `a` folds.
pub open spec fn listed_rows(a: App, days: Seq<Option<i64>>) -> Seq<int> {
    let ordered = in_order(dated_of(a, days), a.oldest_first);
    if folding(a) {
        grouped_rows(
            as_indices(ordered),
            runs_of(a),
            a.expanded_groups@,
            a.history.entries.len() as int,
            ordered.len() as int,
        )
    } else {
        ordered
    }
}

/// The record that `a` keeps selected: the selected row's record, or else
/// the one last selected.
pub open spec fn kept_record(a: App) -> Option<usize> {
    match selected_row(a) {
        Some(x) => Some(x),
        None => match a.selection_anchor {
            Some(p) => Some(p.0),
            None => None,
        },
    }
}

/// The selected row of `a`, or 0.
pub open spec fn selected_or_top(a: App) -> int {
    match a.list.selected {
        Some(p) => p as int,
        None => 0,
    }
}

/// The detail scroll that goes with the kept record.
pub open spec fn kept_scroll(a: App) -> usize {
    if selected_row(a) is Some {
        a.scroll
    } else {
        match a.selection_anchor {
            Some(p) => p.1,
            None => a.scroll,
        }
    }
}

/// Whether `a` lists its prompt history with no filter: no search,
/// session, date or source.
pub open spec fn unfiltered(a: App) -> bool {
    &&& a.query@.len() == 0
    &&& a.session is None
    &&& a.date_filter is None
    &&& a.source_filter is None
    &&& a.session_source is None
}

/// The first `n` record indices, in order.
pub open spec fn every_record(n: int) -> Seq<int> {
    Seq::new(n as nat, |i: int| i)
}

proof fn lemma_all_pass(es: Seq<EntryView>, query: Seq<char>, n: int)
    requires
        query.len() == 0,
        0 <= n,
    ensures
        passing(es, None, None, query, n) == every_record(n),
    decreases n,
{
    if n > 0 {
        lemma_all_pass(es, query, n - 1);
        assert(passes(es[n - 1], None, None, query));
        assert(every_record(n - 1).push(n - 1) =~= every_record(n));
    } else {
        assert(every_record(n) =~= Seq::<int>::empty());
    }
}

proof fn lemma_on_date_all(ms: Seq<int>, days: Seq<Option<i64>>, n: int)
    requires
        0 <= n <= ms.len(),
    ensures
        on_date(ms, days, None, n) == ms.take(n),
    decreases n,
{
    if n > 0 {
        lemma_on_date_all(ms, days, n - 1);
        assert(ms.take(n - 1).push(ms[n - 1]) =~= ms.take(n));
    } else {
        assert(ms.take(0) =~= Seq::<int>::empty());
    }
}

/// `b` is `a` with its rows filtered again: the records that pass the
/// filters, on the chosen date, in display order, with tool records folded
/// into groups in a timeline without a search; the activity chart counts
/// the matches by day; and the selection stays on its record when it is
/// still listed, on the same screen row. `days` are the local days of the
/// matches and `today` the local day, both from the machine.
pub open spec fn filtered_with(a: App, b: App, days: Seq<Option<i64>>, today: i64) -> bool {
    let row = less(selected_or_top(a), a.list.offset as int);
    let (pos, kept) = restored(
        b.visible@,
        b.groups@,
        a.history.entries.len() as int,
        kept_record(a),
        selected_or_top(a),
    );
    &&& days.len() == app_matches(a).len()
    &&& forall|k: int|
        0 <= k < days.len() ==> local_day_of(a.history.entries@[app_matches(a)[k]].ts, #[trigger] days[k])
    &&& ranges_view(b.groups@) == runs_of(a)
    &&& b.visible@.map_values(|x: usize| x as int) == listed_rows(a, days)
    &&& b.activity.wf()
    &&& if a.session_source is None {
        tallied(days, b.activity.counts@)
    } else {
        b.activity.counts@.len() == 0
    }
    &&& b.activity_cursor == clamped(
        a.activity_cursor as int,
        chart_first(b.activity.counts@, a.activity_window, today),
        today as int,
    )
    &&& b.matched_count == dated_of(a, days).len()
    &&& b.list.selected == match pos {
        Some(p) => Some(p as usize),
        None => None::<usize>,
    }
    &&& b.list.offset == less(
        match pos {
            Some(p) => p,
            None => 0,
        },
        row,
    )
    &&& b.scroll == if kept {
        kept_scroll(a)
    } else {
        0
    }
    &&& b.selection_anchor == match pos {
        Some(p) => Some((b.visible@[p], b.scroll)),
        None => match kept_record(a) {
            Some(i) => Some((i, kept_scroll(a))),
            None => a.selection_anchor,
        },
    }
    &&& b == App {
        visible: b.visible,
        activity: b.activity,
        activity_cursor: b.activity_cursor,
        matched_count: b.matched_count,
        groups: b.groups,
        list: b.list,
        scroll: b.scroll,
        selection_anchor: b.selection_anchor,
        ..a
    }
}

/// `b` is `a` filtered again, whatever the machine's days.
pub open spec fn filtered(a: App, b: App) -> bool {
    exists|days: Seq<Option<i64>>, today: i64| #[trigger] filtered_with(a, b, days, today)
}

/// The matches on the chosen date.
fn dated_matches(matches: &Vec<usize>, days: &Vec<Option<i64>>, date: Option<i64>) -> (r: Vec<usize>)
    requires
        days.len() == matches.len(),
    ensures
        r@.map_values(|x: usize| x as int) == on_date(
            matches@.map_values(|x: usize| x as int),
            days@,
            date,
            matches.len() as int,
        ),
{
    let ghost ms = matches@.map_values(|x: usize| x as int);
    let mut out: Vec<usize> = Vec::new();
    let mut k: usize = 0;
    while k < matches.len()
        invariant
            k <= matches.len(),
            days.len() == matches.len(),
            ms == matches@.map_values(|x: usize| x as int),
            out@.map_values(|x: usize| x as int) == on_date(ms, days@, date, k as int),
        decreases matches.len() - k,
    {
        let ghost before = out@.map_values(|x: usize| x as int);
        let keep = match date {
            None => true,
            Some(d) => match days[k] {
                Some(e) => e == d,
                None => false,
            },
        };
        if keep {
            out.push(matches[k]);
            assert(out@.map_values(|x: usize| x as int) =~= before.push(ms[k as int]));
        }
        k = k + 1;
    }
    out
}

/// The rows in reverse order.
fn reversed(v: &Vec<usize>) -> (r: Vec<usize>)
    ensures
        r@.map_values(|x: usize| x as int) == v@.map_values(|x: usize| x as int).reverse(),
{
    let mut out: Vec<usize> = Vec::new();
    let mut k: usize = v.len();
    while k > 0
        invariant
            k <= v.len(),
            out@.len() == v.len() - k,
            forall|j: int| 0 <= j < out@.len() ==> #[trigger] out@[j] == v@[v.len() - 1 - j],
        decreases k,
    {
        k = k - 1;
        out.push(v[k]);
    }
    assert(out@.map_values(|x: usize| x as int) =~= v@.map_values(|x: usize| x as int).reverse());
    out
}

/// Today's local day, for the chart (kept above the least day the chart
/// can reach back from).
fn chart_today() -> (r: i64)
    ensures
        r >= i64::MIN + 29,
{
    let now = today();
    if now < i64::MIN + 29 {
        i64::MIN + 29
    } else {
        now
    }
}

/// The local day of each matched record.
fn match_days(entries: &Vec<Entry>, matches: &Vec<usize>) -> (r: Vec<Option<i64>>)
    ensures
        r.len() == matches.len(),
        forall|k: int|
            0 <= k < matches.len() && matches@[k] < entries.len() ==> local_day_of(
                entries@[matches@[k] as int].ts,
                #[trigger] r@[k],
            ),
{
    let mut days: Vec<Option<i64>> = Vec::new();
    let mut k: usize = 0;
    while k < matches.len()
        invariant
            k <= matches.len(),
            days@.len() == k,
            forall|j: int|
                0 <= j < k && matches@[j] < entries.len() ==> local_day_of(
                    entries@[matches@[j] as int].ts,
                    #[trigger] days@[j],
                ),
        decreases matches.len() - k,
    {
        let i = matches[k];
        let day = if i < entries.len() {
            local_date(entries[i].ts)
        } else {
            None
        };
        days.push(day);
        k = k + 1;
    }
    days
}

impl App {
    /// The rows, the tool groups and the number of dated matches, for the
    /// matches `matches` on the local days `days`.
    pub fn listing(&self, matches: &Vec<usize>, days: &Vec<Option<i64>>) -> (r: (
        Vec<usize>,
        Vec<(usize, usize)>,
        usize,
    ))
        requires
            matches@.map_values(|x: usize| x as int) == app_matches(*self),
            days.len() == matches.len(),
        ensures
            r.0@.map_values(|x: usize| x as int) == listed_rows(*self, days@),
            ranges_view(r.1@) == runs_of(*self),
            r.2 == dated_of(*self, days@).len(),
    {
        let ghost a = *self;
        let len = self.history.entries.len();
        let dated = dated_matches(matches, days, self.date_filter);
        let ghost dv = dated@.map_values(|x: usize| x as int);
        let count = dated.len();
        let ordered = if self.oldest_first {
            reversed(&dated)
        } else {
            dated
        };
        assert(ordered@.map_values(|x: usize| x as int) == in_order(dv, a.oldest_first));
        let groups = if self.session_source.is_some() {
            tool_groups(&self.history.entries)
        } else {
            Vec::new()
        };
        assert(ranges_view(groups@) =~= runs_of(a));
        let grouping = self.session_source.is_some() && self.query.as_str().is_empty() && len
            <= usize::MAX - len;
        let rows = if grouping {
            proof {
                lemma_runs_start_before(entry_views(a.history.entries@));
                assert forall|g: int| 0 <= g < groups.len() implies #[trigger] groups@[g].0 < len by {
                    assert(ranges_view(groups@)[g].0 == groups@[g].0 as int);
                }
                assert(as_indices(in_order(dv, a.oldest_first)) =~= ordered@);
            }
            group_rows(&ordered, &groups, &self.expanded_groups, len)
        } else {
            ordered
        };
        (rows, groups, count)
    }

    /// Lists the records again after the records, filters, order or
    /// folding changed, keeping the selected record selected where it is
    /// still listed (or its group's row, where it is folded).
    pub fn filter(&mut self)
        ensures
            filtered(*old(self), *final(self)),
            unfiltered(*old(self)) ==> final(self).visible@.map_values(|x: usize| x as int) == in_order(
                every_record(old(self).history.entries.len() as int),
                old(self).oldest_first,
            ),
    {
        let ghost a = *self;
        let len = self.history.entries.len();
        let current: Option<usize> = match self.list.selected {
            Some(i) => if i < self.visible.len() {
                Some(self.visible[i])
            } else {
                None
            },
            None => None,
        };
        let selected = match current {
            Some(x) => Some(x),
            None => match self.selection_anchor {
                Some(p) => Some(p.0),
                None => None,
            },
        };
        let old_position = match self.list.selected {
            Some(p) => p,
            None => 0,
        };
        let row = old_position.saturating_sub(self.list.offset);
        let scroll = if current.is_some() {
            self.scroll
        } else {
            match self.selection_anchor {
                Some(p) => p.1,
                None => self.scroll,
            }
        };
        let query = to_lowercase(self.query.as_str());
        let session = match &self.session {
            Some(id) => Some((id, self.session_origin.as_ref())),
            None => None,
        };
        let matches = matching(&self.history.entries, self.source_filter.as_ref(), session, query.as_str());
        let days = match_days(&self.history.entries, &matches);
        proof {
            lemma_passing_pass(
                entry_views(a.history.entries@),
                opt_text(a.source_filter),
                session_filter(a.session, a.session_origin),
                lowercase(a.query@),
                a.history.entries.len() as int,
            );
            assert forall|k: int| 0 <= k < days.len() implies local_day_of(
                a.history.entries@[app_matches(a)[k]].ts,
                #[trigger] days@[k],
            ) by {
                assert(matches@.map_values(|x: usize| x as int)[k] == matches@[k] as int);
            }
        }
        let (rows, groups, count) = self.listing(&matches, &days);
        let activity = if self.session_source.is_none() {
            Activity::tally(&days)
        } else {
            Activity { counts: Vec::new() }
        };
        let now = chart_today();
        let (start, end) = activity.bounds(self.activity_window, now);
        let cursor = if self.activity_cursor < start {
            start
        } else if self.activity_cursor > end {
            end
        } else {
            self.activity_cursor
        };
        let (position, kept) = restore_position(&rows, &groups, len, selected, old_position);
        let first = match position {
            Some(p) => p,
            None => 0,
        };
        let new_scroll = if kept {
            scroll
        } else {
            0
        };
        let anchor = match position {
            Some(p) => Some((rows[p], new_scroll)),
            None => match selected {
                Some(index) => Some((index, scroll)),
                None => self.selection_anchor,
            },
        };
        self.activity = activity;
        self.activity_cursor = cursor;
        self.matched_count = count;
        self.visible = rows;
        self.groups = groups;
        self.list = ListPosition { selected: position, offset: first.saturating_sub(row) };
        self.scroll = new_scroll;
        self.selection_anchor = anchor;
        assert(filtered_with(a, *self, days@, now));
        proof {
            if unfiltered(a) {
                let n = a.history.entries.len() as int;
                lemma_all_pass(entry_views(a.history.entries@), lowercase(a.query@), n);
                lemma_on_date_all(app_matches(a), days@, app_matches(a).len() as int);
                assert(app_matches(a).take(app_matches(a).len() as int) =~= app_matches(a));
            }
        }
    }
}

/// The state of a browser just opened on `history`: nothing listed or
/// selected, no search or filter, newest first, the monthly chart.
pub open spec fn fresh(b: App, history: History) -> bool {
    &&& b.history == history
    &&& b.visible@.len() == 0
    &&& b.list == ListPosition { selected: None, offset: 0 }
    &&& b.query@.len() == 0
    &&& !b.searching
    &&& b.find.query@.len() == 0 && !b.find.editing && b.find.current is None && b.find.pending is None
    &&& b.find.saved is None && b.find.document is None && b.find.editor.recent().len() == 0
    &&& b.detail_revision == 0
    &&& b.search.recent().len() == 0 && b.search.caret() == 0 && b.search.draft().len() == 0
    &&& b.search_bookmark is None
    &&& b.session is None && b.session_origin is None && b.source_filter is None
    &&& b.focus == Focus::List
    &&& b.detail_page_size == 1 && b.detail_max_scroll == 0 && b.matched_count == 0
    &&& b.activity.counts@.len() == 0
    &&& b.activity_window == Window::Month
    &&& b.date_filter is None && b.selection_anchor is None && !b.oldest_first && b.scroll == 0
    &&& !b.help && b.help_scroll == 0 && b.help_max_scroll == 0 && b.help_page == 1
    &&& b.status@.len() == 0 && !b.loading && b.transcript is None
    &&& b.session_source is None && b.session_info@.len() == 0 && b.session_id is None
    &&& b.expanded_tools@.len() == 0 && b.expanded_groups@.len() == 0 && b.groups@.len() == 0
}

/// The record on the selected row of `a`, when the row lists a record
/// that exists.
pub open spec fn selected_record(a: App) -> Option<int> {
    match selected_row(a) {
        Some(i) => if i < a.history.entries.len() {
            Some(i as int)
        } else {
            None
        },
        None => None,
    }
}

/// The screen row of the selection of `a` (its distance from the first
/// shown row).
pub open spec fn screen_row(a: App) -> int {
    less(selected_or_top(a), a.list.offset as int)
}

/// `b` with row `p` selected on screen row `row` and the detail scroll
/// `scroll`, where there is such a row.
pub open spec fn placed(b: App, p: Option<int>, row: int, scroll: usize) -> App {
    match p {
        Some(p) => App {
            list: ListPosition { selected: Some(p as usize), offset: less(p, row) as usize },
            scroll,
            ..b
        },
        None => b,
    }
}

/// `a` with the list selection moved by `delta` rows (within the rows) and
/// the detail scrolled back to the top; unchanged without rows.
pub open spec fn selection_moved(a: App, delta: int) -> App {
    if a.visible.len() == 0 {
        a
    } else {
        App {
            list: ListPosition {
                selected: Some(stepped(selected_or_top(a), delta, a.visible.len() - 1) as usize),
                offset: a.list.offset,
            },
            scroll: 0,
            ..a
        }
    }
}

/// The chart cursor of `a` moved by `delta` days, within the chart ending
/// `today`.
pub open spec fn cursor_moved(a: App, delta: int, today: i64) -> int {
    let first = chart_first(a.activity.counts@, a.activity_window, today);
    let at = clamped(a.activity_cursor as int, first, today as int);
    first + stepped(at - first, delta, today - first)
}

/// `b` is `a` after moving by `delta` in the focused pane: the list
/// selection, the detail scroll (up to its end), or the chart cursor.
pub open spec fn navigated(a: App, b: App, delta: int) -> bool {
    match a.focus {
        Focus::List => b == selection_moved(a, delta),
        Focus::Detail => b == App {
            scroll: stepped(a.scroll as int, delta, a.detail_max_scroll as int) as usize,
            ..a
        },
        Focus::Activity => exists|today: i64|
            b == App { activity_cursor: #[trigger] cursor_moved(a, delta, today) as i64, ..a },
    }
}

/// The rows one page moves in the focused pane.
pub open spec fn page_size(a: App) -> int {
    match a.focus {
        Focus::Detail => if a.detail_page_size == 0 {
            1
        } else {
            a.detail_page_size as int
        },
        Focus::Activity => 7,
        Focus::List => 10,
    }
}

/// The other of the list and the details.
pub open spec fn other_pane(f: Focus) -> Focus {
    if f == Focus::List {
        Focus::Detail
    } else {
        Focus::List
    }
}

/// `a` showing the next chart window, its cursor kept within the chart
/// ending `today`.
pub open spec fn window_cycled(a: App, today: i64) -> App {
    let w = next_window(a.activity_window);
    App {
        activity_window: w,
        activity_cursor: clamped(
            a.activity_cursor as int,
            chart_first(a.activity.counts@, w, today),
            today as int,
        ) as i64,
        ..a
    }
}

/// `a` filtered to the day under its chart cursor.
pub open spec fn on_cursor_day(a: App) -> App {
    App { date_filter: Some(a.activity_cursor), ..a }
}

/// Whether `a` has a filter that Escape clears.
pub open spec fn has_filter(a: App) -> bool {
    a.query@.len() > 0 || a.session is Some || a.date_filter is Some || a.source_filter is Some
}

/// `b` is `a` with the first of its filters cleared, in the order search,
/// session, date, source.
pub open spec fn one_filter_cleared(a: App, b: App) -> bool {
    if a.query@.len() > 0 {
        b.query@.len() == 0 && b == App { query: b.query, ..a }
    } else if a.session is Some {
        b == App { session: None, session_origin: None, ..a }
    } else if a.date_filter is Some {
        b == App { date_filter: None, ..a }
    } else {
        b == App { source_filter: None, ..a }
    }
}

/// `a` with its session filter switched: off when on, else on the
/// selected record's session and source.
pub open spec fn session_switched(a: App) -> App {
    if a.session is Some {
        App { session: None, session_origin: None, ..a }
    } else {
        match selected_record(a) {
            Some(i) => App {
                session: Some(a.history.entries@[i].session_id),
                session_origin: a.history.entries@[i].source,
                ..a
            },
            None => a,
        }
    }
}

/// A copy of an optional text.
fn copy_text(s: &Option<String>) -> (r: Option<String>)
    ensures
        r == *s,
{
    match s {
        Some(t) => Some(t.clone()),
        None => None,
    }
}

impl App {
    /// A browser over `history`, listing its records newest first.
    pub fn new(history: History) -> (r: App)
        ensures
            exists|b: App| fresh(b, history) && #[trigger] filtered(b, r),
    {
        let mut app = App {
            history,
            visible: Vec::new(),
            list: ListPosition { selected: None, offset: 0 },
            query: String::new(),
            searching: false,
            find: Find::default(),
            detail_revision: 0,
            search: Editor::default(),
            search_bookmark: None,
            session: None,
            session_origin: None,
            source_filter: None,
            focus: Focus::List,
            detail_page_size: 1,
            detail_max_scroll: 0,
            matched_count: 0,
            activity: Activity { counts: Vec::new() },
            activity_window: Window::Month,
            activity_cursor: today(),
            date_filter: None,
            selection_anchor: None,
            oldest_first: false,
            scroll: 0,
            help: false,
            help_scroll: 0,
            help_max_scroll: 0,
            help_page: 1,
            status: String::new(),
            loading: false,
            transcript: None,
            session_source: None,
            session_info: String::new(),
            session_id: None,
            expanded_tools: Vec::new(),
            expanded_groups: Vec::new(),
            groups: Vec::new(),
        };
        let ghost b = app;
        app.filter();
        assert(fresh(b, history));
        app
    }

    /// Whether a query (of the list or of the details) is being edited.
    pub fn is_editing(&self) -> (r: bool)
        ensures
            r == (self.searching || self.find.editing),
    {
        self.searching || self.find.editing
    }

    /// The record on the selected row, if the row lists one.
    pub fn selected(&self) -> (r: Option<&Entry>)
        ensures
            match selected_record(*self) {
                Some(i) => r == Some(&self.history.entries@[i]),
                None => r is None,
            },
    {
        match self.list.selected {
            Some(i) => if i < self.visible.len() && self.visible[i] < self.history.entries.len() {
                Some(&self.history.entries[self.visible[i]])
            } else {
                None
            },
            None => None,
        }
    }

    /// Moves the focus between the list and the details.
    pub fn toggle_focus(&mut self)
        ensures
            *final(self) == (App { focus: other_pane(old(self).focus), ..*old(self) }),
    {
        self.focus = if self.focus == Focus::List {
            Focus::Detail
        } else {
            Focus::List
        };
    }

    /// Moves the list selection by `delta` rows, staying within the rows.
    pub fn move_selection(&mut self, delta: isize)
        ensures
            *final(self) == selection_moved(*old(self), delta as int),
    {
        if self.visible.len() == 0 {
            return;
        }
        let from = match self.list.selected {
            Some(p) => p,
            None => 0,
        };
        let next = step_within(from, delta, self.visible.len() - 1);
        self.list.select(Some(next));
        self.scroll = 0;
    }

    /// Moves by `delta` in the focused pane: the list selection, the detail
    /// scroll, or the chart cursor by days.
    pub fn navigate(&mut self, delta: isize)
        ensures
            navigated(*old(self), *final(self), delta as int),
    {
        match self.focus {
            Focus::List => self.move_selection(delta),
            Focus::Detail => {
                self.scroll = step_within(self.scroll, delta, self.detail_max_scroll);
            },
            Focus::Activity => {
                let now = chart_today();
                let (start, end) = self.activity.bounds(self.activity_window, now);
                let at: i64 = if self.activity_cursor < start {
                    start
                } else if self.activity_cursor > end {
                    end
                } else {
                    self.activity_cursor
                };
                let offset: i128 = at as i128 - start as i128;
                let last: i128 = end as i128 - start as i128;
                let moved: i128 = offset + delta as i128;
                let kept: i128 = if moved < 0 {
                    0
                } else if moved > last {
                    last
                } else {
                    moved
                };
                self.activity_cursor = (start as i128 + kept) as i64;
                assert(self.activity_cursor == cursor_moved(*old(self), delta as int, now));
            },
        }
    }

    /// Moves one page in the focused pane.
    pub fn page(&mut self, direction: isize)
        requires
            isize::MIN <= direction * page_size(*old(self)) <= isize::MAX,
        ensures
            navigated(*old(self), *final(self), direction * page_size(*old(self))),
    {
        let size: usize = match self.focus {
            Focus::Detail => if self.detail_page_size == 0 {
                1
            } else {
                self.detail_page_size
            },
            Focus::Activity => 7,
            Focus::List => 10,
        };
        let d: i128 = direction as i128;
        let n: i128 = size as i128;
        assert(-0x8000_0000_0000_0000 * 0x1_0000_0000_0000_0000 <= d * n <= 0x8000_0000_0000_0000
            * 0x1_0000_0000_0000_0000) by (nonlinear_arith)
            requires
                -0x8000_0000_0000_0000 <= d <= 0x8000_0000_0000_0000,
                0 <= n <= 0x1_0000_0000_0000_0000,
        ;
        assert(d * n == direction * page_size(*old(self)));
        let step: isize = (d * n) as isize;
        self.navigate(step);
    }

    /// Moves the focus to the activity chart and back (not in a timeline).
    pub fn focus_activity(&mut self)
        ensures
            *final(self) == if old(self).session_source is None {
                App {
                    focus: if old(self).focus == Focus::Activity {
                        Focus::List
                    } else {
                        Focus::Activity
                    },
                    ..*old(self)
                }
            } else {
                *old(self)
            },
    {
        if self.session_source.is_none() {
            self.focus = if self.focus == Focus::Activity {
                Focus::List
            } else {
                Focus::Activity
            };
        }
    }

    /// Shows the next chart window, keeping the cursor within it.
    pub fn cycle_activity_window(&mut self)
        ensures
            exists|today: i64| *final(self) == #[trigger] window_cycled(*old(self), today),
    {
        self.activity_window = self.activity_window.next();
        let now = chart_today();
        let (start, end) = self.activity.bounds(self.activity_window, now);
        self.activity_cursor = if self.activity_cursor < start {
            start
        } else if self.activity_cursor > end {
            end
        } else {
            self.activity_cursor
        };
        assert(*self == window_cycled(*old(self), now));
    }

    /// Lists only the records of the day under the chart cursor.
    pub fn apply_activity_date(&mut self)
        ensures
            exists|b: App|
                #[trigger] filtered(on_cursor_day(*old(self)), b) && *final(self) == (App {
                    focus: Focus::List,
                    ..b
                }),
    {
        self.date_filter = Some(self.activity_cursor);
        self.filter();
        self.focus = Focus::List;
    }

    /// Clears one filter, the search first, then the session, the date and
    /// the source; false when none is set.
    pub fn clear_one_filter(&mut self) -> (r: bool)
        ensures
            r == has_filter(*old(self)),
            r ==> exists|b: App| one_filter_cleared(*old(self), b) && #[trigger] filtered(b, *final(self)),
            !r ==> *final(self) == *old(self),
    {
        let ghost a = *self;
        if self.query.as_str().unicode_len() > 0 {
            self.query = String::new();
        } else if self.session.is_some() {
            self.session = None;
            self.session_origin = None;
        } else if self.date_filter.is_some() {
            self.date_filter = None;
        } else if self.source_filter.is_some() {
            self.source_filter = None;
        } else {
            return false;
        }
        let ghost b = *self;
        assert(one_filter_cleared(a, b));
        self.filter();
        true
    }

    /// Lists the records of the next source (all sources after the last),
    /// dropping the session filter.
    pub fn cycle_source(&mut self)
        ensures
            exists|b: App|
                #![trigger filtered(b, *final(self))]
                source_after(
                    entry_views(old(self).history.entries@),
                    opt_text(old(self).source_filter),
                    opt_text(b.source_filter),
                ) && b == (App {
                    source_filter: b.source_filter,
                    session: None,
                    session_origin: None,
                    ..*old(self)
                }) && filtered(b, *final(self)),
    {
        self.source_filter = crate::listing::next_source(&self.history.entries, self.source_filter.as_ref());
        self.session = None;
        self.session_origin = None;
        let ghost b = *self;
        self.filter();
        assert(filtered(b, *self));
    }

    /// Switches the session filter on the selected record's session (or
    /// off), keeping the record selected on its screen row where it is
    /// still listed.
    pub fn toggle_session(&mut self)
        ensures
            exists|b: App|
                #[trigger] filtered(session_switched(*old(self)), b) && *final(self) == placed(
                    b,
                    match selected_row(*old(self)) {
                        Some(i) => position_of(b.visible@, i as int, 0),
                        None => None,
                    },
                    screen_row(*old(self)),
                    old(self).scroll,
                ),
    {
        let ghost a = *self;
        let selected: Option<usize> = match self.list.selected {
            Some(i) => if i < self.visible.len() {
                Some(self.visible[i])
            } else {
                None
            },
            None => None,
        };
        let from = match self.list.selected {
            Some(p) => p,
            None => 0,
        };
        let row = from.saturating_sub(self.list.offset);
        let scroll = self.scroll;
        if self.session.is_some() {
            self.session = None;
            self.session_origin = None;
        } else {
            let picked: Option<(String, Option<String>)> = match self.selected() {
                Some(entry) => Some((entry.session_id.clone(), copy_text(&entry.source))),
                None => None,
            };
            if let Some((id, source)) = picked {
                self.session = Some(id);
                self.session_origin = source;
            }
        }
        assert(*self == session_switched(a));
        self.filter();
        let ghost b = *self;
        if let Some(index) = selected {
            if let Some(p) = position(&self.visible, index) {
                self.list.select(Some(p));
                self.list.offset = p.saturating_sub(row);
                self.scroll = scroll;
            }
        }
        assert(*self == placed(
            b,
            match selected_row(a) {
                Some(i) => position_of(b.visible@, i as int, 0),
                None => None,
            },
            screen_row(a),
            a.scroll,
        ));
    }
}

/// The first group, from `from` on, whose row number (`len + first`) is
/// `id`.
pub open spec fn group_numbered(groups: Seq<(usize, usize)>, len: int, id: int, from: int) -> Option<int>
    decreases groups.len() - from,
{
    if from < 0 || from >= groups.len() {
        None
    } else if len + groups[from].0 == id {
        Some(from)
    } else {
        group_numbered(groups, len, id, from + 1)
    }
}

pub(crate) proof fn lemma_group_numbered_bounds(groups: Seq<(usize, usize)>, len: int, id: int, from: int)
    requires
        0 <= from,
    ensures
        match group_numbered(groups, len, id, from) {
            Some(g) => from <= g < groups.len() && len + groups[g].0 == id,
            None => true,
        },
    decreases groups.len() - from,
{
    if from < groups.len() && len + groups[from].0 != id {
        lemma_group_numbered_bounds(groups, len, id, from + 1);
    }
}

/// The group whose row number is `id`.
pub(crate) fn numbered_group(groups: &Vec<(usize, usize)>, len: usize, id: usize) -> (r: Option<usize>)
    ensures
        match r {
            Some(g) => group_numbered(groups@, len as int, id as int, 0) == Some(g as int) && g < groups.len(),
            None => group_numbered(groups@, len as int, id as int, 0) is None,
        },
{
    proof {
        lemma_group_numbered_bounds(groups@, len as int, id as int, 0);
    }
    if id < len {
        let mut k: usize = 0;
        while k < groups.len()
            invariant
                k <= groups.len(),
                id < len,
                forall|j: int| 0 <= j < k ==> len + groups@[j].0 != id,
                group_numbered(groups@, len as int, id as int, 0) == group_numbered(
                    groups@,
                    len as int,
                    id as int,
                    k as int,
                ),
            decreases groups.len() - k,
        {
            k = k + 1;
        }
        return None;
    }
    let start = id - len;
    let mut g: usize = 0;
    while g < groups.len()
        invariant
            g <= groups.len(),
            start == id - len,
            group_numbered(groups@, len as int, id as int, 0) == group_numbered(
                groups@,
                len as int,
                id as int,
                g as int,
            ),
        decreases groups.len() - g,
    {
        if groups[g].0 == start {
            return Some(g);
        }
        g = g + 1;
    }
    None
}

/// The range of the group on the selected row of `a`.
pub open spec fn row_group(a: App) -> Option<(usize, usize)> {
    match selected_row(a) {
        Some(i) => match group_numbered(a.groups@, a.history.entries.len() as int, i as int, 0) {
            Some(g) => Some(a.groups@[g]),
            None => None,
        },
        None => None,
    }
}

/// The group that holds record `index` of `a`: its row number and range
/// (for a row number within `usize`).
pub open spec fn entry_group(a: App, index: int) -> Option<(usize, (usize, usize))> {
    let len = a.history.entries.len() as int;
    if 0 <= index < len {
        match group_containing(ranges_view(a.groups@), index, 0) {
            Some(g) => if len + a.groups@[g].0 <= usize::MAX {
                Some(((len + a.groups@[g].0) as usize, a.groups@[g]))
            } else {
                None
            },
            None => None,
        }
    } else {
        None
    }
}

/// The records `v` with `x` added, unless they hold it already.
pub open spec fn added(v: Seq<usize>, x: usize) -> Seq<usize> {
    if v.contains(x) {
        v
    } else {
        v.push(x)
    }
}

/// The records `v` without `x`.
pub open spec fn without(v: Seq<usize>, x: usize) -> Seq<usize>
    decreases v.len(),
{
    if v.len() == 0 {
        v
    } else {
        let rest = without(v.drop_last(), x);
        if v.last() == x {
            rest
        } else {
            rest.push(v.last())
        }
    }
}

/// The records `v` with `x` taken out where they hold it, else added.
pub open spec fn toggled(v: Seq<usize>, x: usize) -> Seq<usize> {
    if v.contains(x) {
        without(v, x)
    } else {
        v.push(x)
    }
}

proof fn lemma_push_contains(v: Seq<usize>, x: usize)
    ensures
        forall|y: usize| #[trigger] v.push(x).contains(y) <==> (v.contains(y) || y == x),
{
    assert forall|y: usize| #[trigger] v.push(x).contains(y) <==> (v.contains(y) || y == x) by {
        if v.contains(y) {
            let k = choose|k: int| 0 <= k < v.len() && v[k] == y;
            assert(v.push(x)[k] == y);
        }
        if y == x {
            assert(v.push(x)[v.len() as int] == y);
        }
        if v.push(x).contains(y) {
            let k = choose|k: int| 0 <= k < v.push(x).len() && v.push(x)[k] == y;
            if k < v.len() {
                assert(v[k] == y);
            }
        }
    }
}

proof fn lemma_without(v: Seq<usize>, x: usize)
    ensures
        forall|y: usize| #[trigger] without(v, x).contains(y) <==> (v.contains(y) && y != x),
    decreases v.len(),
{
    if v.len() > 0 {
        let d = v.drop_last();
        lemma_without(d, x);
        lemma_push_contains(d, v.last());
        let rest = without(d, x);
        lemma_push_contains(rest, v.last());
        assert(v =~= d.push(v.last()));
        assert forall|y: usize| #[trigger] without(v, x).contains(y) <==> (v.contains(y) && y != x) by {
            assert(v.contains(y) == d.push(v.last()).contains(y));
            if v.last() == x {
                assert(without(v, x) == rest);
            } else {
                assert(without(v, x) == rest.push(v.last()));
            }
        }
    }
}

/// Law: toggling a record twice leaves the records holding what they held.
pub proof fn lemma_toggle_twice(v: Seq<usize>, x: usize)
    ensures
        forall|y: usize| #[trigger] toggled(toggled(v, x), x).contains(y) <==> v.contains(y),
        toggled(v, x).contains(x) <==> !v.contains(x),
{
    lemma_without(v, x);
    lemma_push_contains(v, x);
    if v.contains(x) {
        let w = without(v, x);
        lemma_push_contains(w, x);
        assert(!w.contains(x));
        assert(toggled(w, x) == w.push(x));
    } else {
        let w = v.push(x);
        lemma_without(w, x);
        assert(w.contains(x));
        assert(toggled(w, x) == without(w, x));
    }
}

/// Adds `x` to the records `v` unless they hold it.
fn add_index(v: &mut Vec<usize>, x: usize)
    ensures
        final(v)@ == added(old(v)@, x),
{
    if !holds(v, x) {
        v.push(x);
    }
}

/// Takes `x` out of the records `v` where they hold it, else adds it.
fn toggle_index(v: &mut Vec<usize>, x: usize)
    ensures
        final(v)@ == toggled(old(v)@, x),
{
    if !holds(v, x) {
        v.push(x);
        return;
    }
    let ghost w = v@;
    let mut out: Vec<usize> = Vec::new();
    let mut i: usize = 0;
    while i < v.len()
        invariant
            i <= v.len(),
            v@ == w,
            out@ == without(w.take(i as int), x),
        decreases v.len() - i,
    {
        assert(w.take(i + 1).drop_last() =~= w.take(i as int));
        if v[i] != x {
            out.push(v[i]);
        }
        i = i + 1;
    }
    assert(w.take(w.len() as int) =~= w);
    *v = out;
}

/// The selection of `l` moved to row `p` (to none, back at the top).
pub open spec fn chosen(l: ListPosition, p: Option<int>) -> ListPosition {
    match p {
        Some(p) => ListPosition { selected: Some(p as usize), offset: l.offset },
        None => ListPosition { selected: None, offset: 0 },
    }
}

/// The row `a` selects after folding all groups: the group of its record
/// where the record is in one, else the record.
pub open spec fn collapse_target(a: App) -> Option<int> {
    match selected_row(a) {
        Some(i) => match entry_group(a, i as int) {
            Some(g) => Some(g.0 as int),
            None => Some(i as int),
        },
        None => None,
    }
}

/// Whether the selected row of `a` can be folded or unfolded: a group, or
/// a record that exists (outside a timeline any row).
pub open spec fn toggle_ready(a: App) -> bool {
    match selected_row(a) {
        Some(i) => group_numbered(a.groups@, a.history.entries.len() as int, i as int, 0) is Some
            || a.session_source is None || i < a.history.entries.len(),
        None => true,
    }
}

/// `b` is `a` after folding or unfolding the selected row: a group row
/// opens or closes its group (and stays selected); a tool record in a
/// timeline shows or hides its full text.
pub open spec fn tool_toggled(a: App, b: App) -> bool {
    match selected_row(a) {
        Some(i) => if group_numbered(a.groups@, a.history.entries.len() as int, i as int, 0) is Some {
            exists|mid: App, c: App|
                #![trigger filtered(mid, c)]
                mid.expanded_groups@ == toggled(a.expanded_groups@, i) && mid == (App {
                    expanded_groups: mid.expanded_groups,
                    ..a
                }) && filtered(mid, c) && b == (App {
                    list: chosen(c.list, position_of(c.visible@, i as int, 0)),
                    ..c
                })
        } else if a.session_source is Some && tool_record(a.history.entries@[i as int]@) {
            b.expanded_tools@ == toggled(a.expanded_tools@, i) && b == (App {
                expanded_tools: b.expanded_tools,
                scroll: 0,
                ..a
            })
        } else {
            b == a
        },
        None => b == a,
    }
}

/// The failed tool records, among the first `n`, that match `query`.
pub open spec fn failing(es: Seq<EntryView>, query: Seq<char>, n: int) -> Seq<int>
    decreases n,
{
    if n <= 0 {
        Seq::empty()
    } else {
        let before = failing(es, query, n - 1);
        if failed_tool(es[n - 1]) && query_matches(es[n - 1], query) {
            before.push(n - 1)
        } else {
            before
        }
    }
}

/// The failed tool records of `a` that match its search, in display order.
pub open spec fn failure_list(a: App) -> Seq<usize> {
    let f = as_indices(
        failing(entry_views(a.history.entries@), lowercase(a.query@), a.history.entries.len() as int),
    );
    if a.oldest_first {
        f.reverse()
    } else {
        f
    }
}

/// Whether failure navigation can start from the selection of `a`:
/// newest first always; oldest first from a group that ends within the
/// records or from a record that exists.
pub open spec fn failure_ready(a: App) -> bool {
    a.session_source is Some && failure_list(a).len() > 0 && a.oldest_first ==> match row_group(a) {
        Some(g) => 0 < g.1 <= a.history.entries.len(),
        None => selected_row(a) matches Some(s) ==> s < a.history.entries.len(),
    }
}

/// The failed tool record that failure navigation from `a` lands on.
pub open spec fn failure_goal(a: App, forward: bool) -> usize {
    failure_target_of(
        failure_list(a),
        selected_row(a),
        row_group(a),
        a.oldest_first,
        forward,
        a.history.entries.len() as int,
    )
}

/// The first position of `x` in `s` (0 where there is none).
pub open spec fn first_at(s: Seq<usize>, x: int) -> int {
    match position_of(s, x, 0) {
        Some(p) => p,
        None => 0,
    }
}

/// The status line after landing on failure `number` of `count`.
pub open spec fn failure_status(number: int, count: int) -> Seq<char> {
    "Failed tool "@ + decimal(number) + "/"@ + decimal(count) + " · [ previous · ] next (wraps)"@
}

/// `b` is `a` after moving to the next (or previous) failed tool that
/// matches the search, in a timeline: its group and its text unfolded,
/// the record selected, the list focused and the count shown.
pub open spec fn failure_jumped(a: App, b: App, forward: bool) -> bool {
    if a.session_source is None {
        b == a
    } else if failure_list(a).len() == 0 {
        b.status@ == "No failed tools match the current filters"@ && b == (App { status: b.status, ..a })
    } else {
        let t = failure_goal(a, forward);
        let groups = match entry_group(a, t as int) {
            Some(g) => added(a.expanded_groups@, g.0),
            None => a.expanded_groups@,
        };
        exists|mid: App, c: App|
            #![trigger filtered(mid, c)]
            mid.expanded_groups@ == groups && mid.expanded_tools@ == added(a.expanded_tools@, t) && mid
                == (App {
                expanded_groups: mid.expanded_groups,
                expanded_tools: mid.expanded_tools,
                ..a
            }) && filtered(mid, c) && b.status@ == failure_status(
                first_at(failure_list(a), t as int) + 1,
                failure_list(a).len() as int,
            ) && b == (App {
                list: chosen(c.list, position_of(c.visible@, t as int, 0)),
                scroll: 0,
                focus: Focus::List,
                status: b.status,
                ..c
            })
    }
}

/// Every failed tool record found among the first `n` is one of them.
proof fn lemma_failing_within(es: Seq<EntryView>, query: Seq<char>, n: int)
    ensures
        forall|k: int|
            0 <= k < failing(es, query, n).len() ==> {
                let f = #[trigger] failing(es, query, n)[k];
                &&& 0 <= f < n
                &&& failed_tool(es[f])
                &&& query_matches(es[f], query)
            },
    decreases n,
{
    if n > 0 {
        lemma_failing_within(es, query, n - 1);
        let before = failing(es, query, n - 1);
        assert forall|k: int| 0 <= k < failing(es, query, n).len() implies {
            let f = #[trigger] failing(es, query, n)[k];
            &&& 0 <= f < n
            &&& failed_tool(es[f])
            &&& query_matches(es[f], query)
        } by {
            if k < before.len() {
                assert(failing(es, query, n)[k] == before[k]);
            }
        }
    }
}

/// The failed tool records that match `query` (lowercase), in order.
fn failures_of(entries: &Vec<Entry>, query: &str) -> (r: Vec<usize>)
    ensures
        r@.map_values(|x: usize| x as int) == failing(entry_views(entries@), query@, entries.len() as int),
{
    let ghost es = entry_views(entries@);
    let mut out: Vec<usize> = Vec::new();
    let mut i: usize = 0;
    while i < entries.len()
        invariant
            i <= entries.len(),
            es == entry_views(entries@),
            out@.map_values(|x: usize| x as int) == failing(es, query@, i as int),
        decreases entries.len() - i,
    {
        let ghost before = out@.map_values(|x: usize| x as int);
        assert(es[i as int] == entries@[i as int]@);
        if is_failed_tool(&entries[i]) && matches_query(&entries[i], query) {
            out.push(i);
            assert(out@.map_values(|x: usize| x as int) =~= before.push(i as int));
        }
        i = i + 1;
    }
    out
}

/// The status line for failure `number` of `count`.
fn failure_status_of(number: usize, count: usize) -> (r: String)
    ensures
        r@ == failure_status(number as int, count as int),
{
    let mut text = chars_of("Failed tool ");
    let n = digits_of(number as u64);
    extend_chars(&mut text, n.as_slice());
    let slash = chars_of("/");
    extend_chars(&mut text, slash.as_slice());
    let c = digits_of(count as u64);
    extend_chars(&mut text, c.as_slice());
    let tail = chars_of(" · [ previous · ] next (wraps)");
    extend_chars(&mut text, tail.as_slice());
    string_of(text.as_slice())
}

impl App {
    /// The group that holds record `index`: its row number and range.
    pub fn group_for_entry(&self, index: usize) -> (r: Option<(usize, (usize, usize))>)
        ensures
            r == entry_group(*self, index as int),
    {
        let len = self.history.entries.len();
        if index >= len {
            return None;
        }
        match group_of(&self.groups, index) {
            Some(g) => {
                assert(ranges_view(self.groups@)[g as int].0 == self.groups@[g as int].0);
                match len.checked_add(self.groups[g].0) {
                    Some(id) => Some((id, self.groups[g])),
                    None => None,
                }
            },
            None => None,
        }
    }

    /// The range of the group on the selected row.
    pub fn selected_group(&self) -> (r: Option<(usize, usize)>)
        ensures
            r == row_group(*self),
    {
        let index = match self.list.selected {
            Some(i) => if i < self.visible.len() {
                self.visible[i]
            } else {
                return None;
            },
            None => return None,
        };
        match numbered_group(&self.groups, self.history.entries.len(), index) {
            Some(g) => Some(self.groups[g]),
            None => None,
        }
    }

    /// Folds every group and tool record, keeping the selection on the
    /// selected record's group (or the record).
    pub fn collapse_groups(&mut self)
        ensures
            exists|mid: App, b: App|
                #![trigger filtered(mid, b)]
                mid.expanded_groups@.len() == 0 && mid.expanded_tools@.len() == 0 && mid == (App {
                    expanded_groups: mid.expanded_groups,
                    expanded_tools: mid.expanded_tools,
                    ..*old(self)
                }) && filtered(mid, b) && *final(self) == (App {
                    list: match collapse_target(*old(self)) {
                        Some(t) => match position_of(b.visible@, t, 0) {
                            Some(p) => chosen(b.list, Some(p)),
                            None => b.list,
                        },
                        None => b.list,
                    },
                    ..b
                }),
    {
        let ghost a = *self;
        let selected: Option<usize> = match self.list.selected {
            Some(i) => if i < self.visible.len() {
                Some(self.visible[i])
            } else {
                None
            },
            None => None,
        };
        let target = match selected {
            Some(index) => match self.group_for_entry(index) {
                Some((id, _)) => Some(id),
                None => Some(index),
            },
            None => None,
        };
        self.expanded_groups = Vec::new();
        self.expanded_tools = Vec::new();
        let ghost mid = *self;
        self.filter();
        let ghost b = *self;
        if let Some(id) = target {
            if let Some(p) = position(&self.visible, id) {
                self.list.select(Some(p));
            }
        }
        assert(filtered(mid, b));
    }

    /// Whether tool record `index` shows only its summary: a tool record in
    /// a timeline that is not unfolded.
    pub fn tool_collapsed(&self, index: usize) -> (r: bool)
        requires
            index < self.history.entries.len(),
        ensures
            r == (self.session_source is Some && tool_record(self.history.entries@[index as int]@)
                && !self.expanded_tools@.contains(index)),
    {
        self.session_source.is_some() && is_tool(&self.history.entries[index]) && !holds(
            &self.expanded_tools,
            index,
        )
    }

    /// Folds or unfolds the selected group, or the selected tool record's
    /// text.
    pub fn toggle_tool(&mut self)
        requires
            toggle_ready(*old(self)),
        ensures
            tool_toggled(*old(self), *final(self)),
    {
        let ghost a = *self;
        let index = match self.list.selected {
            Some(i) => if i < self.visible.len() {
                self.visible[i]
            } else {
                return;
            },
            None => return,
        };
        if numbered_group(&self.groups, self.history.entries.len(), index).is_some() {
            toggle_index(&mut self.expanded_groups, index);
            let ghost mid = *self;
            self.filter();
            let ghost c = *self;
            let p = position(&self.visible, index);
            self.list.select(p);
            assert(filtered(mid, c));
            return;
        }
        if self.session_source.is_some() && is_tool(&self.history.entries[index]) {
            toggle_index(&mut self.expanded_tools, index);
            self.scroll = 0;
        }
    }

    /// Moves to the next (or previous) failed tool that matches the search,
    /// wrapping around, in a timeline.
    pub fn jump_failure(&mut self, forward: bool)
        requires
            failure_ready(*old(self)),
        ensures
            failure_jumped(*old(self), *final(self), forward),
    {
        let ghost a = *self;
        if self.session_source.is_none() {
            return;
        }
        let len = self.history.entries.len();
        let query = to_lowercase(self.query.as_str());
        let found = failures_of(&self.history.entries, query.as_str());
        let failures = if self.oldest_first {
            reversed(&found)
        } else {
            found
        };
        proof {
            let fm = found@.map_values(|x: usize| x as int);
            let fl = failure_list(a);
            assert(failures@.map_values(|x: usize| x as int).len() == failures@.len());
            if a.oldest_first {
                assert(failures@.map_values(|x: usize| x as int) == fm.reverse());
            }
            assert(failures@.len() == fl.len());
            assert forall|k: int| 0 <= k < failures.len() implies failures@[k] == fl[k] by {
                assert(failures@.map_values(|x: usize| x as int)[k] == failures@[k] as int);
                if a.oldest_first {
                    assert(fm[fm.len() - 1 - k] == found@[found.len() - 1 - k] as int);
                } else {
                    assert(fm[k] == found@[k] as int);
                }
            }
            assert(failures@ =~= fl);
        }
        if failures.len() == 0 {
            self.status = String::from_str("No failed tools match the current filters");
            return;
        }
        let selected: Option<usize> = match self.list.selected {
            Some(i) => if i < self.visible.len() {
                Some(self.visible[i])
            } else {
                None
            },
            None => None,
        };
        let group = self.selected_group();
        proof {
            lemma_failing_within(entry_views(a.history.entries@), lowercase(a.query@), len as int);
            assert forall|k: int| 0 <= k < failures.len() implies #[trigger] failures@[k] < len by {
                if a.oldest_first {
                    assert(failures@[k] == found@[found.len() - 1 - k]);
                    assert(found@.map_values(|x: usize| x as int)[found.len() - 1 - k] == found@[found.len() - 1 - k] as int);
                } else {
                    assert(found@.map_values(|x: usize| x as int)[k] == found@[k] as int);
                }
            }
        }
        let target = failure_target(&failures, selected, group, self.oldest_first, forward, len);
        let owner = self.group_for_entry(target);
        if let Some((id, _)) = owner {
            add_index(&mut self.expanded_groups, id);
        }
        add_index(&mut self.expanded_tools, target);
        let ghost mid = *self;
        self.filter();
        let ghost c = *self;
        let p = position(&self.visible, target);
        self.list.select(p);
        self.scroll = 0;
        self.focus = Focus::List;
        let number = match position(&failures, target) {
            Some(k) => k + 1,
            None => {
                proof {
                    lemma_position_of_bounds(failures@, target as int, 0);
                }
                0
            },
        };
        self.status = failure_status_of(number, failures.len());
        assert(filtered(mid, c));
    }

    /// Starts a search in the details of the selected record, unfolding a
    /// tool record's text.
    pub fn begin_find(&mut self)
        ensures
            match selected_record(*old(self)) {
                None => final(self).status@ == "Select an individual record to search its details"@
                    && *final(self) == (App { status: final(self).status, ..*old(self) }),
                Some(i) => {
                    &&& final(self).expanded_tools@ == if tool_record(old(self).history.entries@[i]@) {
                        added(old(self).expanded_tools@, i as usize)
                    } else {
                        old(self).expanded_tools@
                    }
                    &&& final(self).find.saved == Some(
                        (old(self).find.query, old(self).scroll, old(self).focus, old(self).find.current),
                    )
                    &&& final(self).find.editing
                    &&& final(self).find.editor.draft() == old(self).find.query@
                    &&& final(self).find.editor.caret() == old(self).find.query@.len()
                    &&& final(self).find.editor.recent() == old(self).search.recent()
                    &&& final(self).find.query == old(self).find.query
                    &&& final(self).find.current == old(self).find.current
                    &&& final(self).find.pending == old(self).find.pending
                    &&& final(self).find.document == old(self).find.document
                    &&& *final(self) == (App {
                        find: final(self).find,
                        expanded_tools: final(self).expanded_tools,
                        focus: Focus::Detail,
                        ..*old(self)
                    })
                },
            },
    {
        if self.selected().is_none() {
            self.status = String::from_str("Select an individual record to search its details");
            return;
        }
        let index = match self.list.selected {
            Some(i) => self.visible[i],
            None => 0,
        };
        if is_tool(&self.history.entries[index]) {
            add_index(&mut self.expanded_tools, index);
        }
        self.find.editor.share_history(&self.search);
        self.find.begin(self.scroll, self.focus);
        self.focus = Focus::Detail;
    }

    /// Moves to the next (or previous) match in the details of the selected
    /// record, unfolding a tool record's text.
    pub fn jump_detail_match(&mut self, forward: bool)
        ensures
            match selected_record(*old(self)) {
                Some(i) if old(self).find.query@.len() > 0 => *final(self) == (App {
                    find: Find { pending: Some(forward), ..old(self).find },
                    expanded_tools: if tool_record(old(self).history.entries@[i]@) {
                        final(self).expanded_tools
                    } else {
                        old(self).expanded_tools
                    },
                    focus: Focus::Detail,
                    ..*old(self)
                }) && final(self).expanded_tools@ == if tool_record(old(self).history.entries@[i]@) {
                    added(old(self).expanded_tools@, i as usize)
                } else {
                    old(self).expanded_tools@
                },
                _ => final(self).status@ == "Press f on a record to search its details"@ && *final(self)
                    == (App { status: final(self).status, ..*old(self) }),
            },
    {
        if self.selected().is_none() || self.find.query.as_str().unicode_len() == 0 {
            self.status = String::from_str("Press f on a record to search its details");
            return;
        }
        let index = match self.list.selected {
            Some(i) => self.visible[i],
            None => 0,
        };
        if is_tool(&self.history.entries[index]) {
            add_index(&mut self.expanded_tools, index);
        }
        self.find.next(forward);
        self.focus = Focus::Detail;
    }
}

/// The record a search starts from in `a`: the first record of the
/// selected group, else the selected record.
pub open spec fn search_start(a: App) -> Option<usize> {
    match row_group(a) {
        Some(r) => Some(r.0),
        None => selected_row(a),
    }
}

/// Whether `bm` records where a search started in `a`: the query, the
/// record (by its mark and how many records with that mark come before
/// it), whether it was a group, the screen row, the scroll, the focus and
/// the chart cursor.
pub open spec fn bookmarks(a: App, bm: SearchBookmark) -> bool {
    let es = entry_views(a.history.entries@);
    &&& bm.query == a.query
    &&& bm.group == (row_group(a) is Some)
    &&& bm.row == screen_row(a)
    &&& bm.scroll == a.scroll
    &&& bm.focus == a.focus
    &&& bm.activity_cursor == a.activity_cursor
    &&& match search_start(a) {
        Some(i) => if i < es.len() {
            bm.mark matches Some(m) && marks(m, es[i as int]) && bm.occurrence == count_marked(
                es,
                m,
                i as int,
            )
        } else {
            bm.mark is None && bm.occurrence == 0
        },
        None => bm.mark is None && bm.occurrence == 0,
    }
}

/// `b` is `a` with a search begun (unless a query is being edited): the
/// starting point bookmarked and the search editor on the current query.
pub open spec fn search_begun(a: App, b: App) -> bool {
    if a.searching || a.find.editing {
        b == a
    } else {
        &&& b.search_bookmark matches Some(bm) && bookmarks(a, bm)
        &&& b.search.draft() == a.query@
        &&& b.search.caret() == a.query@.len()
        &&& b.search.window() == 0
        &&& b.search.recalled() is None
        &&& b.search.recent() == a.search.recent()
        &&& b == (App { search_bookmark: b.search_bookmark, search: b.search, searching: true, ..a })
    }
}

/// `c` with row `p` selected on screen row `row`, the detail scroll
/// `scroll` and the details' scroll kept, where there is such a row.
pub open spec fn relocated(c: App, p: Option<int>, row: int, scroll: usize) -> App {
    match p {
        Some(p) => App {
            list: ListPosition { selected: Some(p as usize), offset: less(p, row) as usize },
            scroll,
            find: Find { preserve_scroll: true, pending: None, current: None, ..c.find },
            ..c
        },
        None => c,
    }
}

/// The row of `c` that shows where the search of `bm` started: the record
/// with the bookmarked mark and count, or its group's row.
pub open spec fn bookmarked_row(c: App, bm: SearchBookmark) -> Option<int> {
    let es = entry_views(c.history.entries@);
    let found = match bm.mark {
        Some(m) => nth_marked_at(es, m, bm.occurrence as nat, 0),
        None => None,
    };
    match found {
        Some(i) => {
            let target = if bm.group {
                match entry_group(c, i) {
                    Some(g) => g.0 as int,
                    None => i,
                }
            } else {
                i
            };
            row_of(c.visible@, c.groups@, c.history.entries.len() as int, target)
        },
        None => None,
    }
}

/// `b` is `a` with its search cancelled: the bookmarked query listed
/// again, the starting record selected on its screen row with its scroll,
/// the focus and chart cursor restored, and the search editor on the query.
pub open spec fn search_cancelled(a: App, b: App) -> bool {
    &&& b.search.draft() == b.query@
    &&& b.search.caret() == b.query@.len()
    &&& b.search.window() == 0
    &&& b.search.recalled() is None
    &&& b.search.recent() == a.search.recent()
    &&& match a.search_bookmark {
        None => b == (App { searching: false, search: b.search, ..a }),
        Some(bm) => exists|mid: App, c: App|
            #![trigger filtered(mid, c)]
            mid == (App { query: bm.query, searching: false, search_bookmark: None, ..a }) && filtered(mid, c)
                && exists|today: i64|
                b == (App {
                    focus: bm.focus,
                    activity_cursor: clamped(
                        bm.activity_cursor as int,
                        #[trigger] chart_first(c.activity.counts@, c.activity_window, today),
                        today as int,
                    ) as i64,
                    search: b.search,
                    ..relocated(c, bookmarked_row(c, bm), bm.row as int, bm.scroll)
                }),
    }
}

impl App {
    /// Starts a search (unless a query is being edited), bookmarking where
    /// it started.
    pub fn begin_search(&mut self)
        ensures
            search_begun(*old(self), *final(self)),
    {
        let ghost a = *self;
        if self.is_editing() {
            return;
        }
        let selected: Option<usize> = match self.list.selected {
            Some(i) => if i < self.visible.len() {
                Some(self.visible[i])
            } else {
                None
            },
            None => None,
        };
        let group = self.selected_group();
        let index = match group {
            Some(range) => Some(range.0),
            None => selected,
        };
        let (mark, occurrence) = match index {
            Some(i) => if i < self.history.entries.len() {
                let m = RecordMark::new(&self.history.entries[i]);
                let n = marked_before(&self.history.entries, &m, i);
                (Some(m), n)
            } else {
                (None, 0)
            },
            None => (None, 0),
        };
        let from = match self.list.selected {
            Some(p) => p,
            None => 0,
        };
        self.search_bookmark = Some(
            SearchBookmark {
                query: self.query.clone(),
                mark,
                occurrence,
                group: group.is_some(),
                row: from.saturating_sub(self.list.offset),
                scroll: self.scroll,
                focus: self.focus,
                activity_cursor: self.activity_cursor,
            },
        );
        self.search.begin(self.query.as_str());
        self.searching = true;
    }

    /// Keeps the search: the query is remembered and the bookmark dropped.
    pub fn confirm_search(&mut self)
        ensures
            final(self).search.recent() == remembered(old(self).search.recent(), old(self).query@),
            final(self).search.caret() == old(self).search.caret(),
            final(self).search.window() == old(self).search.window(),
            final(self).search.recalled() == old(self).search.recalled(),
            final(self).search.draft() == old(self).search.draft(),
            *final(self) == (App {
                search: final(self).search,
                search_bookmark: None,
                searching: false,
                ..*old(self)
            }),
    {
        self.search.remember(self.query.as_str());
        self.search_bookmark = None;
        self.searching = false;
    }

    /// Cancels the search, going back to where it started.
    pub fn cancel_search(&mut self)
        ensures
            search_cancelled(*old(self), *final(self)),
    {
        let ghost a = *self;
        self.searching = false;
        if let Some(bm) = self.search_bookmark.take() {
            let ghost bmv = bm;
            self.query = bm.query;
            let ghost mid = *self;
            self.filter();
            let ghost c = *self;
            let found = match &bm.mark {
                Some(m) => nth_marked(&self.history.entries, m, bm.occurrence),
                None => None,
            };
            if let Some(index) = found {
                let target = if bm.group {
                    match self.group_for_entry(index) {
                        Some((id, _)) => id,
                        None => index,
                    }
                } else {
                    index
                };
                if let Some(p) = visible_position(&self.visible, &self.groups, self.history.entries.len(), target) {
                    self.list.select(Some(p));
                    self.list.offset = p.saturating_sub(bm.row);
                    self.scroll = bm.scroll;
                    self.find.preserve_scroll();
                }
            }
            assert(*self == relocated(c, bookmarked_row(c, bmv), bmv.row as int, bmv.scroll));
            self.focus = bm.focus;
            let now = chart_today();
            let (start, end) = self.activity.bounds(self.activity_window, now);
            self.activity_cursor = if bm.activity_cursor < start {
                start
            } else if bm.activity_cursor > end {
                end
            } else {
                bm.activity_cursor
            };
            self.search.begin(self.query.as_str());
            assert(filtered(mid, c));
            assert(chart_first(c.activity.counts@, c.activity_window, now) == start);
        } else {
            self.search.begin(self.query.as_str());
        }
    }
}

/// The records of `es` at the positions `idx` that lie within it, in order.
pub open spec fn picked(es: Seq<EntryView>, idx: Seq<usize>) -> Seq<EntryView>
    decreases idx.len(),
{
    if idx.len() == 0 {
        Seq::empty()
    } else {
        let rest = picked(es, idx.drop_last());
        if idx.last() < es.len() {
            rest.push(es[idx.last() as int])
        } else {
            rest
        }
    }
}

/// The first records of the groups of `a` numbered `ids` (those that exist).
pub open spec fn group_firsts(a: App, ids: Seq<usize>) -> Seq<EntryView>
    decreases ids.len(),
{
    if ids.len() == 0 {
        Seq::empty()
    } else {
        let rest = group_firsts(a, ids.drop_last());
        let len = a.history.entries.len() as int;
        match group_numbered(a.groups@, len, ids.last() as int, 0) {
            Some(g) => if a.groups@[g].0 < len {
                rest.push(a.history.entries@[a.groups@[g].0 as int]@)
            } else {
                rest
            },
            None => rest,
        }
    }
}

/// The row numbers of the first `n` groups of `c` whose first record is
/// one of `wanted`.
pub open spec fn groups_holding(c: App, wanted: Seq<EntryView>, n: int) -> Seq<usize>
    decreases n,
{
    if n <= 0 {
        Seq::empty()
    } else {
        let rest = groups_holding(c, wanted, n - 1);
        let len = c.history.entries.len() as int;
        let g = c.groups@[n - 1];
        if g.0 < len && len + g.0 <= usize::MAX && wanted.contains(c.history.entries@[g.0 as int]@) {
            rest.push((len + g.0) as usize)
        } else {
            rest
        }
    }
}

/// The revision after `r` (wrapping around).
pub open spec fn next_revision(r: u64) -> u64 {
    if r == u64::MAX {
        0
    } else {
        (r + 1) as u64
    }
}

/// The row of `c` that shows the record that `a` had selected (the first
/// record of its group, for a group row): the equal record with as many
/// equal records before it, or its group's row where the selection was a
/// group.
pub open spec fn reload_row(c: App, a: App) -> Option<int> {
    let es = entry_views(a.history.entries@);
    let len = c.history.entries.len() as int;
    match search_start(a) {
        Some(i) if i < es.len() => match nth_equal_at(
            entry_views(c.history.entries@),
            es[i as int],
            count_equal(es, es[i as int], i as int),
            0,
        ) {
            Some(k) => if row_group(a) is Some {
                match entry_group(c, k) {
                    Some(g) => match position_of(c.visible@, g.0 as int, 0) {
                        Some(p) => Some(p),
                        None => row_of(c.visible@, c.groups@, len, k),
                    },
                    None => row_of(c.visible@, c.groups@, len, k),
                }
            } else {
                row_of(c.visible@, c.groups@, len, k)
            },
            None => None,
        },
        _ => None,
    }
}

/// `b` is `a` with its records replaced by `history`: unfolded tool
/// records and groups stay unfolded where equal records are found, the
/// rows are listed again, and the selected record stays selected on its
/// screen row with its scroll.
pub open spec fn history_replaced(a: App, history: History, b: App) -> bool {
    let es = entry_views(history.entries@);
    let old_es = entry_views(a.history.entries@);
    exists|m1: App, c1: App, m2: App, c2: App|
        #![trigger filtered(m1, c1), filtered(m2, c2)]
        m1.expanded_tools@.map_values(|x: usize| x as int) == equal_to_any(
            es,
            picked(old_es, a.expanded_tools@),
            es.len() as int,
        ) && m1.expanded_groups@.len() == 0 && m1.visible@.len() == 0 && m1 == (App {
            history,
            detail_revision: next_revision(a.detail_revision),
            expanded_tools: m1.expanded_tools,
            expanded_groups: m1.expanded_groups,
            visible: m1.visible,
            selection_anchor: None,
            ..a
        }) && filtered(m1, c1) && m2.expanded_groups@ == groups_holding(
            c1,
            group_firsts(a, a.expanded_groups@),
            c1.groups.len() as int,
        ) && m2 == (App { expanded_groups: m2.expanded_groups, ..c1 }) && filtered(m2, c2) && b
            == relocated(c2, reload_row(c2, a), screen_row(a), a.scroll)
}

/// Whether `v` holds a record equal to `e`.
fn holds_entry(v: &Vec<Entry>, e: &Entry) -> (r: bool)
    ensures
        r == entry_views(v@).contains(e@),
{
    let ghost vs = entry_views(v@);
    let mut i: usize = 0;
    while i < v.len()
        invariant
            i <= v.len(),
            vs == entry_views(v@),
            forall|k: int| 0 <= k < i ==> vs[k] != e@,
        decreases v.len() - i,
    {
        if same_entry(&v[i], e) {
            assert(vs[i as int] == e@);
            return true;
        }
        i = i + 1;
    }
    false
}

/// Copies of the records at positions `idx` that lie within `entries`.
fn picked_entries(entries: &Vec<Entry>, idx: &Vec<usize>) -> (r: Vec<Entry>)
    ensures
        entry_views(r@) == picked(entry_views(entries@), idx@),
{
    let ghost es = entry_views(entries@);
    let mut out: Vec<Entry> = Vec::new();
    let mut k: usize = 0;
    while k < idx.len()
        invariant
            k <= idx.len(),
            es == entry_views(entries@),
            entry_views(out@) == picked(es, idx@.take(k as int)),
        decreases idx.len() - k,
    {
        assert(idx@.take(k + 1).drop_last() =~= idx@.take(k as int));
        let ghost before = entry_views(out@);
        let i = idx[k];
        if i < entries.len() {
            out.push(entries[i].clone());
            assert(entry_views(out@) =~= before.push(es[i as int]));
        }
        k = k + 1;
    }
    assert(idx@.take(idx.len() as int) =~= idx@);
    out
}

impl App {
    /// Copies of the first records of the groups numbered `ids`.
    fn group_first_entries(&self, ids: &Vec<usize>) -> (r: Vec<Entry>)
        ensures
            entry_views(r@) == group_firsts(*self, ids@),
    {
        let len = self.history.entries.len();
        let mut out: Vec<Entry> = Vec::new();
        let mut k: usize = 0;
        while k < ids.len()
            invariant
                k <= ids.len(),
                len == self.history.entries.len(),
                entry_views(out@) == group_firsts(*self, ids@.take(k as int)),
            decreases ids.len() - k,
        {
            assert(ids@.take(k + 1).drop_last() =~= ids@.take(k as int));
            assert(ids@.take(k + 1).last() == ids@[k as int]);
            let ghost before = entry_views(out@);
            if let Some(g) = numbered_group(&self.groups, len, ids[k]) {
                let first = self.groups[g].0;
                if first < len {
                    out.push(self.history.entries[first].clone());
                    assert(entry_views(out@) =~= before.push(self.history.entries@[first as int]@));
                }
            }
            k = k + 1;
        }
        assert(ids@.take(ids.len() as int) =~= ids@);
        out
    }

    /// The row numbers of the groups whose first record is one of `wanted`.
    fn groups_with_firsts(&self, wanted: &Vec<Entry>) -> (r: Vec<usize>)
        ensures
            r@ == groups_holding(*self, entry_views(wanted@), self.groups.len() as int),
    {
        let len = self.history.entries.len();
        let mut out: Vec<usize> = Vec::new();
        let mut k: usize = 0;
        while k < self.groups.len()
            invariant
                k <= self.groups.len(),
                len == self.history.entries.len(),
                out@ == groups_holding(*self, entry_views(wanted@), k as int),
            decreases self.groups.len() - k,
        {
            let first = self.groups[k].0;
            if first < len && first <= usize::MAX - len {
                if holds_entry(wanted, &self.history.entries[first]) {
                    out.push(len + first);
                }
            }
            k = k + 1;
        }
        out
    }

    /// Replaces the records (after the history file changed), keeping what
    /// was unfolded and selected where equal records are found.
    pub fn replace_history(&mut self, history: History)
        ensures
            history_replaced(*old(self), history, *final(self)),
    {
        let ghost a = *self;
        let ghost h = history;
        let len = self.history.entries.len();
        let group = self.selected_group();
        let selected: Option<usize> = match self.list.selected {
            Some(i) => if i < self.visible.len() {
                Some(self.visible[i])
            } else {
                None
            },
            None => None,
        };
        let start = match group {
            Some(range) => Some(range.0),
            None => selected,
        };
        let kept: Option<(Entry, usize)> = match start {
            Some(i) => if i < len {
                Some((self.history.entries[i].clone(), occurrence(&self.history.entries, i)))
            } else {
                None
            },
            None => None,
        };
        let from = match self.list.selected {
            Some(p) => p,
            None => 0,
        };
        let row = from.saturating_sub(self.list.offset);
        let scroll = self.scroll;
        let expanded = picked_entries(&self.history.entries, &self.expanded_tools);
        let firsts = self.group_first_entries(&self.expanded_groups);
        self.history = history;
        self.detail_revision = if self.detail_revision == u64::MAX {
            0
        } else {
            self.detail_revision + 1
        };
        self.expanded_tools = equal_records(&self.history.entries, &expanded);
        self.expanded_groups = Vec::new();
        self.visible = Vec::new();
        self.selection_anchor = None;
        let ghost m1 = *self;
        self.filter();
        let ghost c1 = *self;
        self.expanded_groups = self.groups_with_firsts(&firsts);
        let ghost m2 = *self;
        self.filter();
        let ghost c2 = *self;
        if let Some((entry, n)) = kept {
            if let Some(index) = nth_equal(&self.history.entries, &entry, n) {
                let nlen = self.history.entries.len();
                let p = if group.is_some() {
                    match self.group_for_entry(index) {
                        Some((id, _)) => match position(&self.visible, id) {
                            Some(p) => Some(p),
                            None => visible_position(&self.visible, &self.groups, nlen, index),
                        },
                        None => visible_position(&self.visible, &self.groups, nlen, index),
                    }
                } else {
                    visible_position(&self.visible, &self.groups, nlen, index)
                };
                if let Some(p) = p {
                    self.list.select(Some(p));
                    self.list.offset = p.saturating_sub(row);
                    self.scroll = scroll;
                    self.find.preserve_scroll();
                }
            }
        }
        assert(*self == relocated(c2, reload_row(c2, a), screen_row(a), a.scroll));
        assert(filtered(m1, c1) && filtered(m2, c2));
    }
}

/// `r` is a browser opened on the timeline of `session`: a fresh browser
/// on its records, filtered, then made a timeline of its file, ID and
/// details and filtered again.
pub open spec fn opened(session: crate::session::Session, r: App) -> bool {
    exists|b: App, c: App|
        #![trigger filtered(b, c)]
        fresh(b, session.history) && filtered(b, c) && filtered(
            App {
                session_source: Some(session.path),
                session_id: if session.id@.len() == 0 {
                    None
                } else {
                    Some(session.id)
                },
                session_info: session.info,
                ..c
            },
            r,
        )
}

/// At most the first eight characters of `s`.
pub open spec fn first_eight(s: Seq<char>) -> Seq<char> {
    if s.len() <= 8 {
        s
    } else {
        s.take(8)
    }
}

/// The label of a source directory: the profile that uses it (`.codex`
/// alpha, `.codex-beta` beta, `.codex-gamma` gamma), else its name.
pub open spec fn profile_label(name: Seq<char>) -> Seq<char> {
    if name == ".codex"@ {
        "alpha"@
    } else if name == ".codex-beta"@ {
        "beta"@
    } else if name == ".codex-gamma"@ {
        "gamma"@
    } else {
        name
    }
}

/// The label of source directory `name` (see `profile_label`).
pub fn profile_of(name: &str) -> (r: Vec<char>)
    ensures
        r@ == profile_label(name@),
{
    if crate::text::str_equals(name, ".codex") {
        chars_of("alpha")
    } else if crate::text::str_equals(name, ".codex-beta") {
        chars_of("beta")
    } else if crate::text::str_equals(name, ".codex-gamma") {
        chars_of("gamma")
    } else {
        chars_of(name)
    }
}

/// The parts of the filter line of `a`: the search, the session (its
/// first eight characters), the date and, outside a timeline, the source
/// by its profile label.
pub open spec fn summary_parts(a: App) -> Seq<Seq<char>> {
    let search = if a.query@.len() > 0 {
        seq!["Search: "@ + a.query@ + " [x]"@]
    } else {
        Seq::empty()
    };
    let session = match a.session {
        Some(id) => seq!["Session: "@ + first_eight(id@) + " [s]"@],
        None => Seq::empty(),
    };
    let date = match a.date_filter {
        Some(day) => seq![
            "Date: "@ + match iso_date(day) {
                Some(t) => t,
                None => decimal(day as int),
            } + " [d]"@,
        ],
        None => Seq::empty(),
    };
    let source = if a.session_source is None {
        seq![
            "Source: "@ + match a.source_filter {
                Some(p) => profile_label(source_label(p@)),
                None => "all"@,
            } + " [t]"@,
        ]
    } else {
        Seq::empty()
    };
    search + session + date + source
}

/// The filter line of `a`: its parts joined by ` · `, or `Filters: none`.
pub open spec fn summary_of(a: App) -> Seq<char> {
    let parts = summary_parts(a);
    if parts.len() == 0 {
        "Filters: none"@
    } else {
        joined(parts, " · "@)
    }
}

/// `label`, `middle` and `tail` as one line.
fn labelled(label: &str, middle: &[char], tail: &str) -> (r: Vec<char>)
    ensures
        r@ == label@ + middle@ + tail@,
{
    let mut out = chars_of(label);
    extend_chars(&mut out, middle);
    let t = chars_of(tail);
    extend_chars(&mut out, t.as_slice());
    out
}

impl App {
    /// A browser over the timeline of a session file.
    pub fn from_session(session: crate::session::Session) -> (r: App)
        ensures
            opened(session, r),
    {
        let ghost sv = session;
        let mut app = App::new(session.history);
        let ghost c = app;
        app.session_source = Some(session.path);
        app.session_id = if session.id.as_str().unicode_len() == 0 {
            None
        } else {
            Some(session.id)
        };
        app.session_info = session.info;
        app.filter();
        app
    }

    /// The line that names the filters in force.
    pub fn filter_summary(&self) -> (r: String)
        ensures
            r@ == summary_of(*self),
    {
        let ghost a = *self;
        let mut parts: Vec<Vec<char>> = Vec::new();
        let query = chars_of(self.query.as_str());
        if query.len() > 0 {
            parts.push(labelled("Search: ", query.as_slice(), " [x]"));
        }
        let ghost p1 = parts@.map_values(|l: Vec<char>| l@);
        if let Some(id) = &self.session {
            let all = chars_of(id.as_str());
            let shown = if all.len() <= 8 {
                all
            } else {
                crate::text::slice_of(all.as_slice(), 0, 8)
            };
            parts.push(labelled("Session: ", shown.as_slice(), " [s]"));
        }
        let ghost p2 = parts@.map_values(|l: Vec<char>| l@);
        if let Some(day) = self.date_filter {
            let text = match date_text(day) {
                Some(t) => chars_of(t.as_str()),
                None => decimal_of(day),
            };
            parts.push(labelled("Date: ", text.as_slice(), " [d]"));
        }
        let ghost p3 = parts@.map_values(|l: Vec<char>| l@);
        if self.session_source.is_none() {
            let name = match &self.source_filter {
                Some(p) => profile_of(source_name(p.as_str()).as_str()),
                None => chars_of("all"),
            };
            parts.push(labelled("Source: ", name.as_slice(), " [t]"));
        }
        assert(parts@.map_values(|l: Vec<char>| l@) =~= summary_parts(a));
        if parts.len() == 0 {
            return String::from_str("Filters: none");
        }
        let line = join(&parts, chars_of(" · ").as_slice());
        string_of(line.as_slice())
    }
}

/// Where `rows` holds `x`, its first position is found.
proof fn lemma_position_found(rows: Seq<usize>, x: usize)
    requires
        rows.contains(x),
    ensures
        position_of(rows, x as int, 0) matches Some(p) && 0 <= p < rows.len() && rows[p] == x,
{
    lemma_position_of_bounds(rows, x as int, 0);
    let q = choose|q: int| 0 <= q < rows.len() && rows[q] == x;
    assert(rows[q] == x);
}

/// Law: filtering keeps the selected record selected, with its detail
/// scroll, whenever it is still listed.
#[verifier::spinoff_prover]
pub proof fn lemma_filter_keeps_the_record(a: App, b: App, i: usize)
    requires
        filtered(a, b),
        kept_record(a) == Some(i),
        b.visible@.contains(i),
    ensures
        b.list.selected matches Some(p) && p < b.visible.len() && b.visible@[p as int] == i,
        b.scroll == kept_scroll(a),
{
    let (days, today) = choose|days: Seq<Option<i64>>, today: i64| #[trigger] filtered_with(a, b, days, today);
    lemma_position_found(b.visible@, i);
    let p = position_of(b.visible@, i as int, 0)->0;
    let len = a.history.entries.len() as int;
    assert(row_of(b.visible@, b.groups@, len, i as int) == Some(p));
    assert(restored(b.visible@, b.groups@, len, Some(i), selected_or_top(a)) == (Some(p), true));
    assert(filtered_with(a, b, days, today));
    assert(b.list.selected == Some(p as usize));
    assert(0 <= p < b.visible.len() && b.visible@[p] == i);
}

/// Law: a reload selects the record that was selected (by its content and
/// the equal records before it), with its detail scroll, wherever new
/// records have moved it, when it is still listed.
#[verifier::spinoff_prover]
pub proof fn lemma_reload_keeps_the_record(a: App, history: History, b: App, i: usize, k: usize)
    requires
        history_replaced(a, history, b),
        search_start(a) == Some(i),
        i < a.history.entries.len(),
        row_group(a) is None,
        nth_equal_at(
            entry_views(history.entries@),
            a.history.entries@[i as int]@,
            count_equal(entry_views(a.history.entries@), a.history.entries@[i as int]@, i as int),
            0,
        ) == Some(k as int),
        b.visible@.contains(k),
    ensures
        b.list.selected matches Some(p) && p < b.visible.len() && b.visible@[p as int] == k,
        b.scroll == a.scroll,
{
    let (m1, c1, m2, c2) = choose|m1: App, c1: App, m2: App, c2: App|
        {
            let es = entry_views(history.entries@);
            let old_es = entry_views(a.history.entries@);
            m1.expanded_tools@.map_values(|x: usize| x as int) == equal_to_any(
                es,
                picked(old_es, a.expanded_tools@),
                es.len() as int,
            ) && m1.expanded_groups@.len() == 0 && m1.visible@.len() == 0 && m1 == (App {
                history,
                detail_revision: next_revision(a.detail_revision),
                expanded_tools: m1.expanded_tools,
                expanded_groups: m1.expanded_groups,
                visible: m1.visible,
                selection_anchor: None,
                ..a
            }) && #[trigger] filtered(m1, c1) && m2.expanded_groups@ == groups_holding(
                c1,
                group_firsts(a, a.expanded_groups@),
                c1.groups.len() as int,
            ) && m2 == (App { expanded_groups: m2.expanded_groups, ..c1 }) && #[trigger] filtered(m2, c2)
                && b == relocated(c2, reload_row(c2, a), screen_row(a), a.scroll)
        };
    let (d1, t1) = choose|d: Seq<Option<i64>>, t: i64| #[trigger] filtered_with(m1, c1, d, t);
    let (d2, t2) = choose|d: Seq<Option<i64>>, t: i64| #[trigger] filtered_with(m2, c2, d, t);
    assert(c2.history == history);
    lemma_position_found(c2.visible@, k);
    let p = position_of(c2.visible@, k as int, 0)->0;
    assert(reload_row(c2, a) == Some(p));
    assert(b.list.selected == Some(p as usize));
    assert(b.visible == c2.visible);
    assert(0 <= p < c2.visible.len() && c2.visible@[p] == k);
    assert(b.scroll == a.scroll);
}

/// Law: cancelling a search that was just begun lists the query again,
/// returns the focus, and selects the record the search started from,
/// with its detail scroll, when it is still listed.
#[verifier::spinoff_prover]
pub proof fn lemma_cancel_returns(a: App, b: App, c: App, i: usize)
    requires
        !a.searching,
        !a.find.editing,
        search_begun(a, b),
        search_cancelled(b, c),
    ensures
        c.query == a.query,
        c.focus == a.focus,
        !c.searching,
        c.search_bookmark is None,
        search_start(a) == Some(i) && i < a.history.entries.len() && row_group(a) is None
            && c.visible@.contains(i) ==> (c.list.selected matches Some(p) && p < c.visible.len()
            && c.visible@[p as int] == i && c.scroll == a.scroll),
{
    let bm = b.search_bookmark->0;
    let (mid, c0) = choose|mid: App, c0: App|
        mid == (App { query: bm.query, searching: false, search_bookmark: None, ..b }) && #[trigger] filtered(
            mid,
            c0,
        ) && exists|today: i64|
            c == (App {
                focus: bm.focus,
                activity_cursor: clamped(
                    bm.activity_cursor as int,
                    #[trigger] chart_first(c0.activity.counts@, c0.activity_window, today),
                    today as int,
                ) as i64,
                search: c.search,
                ..relocated(c0, bookmarked_row(c0, bm), bm.row as int, bm.scroll)
            });
    let (d, t) = choose|d: Seq<Option<i64>>, t: i64| #[trigger] filtered_with(mid, c0, d, t);
    assert(c0.history == a.history);
    if search_start(a) == Some(i) && i < a.history.entries.len() && row_group(a) is None
        && c.visible@.contains(i) {
        let es = entry_views(a.history.entries@);
        let m = bm.mark->0;
        lemma_mark_finds_the_record(es, m, i as int);
        assert(c.visible == c0.visible);
        lemma_position_found(c0.visible@, i);
        assert(bookmarked_row(c0, bm) == position_of(c0.visible@, i as int, 0));
        let p = position_of(c0.visible@, i as int, 0)->0;
        assert(relocated(c0, Some(p), bm.row as int, bm.scroll).list.selected == Some(p as usize));
        assert(0 <= p < c0.visible.len() && c0.visible@[p] == i);
        assert(c.list.selected == Some(p as usize));
        assert(c.visible@[p] == i);
        assert(c.scroll == bm.scroll);
        assert(bm.scroll == a.scroll);
    }
}

/// Law: the chosen date narrows the list, not the activity chart: on the
/// same local days, the chart counts the same records by day whatever the
/// date filter, and each day's count is the number of matches on it.
pub proof fn lemma_date_filter_leaves_the_chart(
    a: App,
    b: App,
    c: App,
    date: Option<i64>,
    days: Seq<Option<i64>>,
    today: i64,
)
    requires
        a.session_source is None,
        filtered_with(a, b, days, today),
        filtered_with((App { date_filter: date, ..a }), c, days, today),
    ensures
        forall|d: int| #[trigger] day_count(b.activity.counts@, d) == day_count(c.activity.counts@, d),
        forall|d: int| #[trigger] day_count(b.activity.counts@, d) == day_hits(days, d),
{
    lemma_tallied_counts(days, b.activity.counts@);
    lemma_tallied_counts(days, c.activity.counts@);
}

proof fn lemma_next_failure_in(
    failures: Seq<usize>,
    current: Option<usize>,
    in_group: bool,
    len: int,
    oldest_first: bool,
    k: int,
)
    requires
        0 <= k,
    ensures
        next_failure(failures, current, in_group, len, oldest_first, k) matches Some(f) ==> failures.contains(f),
    decreases failures.len() - k,
{
    if k < failures.len() {
        assert(failures[k] == failures[k]);
        lemma_next_failure_in(failures, current, in_group, len, oldest_first, k + 1);
    }
}

proof fn lemma_previous_failure_in(failures: Seq<usize>, current: Option<usize>, len: int, oldest_first: bool, n: int)
    requires
        n <= failures.len(),
    ensures
        previous_failure(failures, current, len, oldest_first, n) matches Some(f) ==> failures.contains(f),
    decreases n,
{
    if n > 0 {
        assert(failures[n - 1] == failures[n - 1]);
        lemma_previous_failure_in(failures, current, len, oldest_first, n - 1);
    }
}

/// Law: failure navigation lands on a failed tool record that matches the
/// search.
pub proof fn lemma_failure_goal_is_a_failure(a: App, forward: bool)
    requires
        failure_list(a).len() > 0,
    ensures
        failure_list(a).contains(failure_goal(a, forward)),
        failure_goal(a, forward) < a.history.entries.len(),
        failed_tool(a.history.entries@[failure_goal(a, forward) as int]@),
        query_matches(a.history.entries@[failure_goal(a, forward) as int]@, lowercase(a.query@)),
{
    let fl = failure_list(a);
    let len = a.history.entries.len() as int;
    let es = entry_views(a.history.entries@);
    let q = lowercase(a.query@);
    let current = failure_start(selected_row(a), row_group(a), a.oldest_first);
    lemma_next_failure_in(fl, current, row_group(a) is Some, len, a.oldest_first, 0);
    lemma_previous_failure_in(fl, current, len, a.oldest_first, fl.len() as int);
    assert(fl.contains(fl[0]));
    assert(fl.contains(fl.last())) by {
        assert(fl[fl.len() - 1] == fl.last());
    }
    let t = failure_goal(a, forward);
    assert(fl.contains(t));
    lemma_failing_within(es, q, len);
    let f = failing(es, q, len);
    let j = choose|j: int| 0 <= j < fl.len() && fl[j] == t;
    let i = if a.oldest_first {
        f.len() - 1 - j
    } else {
        j
    };
    assert(t == f[i] as usize);
    assert(es[f[i]] == a.history.entries@[f[i]]@);
}

proof fn lemma_passing_pass(
    es: Seq<EntryView>,
    source: Option<Seq<char>>,
    session: Option<(Seq<char>, Option<Seq<char>>)>,
    query: Seq<char>,
    n: int,
)
    requires
        n <= es.len(),
    ensures
        forall|k: int|
            0 <= k < passing(es, source, session, query, n).len() ==> {
                let i = #[trigger] passing(es, source, session, query, n)[k];
                0 <= i < n && passes(es[i], source, session, query)
            },
    decreases n,
{
    if n > 0 {
        lemma_passing_pass(es, source, session, query, n - 1);
        let before = passing(es, source, session, query, n - 1);
        assert forall|k: int| 0 <= k < passing(es, source, session, query, n).len() implies {
            let i = #[trigger] passing(es, source, session, query, n)[k];
            0 <= i < n && passes(es[i], source, session, query)
        } by {
            if k < before.len() {
                assert(passing(es, source, session, query, n)[k] == before[k]);
            }
        }
    }
}

proof fn lemma_on_date_within(ms: Seq<int>, days: Seq<Option<i64>>, date: Option<i64>, n: int)
    requires
        n <= ms.len(),
    ensures
        forall|k: int| 0 <= k < on_date(ms, days, date, n).len() ==> ms.contains(#[trigger] on_date(ms, days, date, n)[k]),
    decreases n,
{
    if n > 0 {
        lemma_on_date_within(ms, days, date, n - 1);
        let before = on_date(ms, days, date, n - 1);
        assert forall|k: int| 0 <= k < on_date(ms, days, date, n).len() implies ms.contains(
            #[trigger] on_date(ms, days, date, n)[k],
        ) by {
            if k < before.len() {
                assert(on_date(ms, days, date, n)[k] == before[k]);
            } else {
                assert(ms[n - 1] == on_date(ms, days, date, n)[k]);
            }
        }
    }
}

/// Law: a search lists the matching records themselves, folded into no
/// group: every row is a record that passes the filters and the search.
pub proof fn lemma_search_lists_records(a: App, b: App)
    requires
        filtered(a, b),
        a.query@.len() > 0,
    ensures
        forall|k: int|
            0 <= k < b.visible.len() ==> #[trigger] b.visible@[k] < a.history.entries.len() && passes(
                a.history.entries@[b.visible@[k] as int]@,
                opt_text(a.source_filter),
                session_filter(a.session, a.session_origin),
                lowercase(a.query@),
            ),
{
    let (days, today) = choose|days: Seq<Option<i64>>, today: i64| #[trigger] filtered_with(a, b, days, today);
    let es = entry_views(a.history.entries@);
    let len = a.history.entries.len() as int;
    let ms = app_matches(a);
    let dated = dated_of(a, days);
    lemma_passing_pass(es, opt_text(a.source_filter), session_filter(a.session, a.session_origin), lowercase(a.query@), len);
    lemma_on_date_within(ms, days, a.date_filter, ms.len() as int);
    assert forall|k: int| 0 <= k < b.visible.len() implies #[trigger] b.visible@[k] < a.history.entries.len() && passes(
        a.history.entries@[b.visible@[k] as int]@,
        opt_text(a.source_filter),
        session_filter(a.session, a.session_origin),
        lowercase(a.query@),
    ) by {
        let rows = b.visible@.map_values(|x: usize| x as int);
        assert(rows[k] == b.visible@[k] as int);
        assert(!folding(a));
        assert(rows == in_order(dated, a.oldest_first));
        assert(rows.len() == dated.len());
        assert(dated == on_date(ms, days, a.date_filter, ms.len() as int));
        let j = if a.oldest_first {
            dated.len() - 1 - k
        } else {
            k
        };
        assert(rows[k] == dated[j]);
        assert(ms.contains(on_date(ms, days, a.date_filter, ms.len() as int)[j]));
        let m = choose|m: int| 0 <= m < ms.len() && ms[m] == dated[j];
        assert(es[ms[m]] == a.history.entries@[ms[m]]@);
    }
}

/// Law: after filtering, a row is selected exactly when there are rows,
/// and the selected row is one of them.
pub proof fn lemma_filter_selects_a_row(a: App, b: App)
    requires
        filtered(a, b),
    ensures
        (b.list.selected is Some) == (b.visible.len() > 0),
        b.list.selected matches Some(p) ==> p < b.visible.len(),
{
    let (days, today) = choose|days: Seq<Option<i64>>, today: i64| #[trigger] filtered_with(a, b, days, today);
    let len = a.history.entries.len() as int;
    match kept_record(a) {
        Some(i) => {
            lemma_position_of_bounds(b.visible@, i as int, 0);
            if (i as int) < len {
                match group_containing(ranges_view(b.groups@), i as int, 0) {
                    Some(g) => lemma_position_of_bounds(b.visible@, len + b.groups@[g].0, 0),
                    None => {},
                }
            }
        },
        None => {},
    }
}

/// `a` with its details fitted to `height` rows showing `lines` lines: a
/// page moves one row less than the height (at least one), the scroll
/// stops where the last line is at the bottom, and the scroll is kept
/// within that.
pub open spec fn details_fitted(a: App, height: usize, lines: usize) -> App {
    let max = if lines > height {
        (lines - height) as usize
    } else {
        0usize
    };
    App {
        detail_page_size: if height <= 1 {
            1usize
        } else {
            (height - 1) as usize
        },
        detail_max_scroll: max,
        scroll: if a.scroll < max {
            a.scroll
        } else {
            max
        },
        ..a
    }
}

impl App {
    /// Fits the details to a pane of `height` rows showing `lines` lines.
    pub fn fit_details(&mut self, height: usize, lines: usize)
        ensures
            *final(self) == details_fitted(*old(self), height, lines),
    {
        self.detail_page_size = if height <= 1 {
            1
        } else {
            height - 1
        };
        self.detail_max_scroll = lines.saturating_sub(height);
        if self.scroll > self.detail_max_scroll {
            self.scroll = self.detail_max_scroll;
        }
    }
}

/// `a` with nothing loading, in the list and in its open timeline.
pub open spec fn loads_idle(a: App) -> App {
    App {
        loading: false,
        transcript: match a.transcript {
            Some(t) => Some(Box::new(App { loading: false, ..*t })),
            None => None,
        },
        ..a
    }
}

/// `a` with the status of the view that `target` loads into set to
/// `status`: the open timeline for a session reload (nothing without one),
/// else the list.
pub open spec fn view_status(a: App, target: Target, status: Seq<char>, b: App) -> bool {
    if target == Target::ReloadSession {
        match a.transcript {
            Some(t) => b.transcript matches Some(u) && u.status@ == status && *u == (App {
                status: u.status,
                ..*t
            }) && b == (App { transcript: b.transcript, ..a }),
            None => b == a,
        }
    } else {
        b.status@ == status && b == (App { status: b.status, ..a })
    }
}

/// Sets the status of the view that `target` loads into.
fn set_view_status(root: &mut App, target: Target, status: String)
    ensures
        view_status(*old(root), target, status@, *final(root)),
{
    if target == Target::ReloadSession {
        if let Some(t) = root.transcript.take() {
            let mut inner: App = *t;
            inner.status = status;
            root.transcript = Some(Box::new(inner));
        }
    } else {
        root.status = status;
    }
}

/// Marks nothing as loading, in the list and in its open timeline.
fn stop_loading(root: &mut App)
    ensures
        *final(root) == loads_idle(*old(root)),
{
    root.loading = false;
    if let Some(t) = root.transcript.take() {
        let mut inner: App = *t;
        inner.loading = false;
        root.transcript = Some(Box::new(inner));
    }
}

/// `b` is `a` after starting a load of `target` (`started` telling whether
/// the reader took it): the view it loads into shows that it is loading,
/// or why it could not start; a session reload without a timeline changes
/// nothing but the loading marks.
pub open spec fn load_begun(a: App, target: Target, started: Result<(), String>, b: App) -> bool {
    let idle = loads_idle(a);
    match started {
        Ok(()) => exists|c: App|
            view_status(idle, target, "Loading… Esc cancels · existing view stays usable"@, c) && b == if target
                == Target::ReloadSession {
                match c.transcript {
                    Some(t) => App { transcript: Some(Box::new(App { loading: true, ..*t })), ..c },
                    None => c,
                }
            } else {
                App { loading: true, ..c }
            },
        Err(e) => view_status(idle, target, "Load failed: "@ + e@, b),
    }
}

/// Shows that a load of `target` started, or why it could not.
pub fn begin_loading(root: &mut App, target: Target, started: Result<(), String>)
    ensures
        load_begun(*old(root), target, started, *final(root)),
{
    stop_loading(root);
    match started {
        Ok(()) => {
            set_view_status(root, target, String::from_str("Loading… Esc cancels · existing view stays usable"));
            if target == Target::ReloadSession {
                if let Some(t) = root.transcript.take() {
                    let mut inner: App = *t;
                    inner.loading = true;
                    root.transcript = Some(Box::new(inner));
                }
            } else {
                root.loading = true;
            }
        },
        Err(e) => {
            let mut text = chars_of("Load failed: ");
            extend_chars(&mut text, chars_of(e.as_str()).as_slice());
            set_view_status(root, target, string_of(text.as_slice()));
        },
    }
}

/// Shows a loader's progress message in the view it loads into.
pub fn show_progress(root: &mut App, target: Target, message: String)
    ensures
        view_status(*old(root), target, message@, *final(root)),
{
    set_view_status(root, target, message);
}

/// `b` is `a` after a finished load of `target` with `result`, and `r`
/// what is left to do:
/// - history: the records replaced, "History reloaded";
/// - a session opened: a timeline over it, recalling the list's recent
///   queries and telling whether it came from the memory cache, the list's
///   status cleared;
/// - a session reloaded: the open timeline of that file takes its records,
///   ID and details, "Session reloaded" (no other timeline changes);
/// - a resume: the prepared resume handed back to run;
/// - an error: the view the load was for tells it, its data kept.
pub open spec fn load_finished(a: App, target: Target, result: Result<Loaded, String>, b: App, r: Option<Ready>) -> bool {
    let idle = loads_idle(a);
    match result {
        Ok(Loaded::History(h)) => r is None && exists|c: App|
            history_replaced(idle, h, c) && b.status@ == "History reloaded"@ && b == (App {
                status: b.status,
                ..c
            }),
        Ok(Loaded::Session { session, cached, origin }) => r is None && if target == Target::OpenSession {
            &&& b.status@.len() == 0
            &&& b.transcript matches Some(t) && exists|c: App|
                #[trigger] opened(session, c) && t.search.recent() == a.search.recent() && t.search.caret()
                    == c.search.caret() && t.search.window() == c.search.window() && t.search.recalled()
                    == c.search.recalled() && t.search.draft() == c.search.draft() && t.status@ == (if cached {
                    "Session loaded from memory cache"@
                } else {
                    "Session loaded"@
                }) && *t == (App { search: t.search, status: t.status, ..c }) && b == (App {
                    status: b.status,
                    transcript: b.transcript,
                    ..idle
                })
        } else {
            match idle.transcript {
                Some(t) => if t.session_source matches Some(p) && p@ == session.path@ {
                    &&& b.transcript matches Some(u) && exists|c: App|
                        #[trigger] history_replaced(*t, session.history, c) && u.status@ == "Session reloaded"@
                            && *u == (App {
                            session_id: if session.id@.len() == 0 {
                                None
                            } else {
                                Some(session.id)
                            },
                            session_info: session.info,
                            status: u.status,
                            ..c
                        }) && b == (App { transcript: b.transcript, ..idle })
                } else {
                    b == idle
                },
                None => b == idle,
            }
        },
        Ok(Loaded::Resume(ready)) => r == Some(ready) && b == idle,
        Err(e) => r is None && view_status(idle, target, "Load failed: "@ + e@, b),
    }
}

/// Applies a finished load of `target` to the list or its open timeline;
/// a prepared resume is handed back to be run.
pub fn finish_loading(root: &mut App, target: Target, result: Result<Loaded, String>) -> (r: Option<Ready>)
    ensures
        load_finished(*old(root), target, result, *final(root), r),
{
    stop_loading(root);
    match result {
        Ok(Loaded::History(history)) => {
            root.replace_history(history);
            root.status = String::from_str("History reloaded");
            None
        },
        Ok(Loaded::Session { session, cached, origin }) => {
            if target == Target::OpenSession {
                let mut app = App::from_session(session);
                app.search.share_history(&root.search);
                app.status = if cached {
                    String::from_str("Session loaded from memory cache")
                } else {
                    String::from_str("Session loaded")
                };
                root.transcript = Some(Box::new(app));
                root.status = String::new();
            } else if let Some(t) = root.transcript.take() {
                let mut inner: App = *t;
                let same = match &inner.session_source {
                    Some(p) => crate::text::str_equals(p.as_str(), session.path.as_str()),
                    None => false,
                };
                if same {
                    inner.replace_history(session.history);
                    inner.session_id = if session.id.as_str().unicode_len() == 0 {
                        None
                    } else {
                        Some(session.id)
                    };
                    inner.session_info = session.info;
                    inner.status = String::from_str("Session reloaded");
                }
                root.transcript = Some(Box::new(inner));
            }
            None
        },
        Ok(Loaded::Resume(ready)) => Some(ready),
        Err(e) => {
            let mut text = chars_of("Load failed: ");
            extend_chars(&mut text, chars_of(e.as_str()).as_slice());
            set_view_status(root, target, string_of(text.as_slice()));
            None
        },
    }
}


/// `x`, held at `max`.
pub open spec fn held_at(x: int, max: int) -> int {
    if x < max {
        x
    } else {
        max
    }
}

/// `x`, held at 0.
pub open spec fn above_zero(x: int) -> int {
    if x < 0 {
        0
    } else {
        x
    }
}

/// `a` after `key` while its help is open: Esc, F1, `q` and `?` close the
/// help; ↓/`j` and ↑/`k` scroll it by a line, PgDn and PgUp by a page,
/// Home and End to either end, never past the last line; other keys do
/// nothing.
pub open spec fn help_moved(a: App, key: Key) -> App {
    match key {
        Key::Esc | Key::F(1) | Key::Char('q') | Key::Char('?') => App { help: false, ..a },
        Key::Down | Key::Char('j') => App {
            help_scroll: held_at(a.help_scroll + 1, a.help_max_scroll as int) as usize,
            ..a
        },
        Key::Up | Key::Char('k') => App { help_scroll: above_zero(a.help_scroll - 1) as usize, ..a },
        Key::PageDown => App {
            help_scroll: held_at(a.help_scroll + a.help_page, a.help_max_scroll as int) as usize,
            ..a
        },
        Key::PageUp => App { help_scroll: above_zero(a.help_scroll - a.help_page) as usize, ..a },
        Key::Home => App { help_scroll: 0, ..a },
        Key::End => App { help_scroll: a.help_max_scroll, ..a },
        _ => a,
    }
}

/// `b` is `a` after the load in progress was cancelled: nothing is loading,
/// and the view in front (the open timeline, else the list) says so.
pub open spec fn load_cancelled(a: App, b: App) -> bool {
    let idle = loads_idle(a);
    match idle.transcript {
        Some(t) => b.transcript matches Some(u) && u.status@ == "Loading cancelled"@ && *u == (App {
            status: u.status,
            ..*t
        }) && b == (App { transcript: b.transcript, ..idle }),
        None => b.status@ == "Loading cancelled"@ && b == (App { status: b.status, ..idle }),
    }
}

/// Marks that the load in progress was cancelled.
pub fn cancel_loading(root: &mut App)
    ensures
        load_cancelled(*old(root), *final(root)),
{
    stop_loading(root);
    let status = String::from_str("Loading cancelled");
    if root.transcript.is_some() {
        set_view_status(root, Target::ReloadSession, status);
    } else {
        set_view_status(root, Target::History, status);
    }
}

impl App {
    /// What `key` does while the help is open (see `help_moved`).
    pub fn help_key(&mut self, key: Key)
        ensures
            *final(self) == help_moved(*old(self), key),
    {
        match key {
            Key::Esc | Key::F(1) | Key::Char('q') | Key::Char('?') => self.help = false,
            Key::Down | Key::Char('j') => {
                let next = self.help_scroll.saturating_add(1);
                self.help_scroll = if next < self.help_max_scroll {
                    next
                } else {
                    self.help_max_scroll
                };
            },
            Key::Up | Key::Char('k') => self.help_scroll = self.help_scroll.saturating_sub(1),
            Key::PageDown => {
                let next = self.help_scroll.saturating_add(self.help_page);
                self.help_scroll = if next < self.help_max_scroll {
                    next
                } else {
                    self.help_max_scroll
                };
            },
            Key::PageUp => self.help_scroll = self.help_scroll.saturating_sub(self.help_page),
            Key::Home => self.help_scroll = 0,
            Key::End => self.help_scroll = self.help_max_scroll,
            _ => {},
        }
    }

    /// Opens the help at its top.
    pub fn open_help(&mut self)
        ensures
            *final(self) == (App { help: true, help_scroll: 0, ..*old(self) }),
    {
        self.help = true;
        self.help_scroll = 0;
    }

    /// Scrolls the details pane three lines down (or up), held within
    /// `usize`.
    pub fn scroll_details(&mut self, down: bool)
        ensures
            *final(self) == (App {
                scroll: if down {
                    if old(self).scroll + 3 > usize::MAX {
                        usize::MAX
                    } else {
                        (old(self).scroll + 3) as usize
                    }
                } else {
                    above_zero(old(self).scroll - 3) as usize
                },
                ..*old(self)
            }),
    {
        if down {
            self.scroll = self.scroll.saturating_add(3);
        } else {
            self.scroll = self.scroll.saturating_sub(3);
        }
    }

    /// Reverses the order of the list, then lists the records again.
    pub fn toggle_order(&mut self)
        ensures
            filtered(App { oldest_first: !old(self).oldest_first, ..*old(self) }, *final(self)),
    {
        self.oldest_first = !self.oldest_first;
        self.filter();
    }
}


/// `b` is `a` after Esc did `e` in the view in front: the activity chart
/// leaves the focus to the list; the details search, the query, the session
/// filter, the date filter or the source filter is cleared, the records then
/// listed again; other actions, which reach beyond the view, leave it as
/// it is.
pub open spec fn escaped(a: App, e: Escape, b: App) -> bool {
    match e {
        Escape::LeaveActivity => b == (App { focus: Focus::List, ..a }),
        Escape::ClearFind => b.find.query@.len() == 0 && b.find.current is None && b.find.pending is None
            && b.find.preserve_scroll && b.find.editing == a.find.editing && b == (App { find: b.find, ..a }),
        Escape::ClearQuery => exists|m: App|
            m.query@.len() == 0 && m == (App { query: m.query, ..a }) && #[trigger] filtered(m, b),
        Escape::ClearSession => filtered(App { session: None, session_origin: None, ..a }, b),
        Escape::ClearDate => filtered(App { date_filter: None, ..a }, b),
        Escape::ClearSource => filtered(App { source_filter: None, ..a }, b),
        _ => b == a,
    }
}

impl App {
    /// Does what Esc's action `e` does in this view (see `escaped`).
    pub fn escape_in_view(&mut self, e: Escape)
        ensures
            escaped(*old(self), e, *final(self)),
    {
        match e {
            Escape::LeaveActivity => self.focus = Focus::List,
            Escape::ClearFind => self.find.clear(),
            Escape::ClearQuery => {
                self.query = String::new();
                let ghost m = *self;
                self.filter();
                assert(filtered(m, *self));
            },
            Escape::ClearSession => {
                self.session = None;
                self.session_origin = None;
                self.filter();
            },
            Escape::ClearDate => {
                self.date_filter = None;
                self.filter();
            },
            Escape::ClearSource => {
                self.source_filter = None;
                self.filter();
            },
            _ => {},
        }
    }
}

} // verus!
