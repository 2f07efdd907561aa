//! What one frame of the browser shows, apart from where ratatui lays it
//! out and what depends on the local clock: the size check, the count
//! lines and titles, the text of each list row and the blank lines between
//! rows, and in the details pane a folded tool's text and a group's tools
//! with their counts.
use crate::app::{
    group_containing, group_numbered, group_of, holds, lemma_group_containing_bounds,
    lemma_group_numbered_bounds, numbered_group, ranges_view, tool_record, App, Focus,
};
use crate::formatting::{decimal, digits, digits_of, digits_of_next};
use crate::history::{display_text, entry_views, shown, Entry, EntryView};
use crate::text::{chars_of, extend_chars, is_whitespace, spec_is_whitespace, string_of};
use crate::ui::{
    failed_from, group_row, group_row_of, header_line, header_of, multiple_sources, outcome,
    outcome_line, row_label, row_label_of, several_sources, too_small, MIN_HEIGHT, MIN_WIDTH,
};
use vstd::prelude::*;

verus! {

/// The group that the row of `index` (a record, or a group's number) opens
/// or lies in, as its number and record range: the group numbered `index`,
/// else the first group that holds record `index`.
pub open spec fn row_group_of(groups: Seq<(usize, usize)>, len: int, index: int) -> Option<(int, int, int)> {
    match group_numbered(groups, len, index, 0) {
        Some(g) => Some((index, groups[g].0 as int, groups[g].1 as int)),
        None => match group_containing(ranges_view(groups), index, 0) {
            Some(g) => Some((len + groups[g].0, groups[g].0 as int, groups[g].1 as int)),
            None => None,
        },
    }
}

/// Whether the group number `id` is among the unfolded groups `v`.
pub open spec fn unfolded(v: Seq<usize>, id: int) -> bool {
    exists|k: int| 0 <= k < v.len() && v[k] as int == id
}

/// Whether the row at position `p` of `a` is followed by a blank line:
/// always while a search is active; otherwise unless its group is unfolded
/// and the next row lies in the same group.
pub open spec fn spaced(a: App, p: int) -> bool {
    if a.query@.len() > 0 {
        true
    } else {
        match row_group_of(a.groups@, a.history.entries.len() as int, a.visible@[p] as int) {
            Some(g) => !(unfolded(a.expanded_groups@, g.0) && p + 1 < a.visible.len() && g.1
                <= a.visible@[p + 1] < g.2),
            None => true,
        }
    }
}

/// Whether the row at position `p` of `app` is followed by a blank line.
fn spacer(app: &App, p: usize) -> (r: bool)
    requires
        p < app.visible.len(),
    ensures
        r == spaced(*app, p as int),
{
    if app.query.as_str().unicode_len() > 0 {
        return true;
    }
    let len = app.history.entries.len();
    let index = app.visible[p];
    let ghost gs = app.groups@;
    proof {
        lemma_group_numbered_bounds(gs, len as int, index as int, 0);
        lemma_group_containing_bounds(ranges_view(gs), index as int, 0);
    }
    let (id, first, end) = match numbered_group(&app.groups, len, index) {
        Some(g) => (index, app.groups[g].0, app.groups[g].1),
        None => match group_of(&app.groups, index) {
            Some(g) => {
                let f = app.groups[g].0;
                if f > usize::MAX - len {
                    // No unfolded group can have a number past `usize`.
                    return true;
                }
                (len + f, f, app.groups[g].1)
            },
            None => return true,
        },
    };
    let held = holds(&app.expanded_groups, id);
    proof {
        if unfolded(app.expanded_groups@, id as int) {
            let k = choose|k: int|
                0 <= k < app.expanded_groups@.len() && app.expanded_groups@[k] as int == id as int;
            assert(app.expanded_groups@[k] == id);
        }
    }
    !(held && p + 1 < app.visible.len() && first <= app.visible[p + 1] && app.visible[p + 1] < end)
}

/// Whether each row of `app` is followed by a blank line (see `spaced`).
pub fn spacers(app: &App) -> (r: Vec<bool>)
    ensures
        r.len() == app.visible.len(),
        forall|p: int| 0 <= p < r.len() ==> r@[p] == spaced(*app, p),
{
    let mut out: Vec<bool> = Vec::new();
    let mut p: usize = 0;
    while p < app.visible.len()
        invariant
            p <= app.visible.len(),
            out.len() == p,
            forall|q: int| 0 <= q < p ==> out@[q] == spaced(*app, q),
        decreases app.visible.len() - p,
    {
        out.push(spacer(app, p));
        p = p + 1;
    }
    out
}

/// The words of `t` from `i` on, one space apart, after `acc`; `gap` says
/// whether a space is owed before the next word.
pub open spec fn squeezed(t: Seq<char>, i: int, acc: Seq<char>, gap: bool) -> Seq<char>
    decreases t.len() - i,
{
    if i < 0 || i >= t.len() {
        acc
    } else if spec_is_whitespace(t[i]) {
        squeezed(t, i + 1, acc, acc.len() > 0)
    } else {
        squeezed(t, i + 1, (if gap { acc.push(' ') } else { acc }).push(t[i]), false)
    }
}

/// The words of `t`, one space apart.
pub open spec fn words_of(t: Seq<char>) -> Seq<char> {
    squeezed(t, 0, Seq::empty(), false)
}

/// The preview of a record's text on a row `width` columns wide: the words
/// of its first `2 × width` characters as shown, one space apart, or
/// `(empty prompt)` when there are none.
pub open spec fn preview_of(text: Seq<char>, width: int) -> Seq<char> {
    let n = if 2 * width < text.len() {
        2 * width
    } else {
        text.len() as int
    };
    let words = words_of(shown(text.take(n)));
    if words.len() == 0 {
        "(empty prompt)"@
    } else {
        words
    }
}

/// The words of `t`, one space apart.
fn squeeze(t: &[char]) -> (r: Vec<char>)
    ensures
        r@ == words_of(t@),
{
    let mut out: Vec<char> = Vec::new();
    let mut gap = false;
    let mut i: usize = 0;
    while i < t.len()
        invariant
            i <= t.len(),
            words_of(t@) == squeezed(t@, i as int, out@, gap),
        decreases t.len() - i,
    {
        if is_whitespace(t[i]) {
            gap = out.len() > 0;
        } else {
            if gap {
                out.push(' ');
            }
            out.push(t[i]);
            gap = false;
        }
        i = i + 1;
    }
    out
}

/// The preview of `text` on a row `width` columns wide (see `preview_of`).
pub fn preview(text: &str, width: u16) -> (r: String)
    ensures
        r@ == preview_of(text@, width as int),
{
    let cs = chars_of(text);
    let limit: usize = 2 * (width as usize);
    let n = if limit < cs.len() {
        limit
    } else {
        cs.len()
    };
    let head = crate::text::slice_of(cs.as_slice(), 0, n);
    assert(head@ =~= text@.take(n as int));
    let shown_head = display_text(string_of(head.as_slice()).as_str());
    let words = squeeze(chars_of(shown_head.as_str()).as_slice());
    if words.len() == 0 {
        string_of(chars_of("(empty prompt)").as_slice())
    } else {
        string_of(words.as_slice())
    }
}

/// What a folded tool record shows in the details pane: its outcome line
/// (or that its details are folded) and how to unfold it.
pub open spec fn folded_of(text: Seq<char>) -> Seq<char> {
    (match outcome_line(text) {
        Some(l) => l,
        None => "Tool details collapsed."@,
    }) + "\n\nPress Enter or Space to expand.\nInput and result appear together.\nSearch includes the hidden content."@
}

/// What a folded tool record with `text` shows in the details pane.
pub fn folded_details(text: &str) -> (r: String)
    ensures
        r@ == folded_of(text@),
{
    let mut out = match outcome(text) {
        Some(l) => chars_of(l.as_str()),
        None => chars_of("Tool details collapsed."),
    };
    extend_chars(
        &mut out,
        chars_of(
            "\n\nPress Enter or Space to expand.\nInput and result appear together.\nSearch includes the hidden content.",
        ).as_slice(),
    );
    string_of(out.as_slice())
}

/// The line under the search box: matching and all records, and which pane
/// has the focus.
pub open spec fn count_line_of(a: App) -> Seq<char> {
    " "@ + decimal(a.matched_count as int) + "/"@ + decimal(a.history.entries.len() as int)
        + " records · Focus: "@ + (if a.focus is List {
        "List"@
    } else {
        "Details"@
    }) + " · Tab switches panes"@
}

/// The line under the search box of `app` (see `count_line_of`).
pub fn count_line(app: &App) -> (r: String)
    ensures
        r@ == count_line_of(*app),
{
    let mut out = chars_of(" ");
    extend_chars(&mut out, digits_of(app.matched_count as u64).as_slice());
    extend_chars(&mut out, chars_of("/").as_slice());
    extend_chars(&mut out, digits_of(app.history.entries.len() as u64).as_slice());
    extend_chars(&mut out, chars_of(" records · Focus: ").as_slice());
    match app.focus {
        Focus::List => extend_chars(&mut out, chars_of("List").as_slice()),
        _ => extend_chars(&mut out, chars_of("Details").as_slice()),
    }
    extend_chars(&mut out, chars_of(" · Tab switches panes").as_slice());
    string_of(out.as_slice())
}

/// The title of the list pane: timeline or prompts, the selected row's
/// number of all rows, the order, and whether a session filter is on.
pub open spec fn list_title_of(a: App) -> Seq<char> {
    let transcript = a.session_source is Some;
    " "@ + (if transcript {
        "Timeline"@
    } else {
        "Prompts"@
    }) + " · "@ + (match a.list.selected {
        Some(i) => digits(i as nat + 1),
        None => "0"@,
    }) + "/"@ + decimal(a.visible.len() as int) + " · "@ + (if transcript {
        if a.oldest_first {
            "reverse"@
        } else {
            "file order"@
        }
    } else if a.oldest_first {
        "oldest"@
    } else {
        "newest"@
    }) + (if a.session is Some {
        " · session filter"@
    } else {
        Seq::empty()
    }) + " "@
}

/// The title of the list pane of `app` (see `list_title_of`).
pub fn list_title(app: &App) -> (r: String)
    ensures
        r@ == list_title_of(*app),
{
    let transcript = app.session_source.is_some();
    let mut out = chars_of(" ");
    if transcript {
        extend_chars(&mut out, chars_of("Timeline").as_slice());
    } else {
        extend_chars(&mut out, chars_of("Prompts").as_slice());
    }
    extend_chars(&mut out, chars_of(" · ").as_slice());
    match app.list.selected {
        Some(i) => extend_chars(&mut out, digits_of_next(i as u64).as_slice()),
        None => {
            assert(digits(0) == seq!['0']);
            extend_chars(&mut out, chars_of("0").as_slice())
        },
    }
    extend_chars(&mut out, chars_of("/").as_slice());
    extend_chars(&mut out, digits_of(app.visible.len() as u64).as_slice());
    extend_chars(&mut out, chars_of(" · ").as_slice());
    let order = if transcript {
        if app.oldest_first {
            "reverse"
        } else {
            "file order"
        }
    } else if app.oldest_first {
        "oldest"
    } else {
        "newest"
    };
    extend_chars(&mut out, chars_of(order).as_slice());
    if app.session.is_some() {
        extend_chars(&mut out, chars_of(" · session filter").as_slice());
    }
    extend_chars(&mut out, chars_of(" ").as_slice());
    string_of(out.as_slice())
}

/// The text of one list row.
pub enum RowText {
    /// A tool group's row and its number of failed tools.
    Group { text: String, failed: usize },
    /// A folded tool record, labelled by `tool_label` with the local time
    /// it was made.
    Tool,
    /// A record's session label and the preview of its text.
    Record { label: String, preview: String },
}

/// Whether the row of `i` in `a` lists a record, or a group whose records
/// exist.
pub open spec fn row_exists(a: App, i: int) -> bool {
    let len = a.history.entries.len() as int;
    match group_numbered(a.groups@, len, i, 0) {
        Some(g) => a.groups@[g].0 <= a.groups@[g].1 <= len,
        None => 0 <= i < len,
    }
}

/// Whether every row of `a` lists a record or a group whose records exist.
pub open spec fn rows_listed(a: App) -> bool {
    forall|p: int| 0 <= p < a.visible.len() ==> #[trigger] row_exists(a, a.visible@[p] as int)
}

/// Whether `r` is the text of the row of `i` in `a`, `width` columns wide,
/// `several` telling whether the records come from several sources: a
/// group's row, a folded tool record, or a record's label and preview.
pub open spec fn row_text_of(a: App, i: int, several: bool, width: int, r: RowText) -> bool {
    let es = entry_views(a.history.entries@);
    match group_numbered(a.groups@, es.len() as int, i, 0) {
        Some(g) => {
            let first = a.groups@[g].0 as int;
            let end = a.groups@[g].1 as int;
            r matches RowText::Group { text, failed } && text@ == group_row_of(
                es,
                first,
                end,
                a.expanded_groups@.contains(i as usize),
            ) && failed == failed_from(es, first, end - first)
        },
        None => if a.session_source is Some && tool_record(es[i]) && !a.expanded_tools@.contains(
            i as usize,
        ) {
            r is Tool
        } else {
            r matches RowText::Record { label, preview } && label@ == row_label_of(
                es[i],
                a.session_source is Some,
                several,
            ) && preview@ == preview_of(es[i].text, width)
        },
    }
}

/// Whether every row of `app` lists a record or a group whose records
/// exist (see `rows_listed`).
pub fn rows_exist(app: &App) -> (r: bool)
    ensures
        r == rows_listed(*app),
{
    let len = app.history.entries.len();
    let mut p: usize = 0;
    while p < app.visible.len()
        invariant
            p <= app.visible.len(),
            len == app.history.entries.len(),
            forall|q: int| 0 <= q < p ==> #[trigger] row_exists(*app, app.visible@[q] as int),
        decreases app.visible.len() - p,
    {
        let i = app.visible[p];
        proof {
            lemma_group_numbered_bounds(app.groups@, len as int, i as int, 0);
        }
        let fits = match numbered_group(&app.groups, len, i) {
            Some(g) => app.groups[g].0 <= app.groups[g].1 && app.groups[g].1 <= len,
            None => i < len,
        };
        if !fits {
            assert(!row_exists(*app, app.visible@[p as int] as int));
            return false;
        }
        p = p + 1;
    }
    true
}

/// The text of the row of `i` in `app`, `width` columns wide.
fn row_text(app: &App, i: usize, several: bool, width: u16) -> (r: RowText)
    requires
        row_exists(*app, i as int),
    ensures
        row_text_of(*app, i as int, several, width as int, r),
{
    let len = app.history.entries.len();
    let ghost es = entry_views(app.history.entries@);
    proof {
        lemma_group_numbered_bounds(app.groups@, len as int, i as int, 0);
    }
    match numbered_group(&app.groups, len, i) {
        Some(g) => {
            let first = app.groups[g].0;
            let end = app.groups[g].1;
            let unfolded_group = holds(&app.expanded_groups, i);
            let (text, failed) = group_row(&app.history.entries, first, end, unfolded_group);
            RowText::Group { text, failed }
        },
        None => {
            assert(es[i as int] == app.history.entries@[i as int]@);
            if app.tool_collapsed(i) {
                RowText::Tool
            } else {
                let entry = &app.history.entries[i];
                RowText::Record {
                    label: row_label(entry, app.session_source.is_some(), several),
                    preview: preview(entry.text.as_str(), width),
                }
            }
        },
    }
}

/// What one frame shows.
pub struct FramePlan {
    /// Whether the terminal is too small to draw in.
    pub too_small: bool,
    /// The header's count line.
    pub header: String,
    /// The line under the search box.
    pub count_line: String,
    /// The title of the list pane.
    pub list_title: String,
    /// Whether the records come from more than one source.
    pub several_sources: bool,
    /// The text of each row.
    pub rows: Vec<RowText>,
    /// Whether each row is followed by a blank line.
    pub spacers: Vec<bool>,
}

/// What a frame of `width` × `height` shows of `app`, with list rows
/// `row_width` columns wide.
pub fn frame_plan(app: &App, width: u16, height: u16, row_width: u16) -> (r: FramePlan)
    requires
        rows_listed(*app),
    ensures
        r.too_small == (width < MIN_WIDTH || height < MIN_HEIGHT),
        r.header@ == header_of(*app),
        r.count_line@ == count_line_of(*app),
        r.list_title@ == list_title_of(*app),
        r.several_sources == several_sources(entry_views(app.history.entries@)),
        r.rows.len() == app.visible.len(),
        forall|p: int|
            0 <= p < r.rows.len() ==> row_text_of(
                *app,
                app.visible@[p] as int,
                r.several_sources,
                row_width as int,
                #[trigger] r.rows@[p],
            ),
        r.spacers.len() == app.visible.len(),
        forall|p: int| 0 <= p < r.spacers.len() ==> r.spacers@[p] == spaced(*app, p),
{
    let several = multiple_sources(&app.history.entries);
    let mut rows: Vec<RowText> = Vec::new();
    let mut p: usize = 0;
    while p < app.visible.len()
        invariant
            p <= app.visible.len(),
            rows_listed(*app),
            rows.len() == p,
            forall|q: int|
                0 <= q < p ==> row_text_of(*app, app.visible@[q] as int, several, row_width as int, #[trigger] rows@[q]),
        decreases app.visible.len() - p,
    {
        assert(row_exists(*app, app.visible@[p as int] as int));
        rows.push(row_text(app, app.visible[p], several, row_width));
        p = p + 1;
    }
    FramePlan {
        too_small: too_small(width, height),
        header: header_line(app),
        count_line: count_line(app),
        list_title: list_title(app),
        several_sources: several,
        rows,
        spacers: spacers(app),
    }
}

/// Whether text `a` comes before text `b` in character order, a proper
/// prefix first: the order of `String`s.
pub open spec fn text_before(a: Seq<char>, b: Seq<char>) -> bool
    decreases a.len(),
{
    if b.len() == 0 {
        false
    } else if a.len() == 0 {
        true
    } else if a[0] != b[0] {
        a[0] < b[0]
    } else {
        text_before(a.drop_first(), b.drop_first())
    }
}

proof fn lemma_text_before_irreflexive(a: Seq<char>)
    ensures
        !text_before(a, a),
    decreases a.len(),
{
    if a.len() > 0 {
        lemma_text_before_irreflexive(a.drop_first());
    }
}

proof fn lemma_text_before_transitive(a: Seq<char>, b: Seq<char>, c: Seq<char>)
    requires
        text_before(a, b),
        text_before(b, c),
    ensures
        text_before(a, c),
    decreases a.len(),
{
    if a.len() > 0 && b.len() > 0 && c.len() > 0 && a[0] == b[0] && b[0] == c[0] {
        lemma_text_before_transitive(a.drop_first(), b.drop_first(), c.drop_first());
    }
}

proof fn lemma_text_before_total(a: Seq<char>, b: Seq<char>)
    requires
        a != b,
    ensures
        text_before(a, b) || text_before(b, a),
    decreases a.len(),
{
    if a.len() > 0 && b.len() > 0 && a[0] == b[0] {
        if a.drop_first() == b.drop_first() {
            assert(a =~= seq![a[0]] + a.drop_first());
            assert(b =~= seq![b[0]] + b.drop_first());
        }
        lemma_text_before_total(a.drop_first(), b.drop_first());
    } else if a.len() == 0 && b.len() == 0 {
        assert(a =~= b);
    }
}

/// Whether text `a` comes before text `b` (see `text_before`).
fn precedes(a: &[char], b: &[char]) -> (r: bool)
    ensures
        r == text_before(a@, b@),
{
    let mut i: usize = 0;
    assert(a@.skip(0) =~= a@);
    assert(b@.skip(0) =~= b@);
    while i < a.len() && i < b.len() && a[i] == b[i]
        invariant
            i <= a.len(),
            i <= b.len(),
            text_before(a@.skip(i as int), b@.skip(i as int)) == text_before(a@, b@),
        decreases a.len() - i,
    {
        assert(a@.skip(i as int).drop_first() =~= a@.skip(i + 1));
        assert(b@.skip(i as int).drop_first() =~= b@.skip(i + 1));
        i = i + 1;
    }
    if i == b.len() {
        false
    } else if i == a.len() {
        true
    } else {
        assert(a@.skip(i as int)[0] == a@[i as int]);
        assert(b@.skip(i as int)[0] == b@[i as int]);
        a[i] < b[i]
    }
}

/// How many of the `n` records from `first` on have the session ID `name`.
pub open spec fn name_count(es: Seq<EntryView>, first: int, n: int, name: Seq<char>) -> nat
    decreases n,
{
    if n <= 0 {
        0
    } else {
        name_count(es, first, n - 1, name) + if es[first + n - 1].session_id == name {
            1nat
        } else {
            0nat
        }
    }
}

proof fn lemma_name_count_bounds(es: Seq<EntryView>, first: int, n: int, name: Seq<char>)
    requires
        n >= 0,
    ensures
        name_count(es, first, n, name) <= n,
        name_count(es, first, n, name) > 0 ==> exists|k: int|
            first <= k < first + n && #[trigger] es[k].session_id == name,
    decreases n,
{
    if n > 0 {
        lemma_name_count_bounds(es, first, n - 1, name);
        if es[first + n - 1].session_id == name {
            assert(es[first + n - 1].session_id == name);
        }
    }
}

/// Whether `r` tallies the session IDs of the `n` records from `first` on:
/// each ID once with its number of records, in the order of `String`s.
pub open spec fn tallies(es: Seq<EntryView>, first: int, n: int, r: Seq<(Seq<char>, nat)>) -> bool {
    &&& forall|i: int, j: int| 0 <= i < j < r.len() ==> text_before(#[trigger] r[i].0, #[trigger] r[j].0)
    &&& forall|k: int| first <= k < first + n ==> exists|i: int| 0 <= i < r.len() && r[i].0 == (#[trigger] es[k]).session_id
    &&& forall|i: int| 0 <= i < r.len() ==> (#[trigger] r[i]).1 == name_count(es, first, n, r[i].0) && r[i].1 > 0
}

/// The views of a tally.
pub open spec fn tally_view(v: Seq<(String, usize)>) -> Seq<(Seq<char>, nat)> {
    v.map_values(|p: (String, usize)| (p.0@, p.1 as nat))
}

/// The session IDs (tool names) of records `first .. end` with how many
/// records have each, in the order of `String`s.
pub fn tally(entries: &Vec<Entry>, first: usize, end: usize) -> (r: Vec<(String, usize)>)
    requires
        first <= end <= entries.len(),
    ensures
        tallies(entry_views(entries@), first as int, end - first, tally_view(r@)),
{
    let ghost es = entry_views(entries@);
    let mut out: Vec<(String, usize)> = Vec::new();
    let mut k = first;
    while k < end
        invariant
            first <= k <= end <= entries.len(),
            es == entry_views(entries@),
            tallies(es, first as int, k - first, tally_view(out@)),
            forall|i: int| 0 <= i < out.len() ==> (#[trigger] out@[i]).1 <= k - first,
        decreases end - k,
    {
        let ghost before = tally_view(out@);
        let ghost n = k - first;
        let name = &entries[k].session_id;
        assert(es[k as int].session_id == name@);
        let cs = chars_of(name.as_str());
        let mut i: usize = 0;
        while i < out.len() && precedes(chars_of(out[i].0.as_str()).as_slice(), cs.as_slice())
            invariant
                i <= out.len(),
                cs@ == name@,
                before == tally_view(out@),
                forall|j: int| 0 <= j < i ==> text_before(#[trigger] before[j].0, name@),
            decreases out.len() - i,
        {
            i = i + 1;
        }
        proof {
            assert forall|x: Seq<char>| name_count(es, first as int, n + 1, x) == name_count(
                es,
                first as int,
                n,
                x,
            ) + if es[k as int].session_id == x {
                1nat
            } else {
                0nat
            } by {}
        }
        if i < out.len() && crate::text::str_equals(out[i].0.as_str(), name.as_str()) {
            let c = out[i].1;
            proof {
                lemma_name_count_bounds(es, first as int, n, name@);
            }
            let held = out[i].0.clone();
            out.set(i, (held, c + 1));
            proof {
                let now = tally_view(out@);
                assert forall|j: int| 0 <= j < now.len() && j != i implies now[j] == before[j] by {}
                assert(now[i as int] == (name@, (c + 1) as nat));
                assert forall|a: int, b: int| 0 <= a < b < now.len() implies text_before(
                    #[trigger] now[a].0,
                    #[trigger] now[b].0,
                ) by {
                    assert(now[a].0 == before[a].0);
                    assert(now[b].0 == before[b].0);
                }
                assert forall|q: int| first <= q < k + 1 implies exists|j: int|
                    0 <= j < now.len() && now[j].0 == (#[trigger] es[q]).session_id by {
                    if q < k {
                        let j = choose|j: int| 0 <= j < before.len() && before[j].0 == es[q].session_id;
                        assert(now[j].0 == before[j].0);
                    } else {
                        assert(now[i as int].0 == es[q].session_id);
                    }
                }
                assert forall|j: int| 0 <= j < now.len() implies (#[trigger] now[j]).1 == name_count(
                    es,
                    first as int,
                    n + 1,
                    now[j].0,
                ) && now[j].1 > 0 by {
                    if j != i {
                        assert(now[j] == before[j]);
                        assert(before[j].0 != name@) by {
                            if j < i {
                                lemma_text_before_irreflexive(name@);
                            } else {
                                lemma_text_before_irreflexive(before[i as int].0);
                            }
                        }
                    }
                }
                assert(tallies(es, first as int, n + 1, now));
            }
        } else {
            let entry_name = name.clone();
            out.insert(i, (entry_name, 1));
            proof {
                let now = tally_view(out@);
                assert(now.len() == before.len() + 1);
                assert forall|j: int| 0 <= j < i implies now[j] == before[j] by {}
                assert forall|j: int| i < j < now.len() implies now[j] == before[j - 1] by {}
                assert(now[i as int] == (name@, 1nat));
                if i < before.len() {
                    assert(before[i as int].0 != name@);
                    lemma_text_before_total(before[i as int].0, name@);
                    assert(text_before(name@, before[i as int].0));
                }
                assert forall|j: int| 0 <= j < before.len() implies before[j].0 != name@ by {
                    if j < i {
                        lemma_text_before_irreflexive(name@);
                    } else {
                        if j > i {
                            lemma_text_before_transitive(name@, before[i as int].0, before[j].0);
                        }
                        lemma_text_before_irreflexive(name@);
                    }
                }
                assert forall|a: int, b: int| 0 <= a < b < now.len() implies text_before(
                    #[trigger] now[a].0,
                    #[trigger] now[b].0,
                ) by {
                    if b < i {
                    } else if b == i {
                    } else if a < i {
                        if b - 1 > i {
                            assert(text_before(before[i as int].0, before[b - 1].0));
                            lemma_text_before_transitive(name@, before[i as int].0, before[b - 1].0);
                        }
                        lemma_text_before_transitive(now[a].0, name@, now[b].0);
                    } else if a == i {
                        if b - 1 > i {
                            assert(text_before(before[i as int].0, before[b - 1].0));
                            lemma_text_before_transitive(name@, before[i as int].0, before[b - 1].0);
                        }
                    } else {
                        assert(text_before(before[a - 1].0, before[b - 1].0));
                    }
                }
                lemma_name_count_bounds(es, first as int, n, name@);
                if name_count(es, first as int, n, name@) > 0 {
                    let q = choose|q: int| first <= q < first + n && #[trigger] es[q].session_id == name@;
                    let j = choose|j: int| 0 <= j < before.len() && before[j].0 == es[q].session_id;
                    assert(false);
                }
                assert forall|q: int| first <= q < k + 1 implies exists|j: int|
                    0 <= j < now.len() && now[j].0 == (#[trigger] es[q]).session_id by {
                    if q < k {
                        let j = choose|j: int| 0 <= j < before.len() && before[j].0 == es[q].session_id;
                        if j < i {
                            assert(now[j].0 == es[q].session_id);
                        } else {
                            assert(now[j + 1].0 == es[q].session_id);
                        }
                    } else {
                        assert(now[i as int].0 == es[q].session_id);
                    }
                }
                assert forall|j: int| 0 <= j < now.len() implies (#[trigger] now[j]).1 == name_count(
                    es,
                    first as int,
                    n + 1,
                    now[j].0,
                ) && now[j].1 > 0 by {
                    if j < i {
                        assert(now[j] == before[j]);
                    } else if j > i {
                        assert(now[j] == before[j - 1]);
                    }
                }
                assert(tallies(es, first as int, n + 1, now));
            }
        }
        k = k + 1;
    }
    out
}

} // verus!
