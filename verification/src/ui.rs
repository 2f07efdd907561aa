//! Texts of the list rows: elided to a number of terminal columns, and the
//! one-line label of a tool record.
use crate::activity::{day_hits, local_date, local_day_of};
use crate::app::{failed_tool, first_eight, is_failed_tool, App};
use crate::formatting::{decimal, digits_of};
use crate::history::{display_text, entry_views, shown, source_label, source_name, Entry, EntryView};
use crate::listing::{session_set, sessions_summary};
use crate::text::{
    chars_of, display_width, extend_chars, lines_of, push_char, string_of, starts_with_seq, str_equals, str_starts_with,
    text_lines, text_width,
};
use vstd::prelude::*;

verus! {

/// The columns a character takes.
pub open spec fn char_width(c: char) -> int {
    display_width(seq![c]) as int
}

/// A text as it is shown on one row: controls dropped, tabs widened, line
/// breaks as spaces.
pub open spec fn one_line(text: Seq<char>) -> Seq<char> {
    shown(text).map_values(|c: char| if c == '\n' { ' ' } else { c })
}

/// How many characters of `t` from `i` on fit in `limit` columns with
/// `used` columns already taken, stopping at the first that does not.
pub open spec fn fitting(t: Seq<char>, i: int, used: int, limit: int) -> int
    decreases t.len() - i,
{
    if i < 0 || i >= t.len() || used + char_width(t[i]) > limit {
        i
    } else {
        fitting(t, i + 1, used + char_width(t[i]), limit)
    }
}

/// `text` on one row of `width` columns: whole where it fits, otherwise the
/// characters that fit in one column less, then `…`.
pub open spec fn elided(text: Seq<char>, width: int) -> Seq<char> {
    let t = one_line(text);
    if display_width(t) <= width {
        t
    } else if width == 0 {
        Seq::empty()
    } else {
        t.take(fitting(t, 0, 0, width - 1)).push('…')
    }
}

proof fn lemma_fitting_bounds(t: Seq<char>, i: int, used: int, limit: int)
    requires
        0 <= i <= t.len(),
    ensures
        i <= fitting(t, i, used, limit) <= t.len(),
    decreases t.len() - i,
{
    if i < t.len() && used + char_width(t[i]) <= limit {
        lemma_fitting_bounds(t, i + 1, used + char_width(t[i]), limit);
    }
}

/// The columns of one character.
fn width_of_char(c: char) -> (r: usize)
    ensures
        r == char_width(c),
{
    let mut s = String::new();
    push_char(&mut s, c);
    assert(s@ =~= seq![c]);
    text_width(s.as_str())
}

/// Appends the characters of `t`.
fn push_all(out: &mut String, t: &[char])
    ensures
        final(out)@ == old(out)@ + t@,
{
    let mut i: usize = 0;
    while i < t.len()
        invariant
            i <= t.len(),
            out@ == old(out)@ + t@.take(i as int),
        decreases t.len() - i,
    {
        push_char(out, t[i]);
        assert(t@.take(i + 1) =~= t@.take(i as int).push(t@[i as int]));
        i = i + 1;
    }
    assert(t@.take(t.len() as int) =~= t@);
}

/// Shortens `text` to one row of `width` columns.
pub fn elide(text: &str, width: usize) -> (r: String)
    ensures
        r@ == elided(text@, width as int),
{
    let cs = chars_of(display_text(text).as_str());
    let mut line: Vec<char> = Vec::new();
    let mut i: usize = 0;
    while i < cs.len()
        invariant
            i <= cs.len(),
            cs@ == shown(text@),
            line@ == cs@.take(i as int).map_values(|c: char| if c == '\n' { ' ' } else { c }),
        decreases cs.len() - i,
    {
        line.push(if cs[i] == '\n' {
            ' '
        } else {
            cs[i]
        });
        assert(cs@.take(i + 1) =~= cs@.take(i as int).push(cs@[i as int]));
        i = i + 1;
    }
    assert(cs@.take(cs.len() as int) =~= cs@);
    assert(line@ =~= one_line(text@));
    let mut whole = String::new();
    push_all(&mut whole, line.as_slice());
    if text_width(whole.as_str()) <= width {
        return whole;
    }
    if width == 0 {
        return String::new();
    }
    let limit = width - 1;
    let mut used: usize = 0;
    let mut k: usize = 0;
    proof {
        lemma_fitting_bounds(line@, 0, 0, limit as int);
    }
    while k < line.len()
        invariant
            k <= line.len(),
            used <= limit,
            fitting(line@, k as int, used as int, limit as int) == fitting(line@, 0, 0, limit as int),
        ensures
            k <= line.len(),
            fitting(line@, k as int, used as int, limit as int) == fitting(line@, 0, 0, limit as int),
            k == line.len() || used + char_width(line@[k as int]) > limit,
        decreases line.len() - k,
    {
        let size = width_of_char(line[k]);
        let fits = match used.checked_add(size) {
            Some(total) => total <= limit,
            None => false,
        };
        if !fits {
            break;
        }
        used = used + size;
        k = k + 1;
    }
    let mut out = String::new();
    let mut j: usize = 0;
    while j < k
        invariant
            j <= k <= line.len(),
            out@ == line@.take(j as int),
        decreases k - j,
    {
        push_char(&mut out, line[j]);
        assert(line@.take(j + 1) =~= line@.take(j as int).push(line@[j as int]));
        j = j + 1;
    }
    push_char(&mut out, '…');
    out
}

/// The first line of a tool record's text when it reports the outcome.
pub open spec fn outcome_line(text: Seq<char>) -> Option<Seq<char>> {
    if text_lines(text).len() > 0 {
        let first = text_lines(text)[0];
        if starts_with_seq(first, "Completed"@) || starts_with_seq(first, "Failed"@) || starts_with_seq(
            first,
            "Result received"@,
        ) || first == "No result recorded"@ {
            Some(first)
        } else {
            None
        }
    } else {
        None
    }
}

/// The status shown for a tool record: its failure line (or `Failed`) when
/// it failed, else its outcome line, else the time `when` it was recorded.
pub open spec fn tool_status(e: EntryView, when: Seq<char>) -> Seq<char> {
    if failed_tool(e) {
        match outcome_line(e.text) {
            Some(l) => if starts_with_seq(l, "Failed"@) {
                l
            } else {
                "Failed"@
            },
            None => "Failed"@,
        }
    } else {
        match outcome_line(e.text) {
            Some(l) => l,
            None => when,
        }
    }
}

/// A tool's name: the session ID without its `TOOL · ` prefix.
pub open spec fn tool_name(id: Seq<char>) -> Seq<char> {
    if starts_with_seq(id, "TOOL · "@) {
        id.skip("TOOL · "@.len() as int)
    } else {
        id
    }
}

/// The label of a tool record in `width` columns: its name, what it did
/// when there is room for at least four columns of it, and its status.
pub open spec fn labelled(e: EntryView, width: int, when: Seq<char>) -> Seq<char> {
    let status = elided(tool_status(e, when), if width / 2 > 1 { width / 2 } else { 1 });
    let third = width / 3;
    let name = elided(
        tool_name(e.session_id),
        if third < 1 {
            1
        } else if third > 24 {
            24
        } else {
            third
        },
    );
    let taken = display_width(name) + display_width(status) + 8;
    let available = if width > taken { width - taken } else { 0 };
    match e.tool {
        Some(t) if t.summary.len() > 0 && available >= 4 => "▸ "@ + name + " · "@ + elided(t.summary, available)
            + " · "@ + status,
        _ => "▸ "@ + name + " · "@ + status,
    }
}

/// A text of one's own.
fn owned(t: &str) -> (r: String)
    ensures
        r@ == t@,
{
    let mut out = String::new();
    push_all(&mut out, chars_of(t).as_slice());
    out
}

/// The text `t` without its first `n` characters.
fn skip_chars(t: &[char], n: usize) -> (r: Vec<char>)
    requires
        n <= t@.len(),
    ensures
        r@ == t@.skip(n as int),
{
    let mut out: Vec<char> = Vec::new();
    let mut i = n;
    while i < t.len()
        invariant
            n <= i <= t.len(),
            out@ == t@.subrange(n as int, i as int),
        decreases t.len() - i,
    {
        out.push(t[i]);
        assert(t@.subrange(n as int, i + 1) =~= out@);
        i = i + 1;
    }
    assert(t@.subrange(n as int, t@.len() as int) =~= t@.skip(n as int));
    out
}

/// The first line of a tool record's text when it reports the outcome (see
/// `outcome_line`).
pub fn outcome(text: &str) -> (r: Option<String>)
    ensures
        match r {
            Some(l) => outcome_line(text@) == Some(l@),
            None => outcome_line(text@) is None,
        },
{
    let cs = chars_of(text);
    let lines = lines_of(cs.as_slice());
    if lines.len() > 0 {
        let mut first = String::new();
        push_all(&mut first, lines[0].as_slice());
        assert(lines@.map_values(|l: Vec<char>| l@)[0] == lines@[0]@);
        let f = first.as_str();
        if str_starts_with(f, "Completed") || str_starts_with(f, "Failed") || str_starts_with(
            f,
            "Result received",
        ) || str_equals(f, "No result recorded") {
            return Some(first);
        }
    }
    None
}

/// The row label of a tool record in `width` columns; `when` is the time
/// the record was made, shown where no outcome is recorded.
pub fn tool_label(entry: &Entry, width: usize, when: &str) -> (r: String)
    ensures
        r@ == labelled(entry@, width as int, when@),
{
    let outcome = outcome(entry.text.as_str());
    let status_text: String = if is_failed_tool(entry) {
        match outcome {
            Some(l) => if str_starts_with(l.as_str(), "Failed") {
                l
            } else {
                owned("Failed")
            },
            None => owned("Failed"),
        }
    } else {
        match outcome {
            Some(l) => l,
            None => owned(when),
        }
    };
    let half = width / 2;
    let status = elide(status_text.as_str(), if half > 1 { half } else { 1 });
    let ids = chars_of(entry.session_id.as_str());
    let bare: String = if str_starts_with(entry.session_id.as_str(), "TOOL · ") {
        let prefix = chars_of("TOOL · ");
        let mut s = String::new();
        push_all(&mut s, skip_chars(ids.as_slice(), prefix.len()).as_slice());
        s
    } else {
        entry.session_id.clone()
    };
    let third = width / 3;
    let name = elide(
        bare.as_str(),
        if third < 1 {
            1
        } else if third > 24 {
            24
        } else {
            third
        },
    );
    let taken = text_width(name.as_str()).saturating_add(text_width(status.as_str())).saturating_add(8);
    let available = width.saturating_sub(taken);
    let mut out = String::new();
    push_all(&mut out, chars_of("▸ ").as_slice());
    push_all(&mut out, chars_of(name.as_str()).as_slice());
    push_all(&mut out, chars_of(" · ").as_slice());
    match &entry.tool {
        Some(t) => {
            if chars_of(t.summary.as_str()).len() > 0 && available >= 4 {
                let action = elide(t.summary.as_str(), available);
                push_all(&mut out, chars_of(action.as_str()).as_slice());
                push_all(&mut out, chars_of(" · ").as_slice());
            }
        },
        None => {},
    }
    push_all(&mut out, chars_of(status.as_str()).as_slice());
    out
}

/// The narrowest terminal the browser draws in.
pub const MIN_WIDTH: u16 = 45;

/// The lowest terminal the browser draws in.
pub const MIN_HEIGHT: u16 = 18;

/// Whether a terminal of `width` × `height` is too small to draw in (the
/// browser then asks for a larger one).
pub fn too_small(width: u16, height: u16) -> (r: bool)
    ensures
        r == (width < MIN_WIDTH || height < MIN_HEIGHT),
{
    width < MIN_WIDTH || height < MIN_HEIGHT
}

/// Every record index below `n`, in order.
pub open spec fn all_indices(n: int) -> Seq<usize> {
    Seq::new(n as nat, |i: int| i as usize)
}

/// The number of sessions (source and session ID) among `es`.
pub open spec fn session_total(es: Seq<EntryView>) -> nat {
    session_set(es, all_indices(es.len() as int)).len()
}

/// The header's count line: records and skipped lines, with the number of
/// sessions in the prompt history.
pub open spec fn header_of(a: App) -> Seq<char> {
    let es = entry_views(a.history.entries@);
    if a.session_source is Some {
        " "@ + decimal(es.len() as int) + " messages / tool events · "@ + decimal(a.history.skipped as int)
            + " malformed lines skipped · Esc back"@
    } else {
        " "@ + decimal(es.len() as int) + " prompts · "@ + decimal(session_total(es) as int) + " sessions · "@
            + decimal(a.history.skipped as int) + " malformed lines skipped"@
    }
}

/// The header's count line of `app` (see `header_of`).
pub fn header_line(app: &App) -> (r: String)
    ensures
        r@ == header_of(*app),
{
    let len = app.history.entries.len();
    let mut text = chars_of(" ");
    extend_chars(&mut text, digits_of(len as u64).as_slice());
    if app.session_source.is_some() {
        extend_chars(&mut text, chars_of(" messages / tool events · ").as_slice());
        extend_chars(&mut text, digits_of(app.history.skipped as u64).as_slice());
        extend_chars(&mut text, chars_of(" malformed lines skipped · Esc back").as_slice());
    } else {
        let mut all: Vec<usize> = Vec::new();
        let mut i: usize = 0;
        while i < len
            invariant
                i <= len,
                len == app.history.entries.len(),
                all@ == all_indices(i as int),
            decreases len - i,
        {
            all.push(i);
            i = i + 1;
            assert(all@ =~= all_indices(i as int));
        }
        let (sessions, _) = sessions_summary(&app.history.entries, &all);
        extend_chars(&mut text, chars_of(" prompts · ").as_slice());
        extend_chars(&mut text, digits_of(sessions as u64).as_slice());
        extend_chars(&mut text, chars_of(" sessions · ").as_slice());
        extend_chars(&mut text, digits_of(app.history.skipped as u64).as_slice());
        extend_chars(&mut text, chars_of(" malformed lines skipped").as_slice());
    }
    string_of(text.as_slice())
}

/// How many of the `n` records from `first` on are failed tools.
pub open spec fn failed_from(es: Seq<EntryView>, first: int, n: int) -> nat
    decreases n,
{
    if n <= 0 {
        0
    } else {
        failed_from(es, first, n - 1) + if failed_tool(es[first + n - 1]) {
            1nat
        } else {
            0nat
        }
    }
}

/// The row of a tool group: folded (▸) or unfolded (▾), its number of
/// entries and, when there are any, of failed tools.
pub open spec fn group_row_of(es: Seq<EntryView>, first: int, end: int, expanded: bool) -> Seq<char> {
    let failed = failed_from(es, first, end - first);
    (if expanded {
        "▾"@
    } else {
        "▸"@
    }) + " Tool activity · "@ + decimal(end - first) + " entries"@ + if failed > 0 {
        " · "@ + decimal(failed as int) + " failed"@
    } else {
        Seq::empty()
    }
}

/// The row of the tool group of records `first .. end` and its number of
/// failed tools.
pub fn group_row(entries: &Vec<Entry>, first: usize, end: usize, expanded: bool) -> (r: (String, usize))
    requires
        first <= end <= entries.len(),
    ensures
        r.1 == failed_from(entry_views(entries@), first as int, end - first),
        r.0@ == group_row_of(entry_views(entries@), first as int, end as int, expanded),
{
    let ghost es = entry_views(entries@);
    let mut failed: usize = 0;
    let mut k: usize = first;
    while k < end
        invariant
            first <= k <= end <= entries.len(),
            es == entry_views(entries@),
            failed == failed_from(es, first as int, k - first),
            failed <= k - first,
        decreases end - k,
    {
        assert(es[k as int] == entries@[k as int]@);
        if is_failed_tool(&entries[k]) {
            failed = failed + 1;
        }
        k = k + 1;
    }
    let mut text = if expanded {
        chars_of("▾")
    } else {
        chars_of("▸")
    };
    extend_chars(&mut text, chars_of(" Tool activity · ").as_slice());
    extend_chars(&mut text, digits_of((end - first) as u64).as_slice());
    extend_chars(&mut text, chars_of(" entries").as_slice());
    if failed > 0 {
        extend_chars(&mut text, chars_of(" · ").as_slice());
        extend_chars(&mut text, digits_of(failed as u64).as_slice());
        extend_chars(&mut text, chars_of(" failed").as_slice());
    }
    (string_of(text.as_slice()), failed)
}

/// Whether the records come from more than one source file.
pub open spec fn several_sources(es: Seq<EntryView>) -> bool {
    exists|i: int, j: int|
        0 <= i < es.len() && 0 <= j < es.len() && #[trigger] es[i].source is Some && #[trigger] es[j].source
            is Some && es[i].source != es[j].source
}

/// Whether the records come from more than one source file.
pub fn multiple_sources(entries: &Vec<Entry>) -> (r: bool)
    ensures
        r == several_sources(entry_views(entries@)),
{
    let ghost es = entry_views(entries@);
    let mut first: Option<&String> = None;
    let mut k: usize = 0;
    while k < entries.len()
        invariant
            k <= entries.len(),
            es == entry_views(entries@),
            match first {
                None => forall|i: int| 0 <= i < k ==> es[i].source is None,
                Some(f) => exists|w: int| 0 <= w < k && es[w].source == Some(f@),
            },
            match first {
                None => true,
                Some(f) => forall|i: int| 0 <= i < k && es[i].source is Some ==> es[i].source == Some(f@),
            },
        decreases entries.len() - k,
    {
        assert(es[k as int] == entries@[k as int]@);
        if let Some(s) = &entries[k].source {
            match first {
                None => {
                    first = Some(s);
                },
                Some(f) => {
                    if !str_equals(f.as_str(), s.as_str()) {
                        proof {
                            let w = choose|w: int| 0 <= w < k && es[w].source == Some(f@);
                            assert(es[w].source is Some && es[k as int].source is Some);
                        }
                        return true;
                    }
                },
            }
        }
        k = k + 1;
    }
    proof {
        assert forall|i: int, j: int|
            0 <= i < es.len() && 0 <= j < es.len() && #[trigger] es[i].source is Some
                && #[trigger] es[j].source is Some implies es[i].source == es[j].source by {}
    }
    false
}

/// The session label of a record's row: its role in a timeline; else the
/// first eight characters of its session ID, after the source's name when
/// there are several sources.
pub open spec fn row_label_of(e: EntryView, transcript: bool, several: bool) -> Seq<char> {
    if transcript {
        e.session_id
    } else if several {
        let name = match e.source {
            Some(p) => source_label(p),
            None => Seq::empty(),
        };
        name + " · "@ + first_eight(e.session_id)
    } else {
        first_eight(e.session_id)
    }
}

/// The session label of `entry`'s row (see `row_label_of`).
pub fn row_label(entry: &Entry, transcript: bool, several: bool) -> (r: String)
    ensures
        r@ == row_label_of(entry@, transcript, several),
{
    if transcript {
        return entry.session_id.clone();
    }
    let all = chars_of(entry.session_id.as_str());
    let id = if all.len() <= 8 {
        all
    } else {
        crate::text::slice_of(all.as_slice(), 0, 8)
    };
    if !several {
        return string_of(id.as_slice());
    }
    let mut text = match &entry.source {
        Some(p) => chars_of(source_name(p.as_str()).as_str()),
        None => Vec::new(),
    };
    extend_chars(&mut text, chars_of(" · ").as_slice());
    extend_chars(&mut text, id.as_slice());
    string_of(text.as_slice())
}

/// How many characters at the end of `t` fit in `limit` columns, `k` being
/// taken with `used` columns: counting back, it stops at the first that
/// does not fit.
pub open spec fn fitting_back(t: Seq<char>, k: int, used: int, limit: int) -> int
    decreases t.len() - k,
{
    if k < 0 || k >= t.len() || used + char_width(t[t.len() - 1 - k]) > limit {
        k
    } else {
        fitting_back(t, k + 1, used + char_width(t[t.len() - 1 - k]), limit)
    }
}

/// The end of the query's text, as shown, that fits in `limit` columns, so
/// that the caret end of a long query stays in view.
pub open spec fn tail_of(query: Seq<char>, limit: int) -> Seq<char> {
    let t = shown(query);
    t.subrange(t.len() - fitting_back(t, 0, 0, limit), t.len() as int)
}

/// The shown end of `query` that fits in `limit` columns (see `tail_of`).
pub fn query_tail(query: &str, limit: usize) -> (r: String)
    ensures
        r@ == tail_of(query@, limit as int),
{
    let text = chars_of(display_text(query).as_str());
    let ghost t = text@;
    let mut used: usize = 0;
    let mut k: usize = 0;
    let mut stop = false;
    while k < text.len() && !stop
        invariant
            k <= text.len(),
            t == text@,
            used <= limit,
            fitting_back(t, 0, 0, limit as int) == fitting_back(t, k as int, used as int, limit as int),
            stop ==> fitting_back(t, k as int, used as int, limit as int) == k,
        decreases text.len() - k, if stop { 0int } else { 1int },
    {
        let c = text[text.len() - 1 - k];
        let mut one = String::new();
        push_char(&mut one, c);
        let w = text_width(one.as_str());
        assert(one@ =~= seq![c]);
        assert(w == char_width(t[t.len() - 1 - k]));
        if w > limit - used {
            stop = true;
        } else {
            used = used + w;
            k = k + 1;
        }
    }
    let tail = crate::text::slice_of(text.as_slice(), text.len() - k, text.len());
    string_of(tail.as_slice())
}

/// The number of records on each of the last 30 local days ending `today`
/// (oldest first), `days` being the records' local days.
pub open spec fn recent_of(days: Seq<Option<i64>>, today: i64) -> Seq<u64> {
    Seq::new(30, |k: int| day_hits(days, today - 29 + k) as u64)
}

/// How many records of `entries` listed at `visible` fall on each of the
/// last 30 local days ending `today`, oldest first. The records' local days
/// come from the machine's zone; whatever they are, within one of each
/// record's UTC day, the counts tally them.
pub fn recent_counts(entries: &Vec<Entry>, visible: &Vec<usize>, today: i64) -> (r: Vec<u64>)
    requires
        forall|p: int| 0 <= p < visible.len() ==> #[trigger] visible@[p] < entries.len(),
        i64::MIN + 29 <= today,
    ensures
        exists|ds: Seq<Option<i64>>|
            ds.len() == visible.len() && (forall|p: int|
                0 <= p < visible.len() ==> local_day_of(entries@[visible@[p] as int].ts, #[trigger] ds[p]))
                && r@ == #[trigger] recent_of(ds, today),
{
    let mut days: Vec<Option<i64>> = Vec::new();
    let mut p: usize = 0;
    while p < visible.len()
        invariant
            p <= visible.len(),
            days@.len() == p,
            forall|q: int| 0 <= q < visible.len() ==> #[trigger] visible@[q] < entries.len(),
            forall|q: int| 0 <= q < p ==> local_day_of(entries@[visible@[q] as int].ts, #[trigger] days@[q]),
        decreases visible.len() - p,
    {
        days.push(local_date(entries[visible[p]].ts));
        p = p + 1;
    }
    let mut counts: Vec<u64> = Vec::new();
    let mut k: i64 = 0;
    while k < 30
        invariant
            0 <= k <= 30,
            i64::MIN + 29 <= today,
            counts@.len() == k,
            forall|j: int| 0 <= j < k ==> #[trigger] counts@[j] == day_hits(days@, today - 29 + j) as u64,
        decreases 30 - k,
    {
        let day = today - 29 + k;
        let mut n: u64 = 0;
        let mut q: usize = 0;
        while q < days.len()
            invariant
                q <= days.len(),
                n as int == day_hits(days@.take(q as int), day as int),
                n <= q,
            decreases days.len() - q,
        {
            assert(days@.take(q + 1).drop_last() =~= days@.take(q as int));
            if days[q] == Some(day) {
                n = n + 1;
            }
            q = q + 1;
        }
        assert(days@.take(days.len() as int) =~= days@);
        counts.push(n);
        k = k + 1;
    }
    assert(counts@ =~= recent_of(days@, today));
    counts
}

/// `counts` spread over `width` columns: column `c` shows the count at
/// `c * counts.len() / width`.
pub open spec fn spread_of(counts: Seq<u64>, width: int) -> Seq<u64> {
    Seq::new(width as nat, |c: int| counts[c * counts.len() / width])
}

/// `counts` spread over `width` columns, each day repeated across its
/// share of them.
pub fn spread(counts: &Vec<u64>, width: usize) -> (r: Vec<u64>)
    requires
        counts.len() > 0,
        width * counts.len() <= usize::MAX,
    ensures
        r@ == spread_of(counts@, width as int),
{
    let n = counts.len();
    let mut out: Vec<u64> = Vec::new();
    let mut c: usize = 0;
    while c < width
        invariant
            c <= width,
            n == counts.len(),
            n > 0,
            width * n <= usize::MAX,
            out@.len() == c,
            forall|j: int| 0 <= j < c ==> #[trigger] out@[j] == counts@[j * n / width as int],
        decreases width - c,
    {
        assert(c * n <= width * n) by (nonlinear_arith)
            requires
                c < width,
                n > 0,
        ;
        assert(c * n / (width as int) < n) by (nonlinear_arith)
            requires
                c < width,
                n > 0,
        ;
        let at = c * n / width;
        out.push(counts[at]);
        c = c + 1;
    }
    assert(out@ =~= spread_of(counts@, width as int));
    out
}

} // verus!
