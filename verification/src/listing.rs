//! Ordering of the record list, and the side panels that describe it.
use crate::activity::{days_before, local_day_of, range_total, tallied, today, window_start, Activity};
use crate::app::{failed_tool, is_failed_tool};
use crate::history::{entry_views, opt_text, Entry, EntryView};
use crate::text::{starts_with_seq, str_equals, str_starts_with};
use crate::sort::{
    index_order, key_rows, lemma_lex_refl, lemma_lex_total, lemma_lex_trans, lemma_sorted_indices_unique, lex_le,
    lex_le_rows, sort_indices,
};
use vstd::prelude::*;
use vstd::relations::sorted_by;

verus! {

broadcast use vstd::seq_lib::group_to_multiset_ensures;

/// How the record list is ordered.
#[derive(Clone, Copy, Debug, PartialEq, Eq, Structural)]
pub enum Sort {
    /// Newest records first.
    Time,
    /// Sessions by their latest record, newest session first.
    SessionRecent,
    /// Sessions by their number of records, largest first.
    SessionCount,
}

impl Default for Sort {
    fn default() -> (r: Self)
        ensures
            r == Sort::Time,
    {
        Sort::Time
    }
}

/// The session of a record: its source and its session ID.
pub open spec fn session_key(e: EntryView) -> (Option<Seq<char>>, Seq<char>) {
    (e.source, e.session_id)
}

/// How many of the first `n` listed records belong to session `key`.
pub open spec fn session_count(
    es: Seq<EntryView>,
    list: Seq<usize>,
    key: (Option<Seq<char>>, Seq<char>),
    n: int,
) -> nat
    decreases n,
{
    if n <= 0 {
        0
    } else {
        session_count(es, list, key, n - 1) + if session_key(es[list[n - 1] as int]) == key {
            1nat
        } else {
            0nat
        }
    }
}

/// The latest time among the first `n` listed records of session `key`.
pub open spec fn session_latest(
    es: Seq<EntryView>,
    list: Seq<usize>,
    key: (Option<Seq<char>>, Seq<char>),
    n: int,
) -> Option<i64>
    decreases n,
{
    if n <= 0 {
        None
    } else {
        let before = session_latest(es, list, key, n - 1);
        let e = es[list[n - 1] as int];
        if session_key(e) == key {
            match before {
                Some(t) => Some(if t < e.ts {
                    e.ts
                } else {
                    t
                }),
                None => Some(e.ts),
            }
        } else {
            before
        }
    }
}

/// A text as sort keys, in character order, closed by a key below every
/// character.
pub open spec fn text_code(s: Seq<char>) -> Seq<i128> {
    s.map_values(|c: char| c as i128).push(-1i128)
}

/// A path as sort keys: separators come before every other character, so
/// that normalized paths order component by component.
pub open spec fn path_code(s: Option<Seq<char>>) -> Seq<i128> {
    match s {
        None => seq![0i128],
        Some(p) => seq![1i128] + p.map_values(
            |c: char|
                if c == '/' {
                    -1i128
                } else {
                    c as i128
                },
        ).push(-2i128),
    }
}

/// The sort keys of record `i` among the listed records: newest first in
/// time order; in session orders, by session (latest record, or size then
/// latest record), then by source and session ID, then newest first.
pub open spec fn sort_row(es: Seq<EntryView>, list: Seq<usize>, mode: Sort, i: int) -> Seq<i128> {
    let e = es[i];
    let key = session_key(e);
    let count = session_count(es, list, key, list.len() as int);
    let latest = match session_latest(es, list, key, list.len() as int) {
        Some(t) => t,
        None => e.ts,
    };
    let time = seq![(0 - e.ts) as i128];
    let group = path_code(e.source) + text_code(e.session_id);
    match mode {
        Sort::Time => time,
        Sort::SessionRecent => seq![(0 - latest) as i128] + group + time,
        Sort::SessionCount => seq![(0 - count) as i128, (0 - latest) as i128] + group + time,
    }
}

/// The sort keys of all records.
pub open spec fn sort_rows(es: Seq<EntryView>, list: Seq<usize>, mode: Sort) -> Seq<Seq<i128>> {
    Seq::new(es.len(), |i: int| sort_row(es, list, mode, i))
}

/// Whether two optional texts are equal.
fn same_source(a: &Option<String>, b: &Option<String>) -> (r: bool)
    ensures
        r == (opt_text(*a) == opt_text(*b)),
{
    match (a, b) {
        (Some(x), Some(y)) => *x == *y,
        (None, None) => true,
        _ => false,
    }
}

/// The sessions among listed records: key, count and latest time.
pub open spec fn groups_view(gs: Seq<(Option<String>, String, usize, i64)>) -> Seq<
    ((Option<Seq<char>>, Seq<char>), nat, i64),
> {
    gs.map_values(
        |g: (Option<String>, String, usize, i64)| ((opt_text(g.0), g.1@), g.2 as nat, g.3),
    )
}

/// The first group with session `key`, from `from` on.
pub open spec fn group_of(
    gs: Seq<((Option<Seq<char>>, Seq<char>), nat, i64)>,
    key: (Option<Seq<char>>, Seq<char>),
    from: int,
) -> Option<int>
    decreases gs.len() - from,
{
    if from < 0 || from >= gs.len() {
        None
    } else if gs[from].0 == key {
        Some(from)
    } else {
        group_of(gs, key, from + 1)
    }
}

proof fn lemma_group_of_bounds(
    gs: Seq<((Option<Seq<char>>, Seq<char>), nat, i64)>,
    key: (Option<Seq<char>>, Seq<char>),
    from: int,
)
    requires
        0 <= from,
    ensures
        match group_of(gs, key, from) {
            Some(g) => from <= g < gs.len() && gs[g].0 == key,
            None => forall|g: int| from <= g < gs.len() ==> gs[g].0 != key,
        },
    decreases gs.len() - from,
{
    if 0 <= from < gs.len() && gs[from].0 != key {
        lemma_group_of_bounds(gs, key, from + 1);
    }
}

proof fn lemma_group_of_first(
    gs: Seq<((Option<Seq<char>>, Seq<char>), nat, i64)>,
    key: (Option<Seq<char>>, Seq<char>),
    from: int,
    g: int,
)
    requires
        0 <= from <= g < gs.len(),
        gs[g].0 == key,
        forall|h: int| from <= h < g ==> gs[h].0 != key,
    ensures
        group_of(gs, key, from) == Some(g),
    decreases g - from,
{
    if from < g {
        lemma_group_of_first(gs, key, from + 1, g);
    }
}

/// Whether the group table is right about the first `n` listed records.
pub open spec fn groups_right(
    es: Seq<EntryView>,
    list: Seq<usize>,
    gs: Seq<((Option<Seq<char>>, Seq<char>), nat, i64)>,
    n: int,
) -> bool {
    &&& forall|a: int, b: int| 0 <= a < b < gs.len() ==> #[trigger] gs[a].0 != #[trigger] gs[b].0
    &&& forall|g: int|
        0 <= g < gs.len() ==> #[trigger] gs[g].1 == session_count(es, list, gs[g].0, n)
            && session_latest(es, list, gs[g].0, n) == Some(gs[g].2)
    &&& forall|key: (Option<Seq<char>>, Seq<char>)|
        #[trigger] group_of(gs, key, 0) is None ==> session_count(es, list, key, n) == 0
            && session_latest(es, list, key, n) is None
}

/// Where a session's group is in the table.
fn find_group(gs: &Vec<(Option<String>, String, usize, i64)>, source: &Option<String>, id: &String) -> (r: Option<usize>)
    ensures
        match r {
            Some(g) => group_of(groups_view(gs@), (opt_text(*source), id@), 0) == Some(g as int)
                && g < gs.len(),
            None => group_of(groups_view(gs@), (opt_text(*source), id@), 0) is None,
        },
{
    let ghost v = groups_view(gs@);
    let ghost key = (opt_text(*source), id@);
    proof {
        lemma_group_of_bounds(v, key, 0);
    }
    let mut g: usize = 0;
    while g < gs.len()
        invariant
            g <= gs.len(),
            v == groups_view(gs@),
            key == (opt_text(*source), id@),
            group_of(v, key, 0) == group_of(v, key, g as int),
        decreases gs.len() - g,
    {
        let ss = same_source(&gs[g].0, source);
        let si = gs[g].1 == *id;
        assert(v[g as int] == ((opt_text(gs@[g as int].0), gs@[g as int].1@), gs@[g as int].2 as nat, gs@[g as int].3));
        assert(ss == (opt_text(gs@[g as int].0) == opt_text(*source)));
        assert(si == (gs@[g as int].1@ == id@));
        if ss && si {
            assert(v[g as int].0 == key);
            return Some(g);
        }
        assert(v[g as int].0 != key);
        g = g + 1;
    }
    None
}

/// The sessions of the listed records, with their sizes and latest times.
fn session_groups(entries: &Vec<Entry>, list: &Vec<usize>) -> (r: Vec<(Option<String>, String, usize, i64)>)
    requires
        forall|p: int| 0 <= p < list.len() ==> #[trigger] list@[p] < entries.len(),
    ensures
        groups_right(entry_views(entries@), list@, groups_view(r@), list.len() as int),
{
    let ghost es = entry_views(entries@);
    let mut gs: Vec<(Option<String>, String, usize, i64)> = Vec::new();
    let mut p: usize = 0;
    while p < list.len()
        invariant
            p <= list.len(),
            es == entry_views(entries@),
            forall|q: int| 0 <= q < list.len() ==> #[trigger] list@[q] < entries.len(),
            groups_right(es, list@, groups_view(gs@), p as int),
            forall|g: int| 0 <= g < gs.len() ==> #[trigger] gs@[g].2 <= p,
        decreases list.len() - p,
    {
        let e = &entries[list[p]];
        let ghost key = session_key(e@);
        let ghost old_v = groups_view(gs@);
        assert(es[list@[p as int] as int] == e@);
        match find_group(&gs, &e.source, &e.session_id) {
            Some(g) => {
                proof {
                    lemma_group_of_bounds(old_v, key, 0);
                }
                assert(old_v[g as int] == ((opt_text(gs@[g as int].0), gs@[g as int].1@), gs@[g as int].2 as nat, gs@[g as int].3));
                let (src, id, count, latest) = (
                    crate::history::copy_opt_string(&gs[g].0),
                    gs[g].1.clone(),
                    gs[g].2,
                    gs[g].3,
                );
                let next = if latest < e.ts {
                    e.ts
                } else {
                    latest
                };
                gs.set(g, (src, id, count + 1, next));
                let ghost v = groups_view(gs@);
                assert(v =~= old_v.update(g as int, (key, (count + 1) as nat, next)));
                assert forall|a: int, b: int| 0 <= a < b < v.len() implies #[trigger] v[a].0
                    != #[trigger] v[b].0 by {
                    assert(old_v[a].0 != old_v[b].0);
                }
                assert forall|h: int| 0 <= h < v.len() implies #[trigger] v[h].1 == session_count(
                    es,
                    list@,
                    v[h].0,
                    p + 1,
                ) && session_latest(es, list@, v[h].0, p + 1) == Some(v[h].2) by {
                    assert(old_v[h].1 == session_count(es, list@, old_v[h].0, p as int));
                    if h != g {
                        assert(old_v[h].0 != old_v[g as int].0);
                    }
                }
                assert forall|k: (Option<Seq<char>>, Seq<char>)| #[trigger] group_of(v, k, 0) is None implies session_count(
                    es,
                    list@,
                    k,
                    p + 1,
                ) == 0 && session_latest(es, list@, k, p + 1) is None by {
                    lemma_group_of_bounds(v, k, 0);
                    lemma_group_of_bounds(old_v, k, 0);
                    if group_of(old_v, k, 0) is Some {
                        let h = group_of(old_v, k, 0)->0;
                        assert(v[h].0 == k);
                    }
                }
            },
            None => {
                gs.push((crate::history::copy_opt_string(&e.source), e.session_id.clone(), 1, e.ts));
                let ghost v = groups_view(gs@);
                assert(v =~= old_v.push((key, 1nat, e.ts)));
                proof {
                    lemma_group_of_bounds(old_v, key, 0);
                }
                assert forall|a: int, b: int| 0 <= a < b < v.len() implies #[trigger] v[a].0
                    != #[trigger] v[b].0 by {
                    if b == v.len() - 1 {
                        assert(old_v[a].0 != key);
                    } else {
                        assert(old_v[a].0 != old_v[b].0);
                    }
                }
                assert forall|h: int| 0 <= h < v.len() implies #[trigger] v[h].1 == session_count(
                    es,
                    list@,
                    v[h].0,
                    p + 1,
                ) && session_latest(es, list@, v[h].0, p + 1) == Some(v[h].2) by {
                    if h < old_v.len() {
                        assert(old_v[h].1 == session_count(es, list@, old_v[h].0, p as int));
                        assert(old_v[h].0 != key);
                    }
                }
                assert forall|k: (Option<Seq<char>>, Seq<char>)| #[trigger] group_of(v, k, 0) is None implies session_count(
                    es,
                    list@,
                    k,
                    p + 1,
                ) == 0 && session_latest(es, list@, k, p + 1) is None by {
                    lemma_group_of_bounds(v, k, 0);
                    lemma_group_of_bounds(old_v, k, 0);
                    if group_of(old_v, k, 0) is Some {
                        let h = group_of(old_v, k, 0)->0;
                        assert(v[h].0 == k);
                    }
                    assert(v[v.len() - 1].0 == key);
                }
            },
        }
        p = p + 1;
    }
    gs
}

/// A text as sort keys.
fn push_text_code(row: &mut Vec<i128>, s: &str, separators_first: bool)
    ensures
        final(row)@ == old(row)@ + if separators_first {
            s@.map_values(
                |c: char|
                    if c == '/' {
                        -1i128
                    } else {
                        c as i128
                    },
            ).push(-2i128)
        } else {
            text_code(s@)
        },
{
    let cs = crate::text::chars_of(s);
    let ghost start = row@;
    let mut i: usize = 0;
    while i < cs.len()
        invariant
            i <= cs.len(),
            cs@ == s@,
            row@ =~= start + cs@.take(i as int).map_values(
                |c: char|
                    if separators_first && c == '/' {
                        -1i128
                    } else {
                        c as i128
                    },
            ),
        decreases cs.len() - i,
    {
        let c = cs[i];
        let code: i128 = if separators_first && c == '/' {
            -1
        } else {
            c as i128
        };
        row.push(code);
        assert(cs@.take(i + 1) =~= cs@.take(i as int).push(c));
        i = i + 1;
    }
    assert(cs@.take(cs.len() as int) =~= cs@);
    if separators_first {
        row.push(-2);
    } else {
        row.push(-1);
    }
}

/// The latest time of session `key` after `before`, once record `e` is
/// counted too.
pub open spec fn latest_with(before: Option<i64>, e: EntryView, key: (Option<Seq<char>>, Seq<char>)) -> Option<i64> {
    if session_key(e) == key {
        match before {
            Some(t) => Some(if t < e.ts {
                e.ts
            } else {
                t
            }),
            None => Some(e.ts),
        }
    } else {
        before
    }
}

proof fn lemma_session_prefix(
    es: Seq<EntryView>,
    a: Seq<usize>,
    b: Seq<usize>,
    key: (Option<Seq<char>>, Seq<char>),
    n: int,
)
    requires
        0 <= n <= a.len(),
        n <= b.len(),
        forall|k: int| 0 <= k < n ==> a[k] == b[k],
    ensures
        session_count(es, a, key, n) == session_count(es, b, key, n),
        session_latest(es, a, key, n) == session_latest(es, b, key, n),
    decreases n,
{
    if n > 0 {
        lemma_session_prefix(es, a, b, key, n - 1);
        assert(a[n - 1] == b[n - 1]);
    }
}

proof fn lemma_session_remove(
    es: Seq<EntryView>,
    list: Seq<usize>,
    j: int,
    key: (Option<Seq<char>>, Seq<char>),
    n: int,
)
    requires
        0 <= j < n <= list.len(),
    ensures
        session_count(es, list, key, n) == session_count(es, list.remove(j), key, n - 1) + if session_key(
            es[list[j] as int],
        ) == key {
            1nat
        } else {
            0nat
        },
        session_latest(es, list, key, n) == latest_with(
            session_latest(es, list.remove(j), key, n - 1),
            es[list[j] as int],
            key,
        ),
    decreases n,
{
    let rest = list.remove(j);
    if n == j + 1 {
        assert forall|k: int| 0 <= k < j implies list[k] == rest[k] by {}
        lemma_session_prefix(es, list, rest, key, j);
    } else {
        lemma_session_remove(es, list, j, key, n - 1);
        assert(rest[n - 2] == list[n - 1]);
        let x = es[list[n - 1] as int];
        let y = es[list[j] as int];
        let before = session_latest(es, rest, key, n - 2);
        assert(latest_with(latest_with(before, y, key), x, key) == latest_with(
            latest_with(before, x, key),
            y,
            key,
        ));
    }
}

proof fn lemma_sessions_ignore_order(
    es: Seq<EntryView>,
    a: Seq<usize>,
    b: Seq<usize>,
    key: (Option<Seq<char>>, Seq<char>),
)
    requires
        a.to_multiset() == b.to_multiset(),
    ensures
        session_count(es, a, key, a.len() as int) == session_count(es, b, key, b.len() as int),
        session_latest(es, a, key, a.len() as int) == session_latest(es, b, key, b.len() as int),
    decreases a.len(),
{
    broadcast use vstd::seq_lib::group_to_multiset_ensures;

    a.to_multiset_ensures();
    b.to_multiset_ensures();
    assert(a.len() == b.len());
    if a.len() > 0 {
        let i = a.len() - 1;
        let x = a[i];
        assert(a.contains(x));
        assert(b.to_multiset().count(x) > 0);
        assert(b.contains(x));
        let j = choose|j: int| 0 <= j < b.len() && b[j] == x;
        let ra = a.remove(i);
        let rb = b.remove(j);
        vstd::seq_lib::to_multiset_remove(a, i);
        vstd::seq_lib::to_multiset_remove(b, j);
        assert(ra.to_multiset() == a.to_multiset().remove(x));
        assert(rb.to_multiset() == b.to_multiset().remove(x));
        lemma_sessions_ignore_order(es, ra, rb, key);
        lemma_session_remove(es, a, i, key, a.len() as int);
        lemma_session_remove(es, b, j, key, b.len() as int);
    }
}

/// Law: the sort keys of the records depend only on which records are
/// listed, not on the order they are listed in.
pub proof fn lemma_sort_rows_ignore_order(es: Seq<EntryView>, a: Seq<usize>, b: Seq<usize>, mode: Sort)
    requires
        a.to_multiset() == b.to_multiset(),
    ensures
        sort_rows(es, a, mode) == sort_rows(es, b, mode),
{
    assert forall|i: int| 0 <= i < es.len() implies sort_row(es, a, mode, i) == sort_row(es, b, mode, i) by {
        lemma_sessions_ignore_order(es, a, b, session_key(es[i]));
    }
    assert(sort_rows(es, a, mode) =~= sort_rows(es, b, mode));
}

/// Law: `sort` gives the same order for every ordering of the same listed
/// records: results `r1` and `r2` that meet its contract for inputs `a` and
/// `b` holding the same indices are equal.
pub proof fn lemma_sort_ignores_input_order(
    es: Seq<EntryView>,
    a: Seq<usize>,
    b: Seq<usize>,
    mode: Sort,
    r1: Seq<usize>,
    r2: Seq<usize>,
)
    requires
        a.to_multiset() == b.to_multiset(),
        sorted_by(r1, index_order(sort_rows(es, a, mode))),
        r1.to_multiset() == a.to_multiset(),
        sorted_by(r2, index_order(sort_rows(es, b, mode))),
        r2.to_multiset() == b.to_multiset(),
    ensures
        r1 == r2,
{
    lemma_sort_rows_ignore_order(es, a, b, mode);
    lemma_sorted_indices_unique(r1, r2, sort_rows(es, a, mode));
}

/// Orders the listed record indices `indices` of `entries` by `mode`.
pub fn sort(entries: &Vec<Entry>, indices: &mut Vec<usize>, mode: Sort)
    requires
        forall|p: int| 0 <= p < old(indices).len() ==> #[trigger] old(indices)@[p] < entries.len(),
    ensures
        sorted_by(final(indices)@, index_order(sort_rows(entry_views(entries@), old(indices)@, mode))),
        final(indices)@.to_multiset() == old(indices)@.to_multiset(),
        final(indices)@.len() == old(indices)@.len(),
{
    let ghost es = entry_views(entries@);
    let ghost list = indices@;
    let gs = session_groups(entries, indices);
    let ghost gv = groups_view(gs@);
    let mut rows: Vec<Vec<i128>> = Vec::new();
    let mut i: usize = 0;
    while i < entries.len()
        invariant
            i <= entries.len(),
            es == entry_views(entries@),
            list == indices@,
            gv == groups_view(gs@),
            groups_right(es, list, gv, list.len() as int),
            rows@.len() == i,
            forall|k: int| 0 <= k < i ==> #[trigger] rows@[k]@ == sort_row(es, list, mode, k),
        decreases entries.len() - i,
    {
        let e = &entries[i];
        assert(es[i as int] == e@);
        let ghost key = session_key(e@);
        let found = find_group(&gs, &e.source, &e.session_id);
        assert(key == (opt_text(e.source), e.session_id@));
        let (count, latest): (usize, i64) = match found {
            Some(g) => {
                proof {
                    lemma_group_of_bounds(gv, key, 0);
                }
                assert(gv[g as int] == ((opt_text(gs@[g as int].0), gs@[g as int].1@), gs@[g as int].2 as nat, gs@[g as int].3));
                assert(gv[g as int].0 == key);
                assert(gv[g as int].1 == session_count(es, list, key, list.len() as int));
                (gs[g].2, gs[g].3)
            },
            None => {
                assert(group_of(gv, key, 0) is None);
                (0, e.ts)
            },
        };
        assert(count == session_count(es, list, key, list.len() as int));
        assert(latest == match session_latest(es, list, key, list.len() as int) {
            Some(t) => t,
            None => e.ts,
        });
        let mut row: Vec<i128> = Vec::new();
        match mode {
            Sort::Time => {},
            Sort::SessionRecent => {
                row.push(0 - (latest as i128));
            },
            Sort::SessionCount => {
                row.push(0 - (count as i128));
                row.push(0 - (latest as i128));
            },
        }
        let ghost head = row@;
        match mode {
            Sort::Time => {},
            _ => {
                match &e.source {
                    None => row.push(0),
                    Some(p) => {
                        row.push(1);
                        push_text_code(&mut row, p.as_str(), true);
                    },
                }
                push_text_code(&mut row, e.session_id.as_str(), false);
            },
        }
        row.push(0 - (e.ts as i128));
        proof {
            match mode {
                Sort::Time => {
                    assert(row@ =~= sort_row(es, list, mode, i as int));
                },
                _ => {
                    assert(row@ =~= head + path_code(e@.source) + text_code(e@.session_id) + seq![
                        (0 - e.ts) as i128,
                    ]);
                    assert(row@ =~= sort_row(es, list, mode, i as int));
                },
            }
        }
        rows.push(row);
        i = i + 1;
    }
    assert(key_rows(rows@) =~= sort_rows(es, list, mode));
    let mut copy: Vec<usize> = Vec::new();
    let mut j: usize = 0;
    while j < indices.len()
        invariant
            j <= indices.len(),
            list == indices@,
            copy@ =~= list.take(j as int),
        decreases indices.len() - j,
    {
        copy.push(indices[j]);
        j = j + 1;
    }
    assert(list.take(list.len() as int) =~= list);
    *indices = sort_indices(copy, &rows);
}

/// What a side panel shows.
pub enum PanelKind {
    /// The list orderings to choose from.
    Order,
    /// The history sources, each with its number of records.
    Sources(Vec<(Option<String>, usize)>),
    /// Statistics of the listed records.
    Stats,
}

/// A side panel: its content, the selected row and its scrolling.
pub struct Panel {
    pub kind: PanelKind,
    pub selected: usize,
    pub scroll: usize,
    pub max_scroll: usize,
    pub page: usize,
}

impl Panel {
    /// A panel showing `kind` with row `selected` chosen, not yet scrolled.
    pub fn new(kind: PanelKind, selected: usize) -> (r: Panel)
        ensures
            r.kind == kind,
            r.selected == selected,
            r.scroll == 0,
            r.max_scroll == 0,
            r.page == 1,
    {
        Panel { kind, selected, scroll: 0, max_scroll: 0, page: 1 }
    }
}

/// The listed records, in list order.
pub open spec fn chosen(es: Seq<EntryView>, list: Seq<usize>) -> Seq<EntryView> {
    list.map_values(|i: usize| es[i as int])
}

/// How many records of `s` satisfy `f`.
pub open spec fn tally(s: Seq<EntryView>, f: spec_fn(EntryView) -> bool) -> nat
    decreases s.len(),
{
    if s.len() == 0 {
        0
    } else {
        tally(s.drop_last(), f) + if f(s.last()) {
            1nat
        } else {
            0nat
        }
    }
}

/// The earliest time in `s`.
pub open spec fn earliest(s: Seq<EntryView>) -> Option<i64>
    decreases s.len(),
{
    if s.len() == 0 {
        None
    } else {
        match earliest(s.drop_last()) {
            Some(t) => Some(if s.last().ts < t {
                s.last().ts
            } else {
                t
            }),
            None => Some(s.last().ts),
        }
    }
}

/// The latest time in `s`.
pub open spec fn latest(s: Seq<EntryView>) -> Option<i64>
    decreases s.len(),
{
    if s.len() == 0 {
        None
    } else {
        match latest(s.drop_last()) {
            Some(t) => Some(if s.last().ts > t {
                s.last().ts
            } else {
                t
            }),
            None => Some(s.last().ts),
        }
    }
}

/// A user message of a session timeline.
pub open spec fn user_record(e: EntryView) -> bool {
    e.session_id == "USER"@
}

/// An assistant message of a session timeline.
pub open spec fn assistant_record(e: EntryView) -> bool {
    e.session_id == "ASSISTANT"@
}

/// A tool call of a session timeline.
pub open spec fn call_record(e: EntryView) -> bool {
    starts_with_seq(e.session_id, "TOOL ·"@)
}

/// A tool result of a session timeline.
pub open spec fn result_record(e: EntryView) -> bool {
    starts_with_seq(e.session_id, "RESULT ·"@)
}

/// Counts of the listed records: users, assistants, calls, results,
/// failures, earliest and latest time.
fn role_counts(entries: &Vec<Entry>, indices: &Vec<usize>) -> (r: (
    usize,
    usize,
    usize,
    usize,
    usize,
    Option<i64>,
    Option<i64>,
))
    requires
        forall|p: int| 0 <= p < indices.len() ==> #[trigger] indices@[p] < entries.len(),
    ensures
        ({
            let ch = chosen(entry_views(entries@), indices@);
            &&& r.0 == tally(ch, |e: EntryView| user_record(e))
            &&& r.1 == tally(ch, |e: EntryView| assistant_record(e))
            &&& r.2 == tally(ch, |e: EntryView| call_record(e))
            &&& r.3 == tally(ch, |e: EntryView| result_record(e))
            &&& r.4 == tally(ch, |e: EntryView| failed_tool(e))
            &&& r.5 == earliest(ch)
            &&& r.6 == latest(ch)
        }),
{
    let ghost ch = chosen(entry_views(entries@), indices@);
    let mut users: usize = 0;
    let mut assistants: usize = 0;
    let mut calls: usize = 0;
    let mut results: usize = 0;
    let mut failures: usize = 0;
    let mut first: Option<i64> = None;
    let mut last: Option<i64> = None;
    let mut p: usize = 0;
    assert(ch.take(0) =~= Seq::<EntryView>::empty());
    while p < indices.len()
        invariant
            p <= indices.len(),
            ch == chosen(entry_views(entries@), indices@),
            forall|q: int| 0 <= q < indices.len() ==> #[trigger] indices@[q] < entries.len(),
            users == tally(ch.take(p as int), |e: EntryView| user_record(e)),
            assistants == tally(ch.take(p as int), |e: EntryView| assistant_record(e)),
            calls == tally(ch.take(p as int), |e: EntryView| call_record(e)),
            results == tally(ch.take(p as int), |e: EntryView| result_record(e)),
            failures == tally(ch.take(p as int), |e: EntryView| failed_tool(e)),
            users <= p && assistants <= p && calls <= p && results <= p && failures <= p,
            first == earliest(ch.take(p as int)),
            last == latest(ch.take(p as int)),
        decreases indices.len() - p,
    {
        let e = &entries[indices[p]];
        assert(ch[p as int] == e@);
        assert(ch.take(p + 1).drop_last() =~= ch.take(p as int));
        assert(ch.take(p + 1).last() == e@);
        if str_equals(e.session_id.as_str(), "USER") {
            users = users + 1;
        }
        if str_equals(e.session_id.as_str(), "ASSISTANT") {
            assistants = assistants + 1;
        }
        if str_starts_with(e.session_id.as_str(), "TOOL ·") {
            calls = calls + 1;
        }
        if str_starts_with(e.session_id.as_str(), "RESULT ·") {
            results = results + 1;
        }
        if is_failed_tool(e) {
            failures = failures + 1;
        }
        first = match first {
            Some(t) => Some(if e.ts < t {
                e.ts
            } else {
                t
            }),
            None => Some(e.ts),
        };
        last = match last {
            Some(t) => Some(if e.ts > t {
                e.ts
            } else {
                t
            }),
            None => Some(e.ts),
        };
        p = p + 1;
    }
    assert(ch.take(indices.len() as int) =~= ch);
    (users, assistants, calls, results, failures, first, last)
}

/// The sessions of the listed records.
pub open spec fn session_set(es: Seq<EntryView>, list: Seq<usize>) -> Set<(Option<Seq<char>>, Seq<char>)> {
    chosen(es, list).map_values(|e: EntryView| session_key(e)).to_set()
}

/// The ranking of session `key` among the listed records: more records
/// first, then the later latest record, then the session key in order.
pub open spec fn busy_row(es: Seq<EntryView>, list: Seq<usize>, key: (Option<Seq<char>>, Seq<char>)) -> Seq<
    i128,
> {
    let count = session_count(es, list, key, list.len() as int);
    let last = match session_latest(es, list, key, list.len() as int) {
        Some(t) => t as int,
        None => 0,
    };
    seq![(0 - count) as i128, (0 - last) as i128] + path_code(key.0) + text_code(key.1)
}

/// A session with a latest time has a listed record.
proof fn lemma_latest_listed(
    es: Seq<EntryView>,
    list: Seq<usize>,
    key: (Option<Seq<char>>, Seq<char>),
    n: int,
)
    requires
        0 <= n <= list.len(),
        session_latest(es, list, key, n) is Some,
    ensures
        exists|p: int| 0 <= p < n && session_key(#[trigger] es[list[p] as int]) == key,
    decreases n,
{
    if n > 0 && session_key(es[list[n - 1] as int]) != key {
        lemma_latest_listed(es, list, key, n - 1);
    }
}

/// A listed record's session has a latest time.
proof fn lemma_listed_has_latest(
    es: Seq<EntryView>,
    list: Seq<usize>,
    key: (Option<Seq<char>>, Seq<char>),
    n: int,
    p: int,
)
    requires
        0 <= p < n,
        session_key(es[list[p] as int]) == key,
    ensures
        session_latest(es, list, key, n) is Some,
    decreases n,
{
    if p < n - 1 {
        lemma_listed_has_latest(es, list, key, n - 1, p);
    }
}

/// The session table holds exactly the sessions of the listed records.
proof fn lemma_groups_are_sessions(
    es: Seq<EntryView>,
    list: Seq<usize>,
    gv: Seq<((Option<Seq<char>>, Seq<char>), nat, i64)>,
)
    requires
        groups_right(es, list, gv, list.len() as int),
    ensures
        gv.map_values(|g: ((Option<Seq<char>>, Seq<char>), nat, i64)| g.0).to_set() =~= session_set(
            es,
            list,
        ),
        gv.map_values(|g: ((Option<Seq<char>>, Seq<char>), nat, i64)| g.0).no_duplicates(),
        gv.len() == session_set(es, list).len(),
{
    let keys = gv.map_values(|g: ((Option<Seq<char>>, Seq<char>), nat, i64)| g.0);
    let n = list.len() as int;
    let ch = chosen(es, list);
    let all = ch.map_values(|e: EntryView| session_key(e));
    assert forall|k| keys.to_set().contains(k) implies all.to_set().contains(k) by {
        let h = choose|h: int| 0 <= h < keys.len() && keys[h] == k;
        assert(gv[h].0 == k);
        assert(gv[h].1 == session_count(es, list, gv[h].0, n));
        lemma_latest_listed(es, list, k, n);
        let p = choose|p: int| 0 <= p < n && session_key(#[trigger] es[list[p] as int]) == k;
        assert(all[p] == k);
    }
    assert forall|k| all.to_set().contains(k) implies keys.to_set().contains(k) by {
        let p = choose|p: int| 0 <= p < all.len() && all[p] == k;
        assert(ch[p] == es[list[p] as int]);
        lemma_listed_has_latest(es, list, k, n, p);
        lemma_group_of_bounds(gv, k, 0);
        let h = group_of(gv, k, 0)->0;
        assert(keys[h] == k);
    }
    assert forall|a: int, b: int| 0 <= a < keys.len() && 0 <= b < keys.len() && a != b implies keys[a]
        != keys[b] by {
        if a < b {
            assert(gv[a].0 != gv[b].0);
        } else {
            assert(gv[b].0 != gv[a].0);
        }
    }
    keys.unique_seq_to_set();
}

/// How many sessions the listed records have, and the busiest of them:
/// (source, session ID, number of records).
pub(crate) fn sessions_summary(entries: &Vec<Entry>, indices: &Vec<usize>) -> (r: (
    usize,
    Option<(Option<String>, String, usize)>,
))
    requires
        forall|p: int| 0 <= p < indices.len() ==> #[trigger] indices@[p] < entries.len(),
    ensures
        r.0 == session_set(entry_views(entries@), indices@).len(),
        r.1 is None <==> indices.len() == 0,
        r.1 matches Some(b) ==> ({
            let es = entry_views(entries@);
            let key = (opt_text(b.0), b.1@);
            &&& session_set(es, indices@).contains(key)
            &&& b.2 == session_count(es, indices@, key, indices.len() as int)
            &&& forall|k|
                #[trigger] session_set(es, indices@).contains(k) ==> lex_le(
                    busy_row(es, indices@, key),
                    busy_row(es, indices@, k),
                )
        }),
{
    let ghost es = entry_views(entries@);
    let ghost list = indices@;
    let gs = session_groups(entries, indices);
    let ghost gv = groups_view(gs@);
    proof {
        lemma_groups_are_sessions(es, list, gv);
    }
    let ghost keys = gv.map_values(|g: ((Option<Seq<char>>, Seq<char>), nat, i64)| g.0);
    if gs.len() == 0 {
        if indices.len() > 0 {
            let ghost all = chosen(es, list).map_values(|e: EntryView| session_key(e));
            assert(all.to_set().contains(all[0]));
            assert(keys.len() == 0);
        }
        return (0, None);
    }
    let mut best: usize = 0;
    let mut best_row: Vec<i128> = Vec::new();
    let mut g: usize = 0;
    while g < gs.len()
        invariant
            0 < gs.len(),
            g <= gs.len(),
            best < gs.len(),
            gv == groups_view(gs@),
            keys == gv.map_values(|g: ((Option<Seq<char>>, Seq<char>), nat, i64)| g.0),
            groups_right(es, list, gv, list.len() as int),
            g > 0 ==> best < g && best_row@ == busy_row(es, list, gv[best as int].0),
            forall|h: int| 0 <= h < g ==> lex_le(best_row@, #[trigger] busy_row(es, list, gv[h].0)),
        decreases gs.len() - g,
    {
        assert(gv[g as int] == ((opt_text(gs@[g as int].0), gs@[g as int].1@), gs@[g as int].2 as nat, gs@[g as int].3));
        let ghost key = gv[g as int].0;
        assert(gv[g as int].1 == session_count(es, list, key, list.len() as int));
        assert(session_latest(es, list, key, list.len() as int) == Some(gs@[g as int].3));
        let mut row: Vec<i128> = Vec::new();
        row.push(0 - (gs[g].2 as i128));
        row.push(0 - (gs[g].3 as i128));
        let ghost head = row@;
        match &gs[g].0 {
            None => row.push(0),
            Some(p) => {
                row.push(1);
                push_text_code(&mut row, p.as_str(), true);
            },
        }
        push_text_code(&mut row, gs[g].1.as_str(), false);
        assert(row@ =~= head + path_code(key.0) + text_code(key.1));
        assert(row@ =~= busy_row(es, list, key));
        if g == 0 || !lex_le_rows(&best_row, &row) {
            proof {
                if g > 0 {
                    lemma_lex_total(best_row@, row@);
                    assert forall|h: int| 0 <= h < g implies lex_le(
                        row@,
                        #[trigger] busy_row(es, list, gv[h].0),
                    ) by {
                        lemma_lex_trans(row@, best_row@, busy_row(es, list, gv[h].0));
                    }
                }
                lemma_lex_refl(row@);
            }
            best = g;
            best_row = row;
        }
        g = g + 1;
    }
    let ghost bkey = gv[best as int].0;
    assert(gv[best as int] == ((opt_text(gs@[best as int].0), gs@[best as int].1@), gs@[best as int].2 as nat, gs@[best as int].3));
    assert(keys[best as int] == bkey);
    assert(keys.to_set().contains(bkey));
    assert(gv[best as int].1 == session_count(es, list, gv[best as int].0, list.len() as int));
    assert forall|k| #[trigger] session_set(es, list).contains(k) implies lex_le(
        busy_row(es, list, bkey),
        busy_row(es, list, k),
    ) by {
        assert(keys.to_set().contains(k));
        let h = choose|h: int| 0 <= h < keys.len() && keys[h] == k;
        assert(busy_row(es, list, gv[h].0) == busy_row(es, list, k));
    }
    if indices.len() == 0 {
        assert(session_set(es, list) =~= Set::empty());
        assert(keys.to_set().contains(keys[0]));
    }
    let b = (crate::history::copy_opt_string(&gs[best].0), gs[best].1.clone(), gs[best].2);
    (gs.len(), Some(b))
}

/// How many records of `s` come from source `p`.
pub open spec fn source_tally(s: Seq<EntryView>, p: Seq<char>) -> nat {
    tally(s, |e: EntryView| e.source == Some(p))
}

/// Sources with their numbers of records: every source of `s` once, each
/// with its count, in path order.
pub open spec fn sources_right(s: Seq<EntryView>, r: Seq<(Seq<char>, usize)>) -> bool {
    &&& forall|k: int| 0 <= k < r.len() ==> #[trigger] r[k].1 == source_tally(s, r[k].0) && r[k].1 > 0
    &&& forall|p: Seq<char>| #[trigger] source_tally(s, p) > 0 ==> exists|k: int| 0 <= k < r.len() && r[k].0 == p
    &&& forall|a: int, b: int|
        0 <= a < b < r.len() ==> lex_le(path_code(Some(#[trigger] r[a].0)), path_code(Some(#[trigger] r[b].0)))
            && r[a].0 != r[b].0
}

/// The sources as pairs of texts and counts.
pub open spec fn source_rows(r: Seq<(String, usize)>) -> Seq<(Seq<char>, usize)> {
    r.map_values(|x: (String, usize)| (x.0@, x.1))
}

/// A tally over one more record.
proof fn lemma_tally_push(s: Seq<EntryView>, f: spec_fn(EntryView) -> bool, i: int)
    requires
        0 <= i < s.len(),
    ensures
        tally(s.take(i + 1), f) == tally(s.take(i), f) + if f(s[i]) {
            1nat
        } else {
            0nat
        },
{
    assert(s.take(i + 1).drop_last() =~= s.take(i));
}

/// The path sort keys of a source.
fn source_code(p: &String) -> (r: Vec<i128>)
    ensures
        r@ == path_code(Some(p@)),
{
    let mut row: Vec<i128> = Vec::new();
    row.push(1);
    push_text_code(&mut row, p.as_str(), true);
    assert(row@ =~= path_code(Some(p@)));
    row
}

/// Whether two texts are equal.
fn text_eq(a: &String, b: &String) -> (r: bool)
    ensures
        r == (a@ == b@),
{
    *a == *b
}

/// The sources of the listed records with their numbers of records.
fn source_counts(entries: &Vec<Entry>, indices: &Vec<usize>) -> (r: Vec<(String, usize)>)
    requires
        forall|p: int| 0 <= p < indices.len() ==> #[trigger] indices@[p] < entries.len(),
    ensures
        sources_right(chosen(entry_views(entries@), indices@), source_rows(r@)),
{
    let ghost ch = chosen(entry_views(entries@), indices@);
    let mut out: Vec<(String, usize)> = Vec::new();
    let mut i: usize = 0;
    assert(ch.take(0) =~= Seq::<EntryView>::empty());
    while i < indices.len()
        invariant
            i <= indices.len(),
            ch == chosen(entry_views(entries@), indices@),
            forall|q: int| 0 <= q < indices.len() ==> #[trigger] indices@[q] < entries.len(),
            sources_right(ch.take(i as int), source_rows(out@)),
            forall|k: int| 0 <= k < out.len() ==> #[trigger] out@[k].1 <= i,
        decreases indices.len() - i,
    {
        let e = &entries[indices[i]];
        assert(ch[i as int] == e@);
        let ghost before = ch.take(i as int);
        let ghost after = ch.take(i + 1);
        let ghost rows = source_rows(out@);
        assert forall|p: Seq<char>| #[trigger] source_tally(after, p) == source_tally(before, p) + if e@.source
            == Some(p) {
            1nat
        } else {
            0nat
        } by {
            lemma_tally_push(ch, |e: EntryView| e.source == Some(p), i as int);
        }
        match &e.source {
            None => {
                assert(sources_right(after, rows));
            },
            Some(src) => {
                let ghost key = src@;
                let mut k: usize = 0;
                while k < out.len()
                    invariant
                        k <= out.len(),
                        rows == source_rows(out@),
                        key == src@,
                        forall|j: int| 0 <= j < k ==> #[trigger] rows[j].0 != key,
                    ensures
                        k < out.len() ==> rows[k as int].0 == key,
                    decreases out.len() - k,
                {
                    assert(rows[k as int].0 == out@[k as int].0@);
                    if text_eq(&out[k].0, src) {
                        break;
                    }
                    k = k + 1;
                }
                if k < out.len() {
                    assert(rows[k as int].0 == out@[k as int].0@);
                    assert(rows[k as int].0 == key);
                    let count = out[k].1 + 1;
                    let name = out[k].0.clone();
                    out.set(k, (name, count));
                    let ghost now = source_rows(out@);
                    assert(now =~= rows.update(k as int, (key, count)));
                    assert forall|j: int| 0 <= j < now.len() implies #[trigger] now[j].1 == source_tally(
                        after,
                        now[j].0,
                    ) && now[j].1 > 0 by {
                        if j != k {
                            assert(rows[j].0 != key) by {
                                if j < k {
                                } else {
                                    assert(rows[k as int].0 != rows[j].0);
                                }
                            }
                            assert(rows[j].1 == source_tally(before, rows[j].0));
                        } else {
                            assert(rows[k as int].1 == source_tally(before, key));
                        }
                    }
                    assert forall|p: Seq<char>| #[trigger] source_tally(after, p) > 0 implies exists|j: int|
                        0 <= j < now.len() && now[j].0 == p by {
                        if p == key {
                            assert(now[k as int].0 == p);
                        } else {
                            assert(source_tally(before, p) > 0);
                            let j = choose|j: int| 0 <= j < rows.len() && rows[j].0 == p;
                            assert(now[j].0 == p);
                        }
                    }
                } else {
                    assert(source_tally(before, key) == 0) by {
                        if source_tally(before, key) > 0 {
                            let j = choose|j: int| 0 <= j < rows.len() && rows[j].0 == key;
                            assert(rows[j].0 != key);
                        }
                    }
                    let code = source_code(src);
                    let mut at: usize = 0;
                    while at < out.len() && !lex_le_rows(&code, &source_code(&out[at].0))
                        invariant
                            at <= out.len(),
                            rows == source_rows(out@),
                            code@ == path_code(Some(key)),
                            forall|j: int|
                                0 <= j < at ==> !lex_le(code@, path_code(Some(#[trigger] rows[j].0))),
                        decreases out.len() - at,
                    {
                        assert(rows[at as int].0 == out@[at as int].0@);
                        at = at + 1;
                    }
                    if at < out.len() {
                        assert(rows[at as int].0 == out@[at as int].0@);
                    }
                    out.insert(at, (src.clone(), 1));
                    let ghost now = source_rows(out@);
                    assert(now =~= rows.insert(at as int, (key, 1usize)));
                    assert forall|a: int, b: int| 0 <= a < b < now.len() implies lex_le(
                        path_code(Some(#[trigger] now[a].0)),
                        path_code(Some(#[trigger] now[b].0)),
                    ) && now[a].0 != now[b].0 by {
                        if a < at && b == at {
                            lemma_lex_total(code@, path_code(Some(rows[a].0)));
                            assert(now[a] == rows[a]);
                        } else if a == at && b > at {
                            assert(now[b] == rows[b - 1]);
                            if at < b - 1 {
                                assert(lex_le(
                                    path_code(Some(rows[at as int].0)),
                                    path_code(Some(rows[b - 1].0)),
                                ));
                                lemma_lex_trans(
                                    code@,
                                    path_code(Some(rows[at as int].0)),
                                    path_code(Some(rows[b - 1].0)),
                                );
                            }
                        } else if a < at && b > at {
                            assert(now[a] == rows[a]);
                            assert(now[b] == rows[b - 1]);
                        } else if b < at {
                            assert(now[a] == rows[a]);
                            assert(now[b] == rows[b]);
                        } else {
                            assert(now[a] == rows[a - 1]);
                            assert(now[b] == rows[b - 1]);
                        }
                    }
                    assert forall|j: int| 0 <= j < now.len() implies #[trigger] now[j].1 == source_tally(
                        after,
                        now[j].0,
                    ) && now[j].1 > 0 by {
                        if j < at {
                            assert(now[j] == rows[j]);
                            assert(rows[j].1 == source_tally(before, rows[j].0));
                        } else if j > at {
                            assert(now[j] == rows[j - 1]);
                            assert(rows[j - 1].1 == source_tally(before, rows[j - 1].0));
                        }
                    }
                    assert forall|p: Seq<char>| #[trigger] source_tally(after, p) > 0 implies exists|j: int|
                        0 <= j < now.len() && now[j].0 == p by {
                        if p == key {
                            assert(now[at as int].0 == p);
                        } else {
                            assert(source_tally(before, p) > 0);
                            let j = choose|j: int| 0 <= j < rows.len() && rows[j].0 == p;
                            if j < at {
                                assert(now[j].0 == p);
                            } else {
                                assert(now[j + 1].0 == p);
                            }
                        }
                    }
                }
            },
        }
        i = i + 1;
    }
    assert(ch.take(indices.len() as int) =~= ch);
    out
}

/// `b` is the busiest session of the listed records: one of them, with its
/// number of records, ranked first by `busy_row`; none without records.
pub open spec fn busiest_right(
    es: Seq<EntryView>,
    list: Seq<usize>,
    b: Option<(Option<String>, String, usize)>,
) -> bool {
    &&& b is None <==> list.len() == 0
    &&& b matches Some(b) ==> ({
        let key = (opt_text(b.0), b.1@);
        &&& session_set(es, list).contains(key)
        &&& b.2 == session_count(es, list, key, list.len() as int)
        &&& forall|k|
            #[trigger] session_set(es, list).contains(k) ==> lex_le(busy_row(es, list, key), busy_row(es, list, k))
    })
}

/// Statistics of listed records.
pub struct Stats {
    pub records: usize,
    pub sessions: usize,
    /// Each source with its number of records, in path order.
    pub sources: Vec<(String, usize)>,
    /// Records per local calendar day.
    pub days: Activity,
    pub first: Option<i64>,
    pub last: Option<i64>,
    pub users: usize,
    pub assistants: usize,
    pub tools: usize,
    pub results: usize,
    pub failures: usize,
    /// The session with the most records (then the latest), with its count.
    pub busiest: Option<(Option<String>, String, usize)>,
}

/// Whether `counts` tally the records `idx` of `es` by local days that fit
/// their times (see `local_day_of`).
pub open spec fn tallied_locally(es: Seq<EntryView>, idx: Seq<usize>, counts: Seq<(i64, u64)>) -> bool {
    exists|ds: Seq<Option<i64>>|
        ds.len() == idx.len() && (forall|p: int|
            0 <= p < idx.len() ==> local_day_of(es[idx[p] as int].ts, #[trigger] ds[p])) && #[trigger] tallied(
            ds,
            counts,
        )
}

impl Stats {
    /// The statistics of the records of `entries` at `indices`.
    #[verifier::spinoff_prover]
    pub fn build(entries: &Vec<Entry>, indices: &Vec<usize>) -> (r: Stats)
        requires
            forall|p: int| 0 <= p < indices.len() ==> #[trigger] indices@[p] < entries.len(),
        ensures
            ({
                let es = entry_views(entries@);
                let ch = chosen(es, indices@);
                &&& r.records == indices.len()
                &&& r.sessions == session_set(es, indices@).len()
                &&& sources_right(ch, source_rows(r.sources@))
                &&& r.days.wf()
                &&& tallied_locally(es, indices@, r.days.counts@)
                &&& r.first == earliest(ch)
                &&& r.last == latest(ch)
                &&& r.users == tally(ch, |e: EntryView| user_record(e))
                &&& r.assistants == tally(ch, |e: EntryView| assistant_record(e))
                &&& r.tools == tally(ch, |e: EntryView| call_record(e))
                &&& r.results == tally(ch, |e: EntryView| result_record(e))
                &&& r.failures == tally(ch, |e: EntryView| failed_tool(e))
                &&& busiest_right(es, indices@, r.busiest)
            }),
    {
        let (users, assistants, tools, results, failures, first, last) = role_counts(entries, indices);
        let (sessions, busiest) = sessions_summary(entries, indices);
        let days = Activity::of(entries, indices);
        proof {
            let es = entry_views(entries@);
            let ds = choose|ds: Seq<Option<i64>>|
                ds.len() == indices.len() && (forall|p: int|
                    0 <= p < indices.len() ==> local_day_of(entries@[indices@[p] as int].ts, #[trigger] ds[p]))
                    && #[trigger] tallied(ds, days.counts@);
            assert forall|p: int| 0 <= p < indices.len() implies local_day_of(es[indices@[p] as int].ts, #[trigger] ds[p]) by {
                assert(es[indices@[p] as int] == entries@[indices@[p] as int]@);
            }
            assert(tallied(ds, days.counts@));
            assert(tallied_locally(es, indices@, days.counts@));
        }
        Stats {
            records: indices.len(),
            sessions,
            sources: source_counts(entries, indices),
            days,
            first,
            last,
            users,
            assistants,
            tools,
            results,
            failures,
            busiest,
        }
    }

    /// Records on the last `days` local calendar days, today included (the
    /// day is read from the machine's clock and zone).
    pub fn recent(&self, days: u64) -> (r: u64)
        requires
            self.days.wf(),
        ensures
            exists|t: i64|
                r == range_total(
                    self.days.counts@,
                    #[trigger] window_start(t, days) as int,
                    t as int,
                    self.days.counts.len() as int,
                ),
    {
        let now = today();
        let back = days.saturating_sub(1);
        let start = match days_before(now, back) {
            Some(d) => d,
            None => now,
        };
        assert(start == window_start(now, days));
        self.days.total(start, now)
    }

    /// The day with the most records (the latest such day), with its count.
    pub fn peak(&self) -> (r: Option<(i64, u64)>)
        ensures
            r is None <==> self.days.counts.len() == 0,
            r matches Some(p) ==> self.days.counts@.contains(p) && forall|j: int|
                0 <= j < self.days.counts.len() ==> #[trigger] self.days.counts@[j].1 < p.1 || (
                self.days.counts@[j].1 == p.1 && self.days.counts@[j].0 <= p.0),
    {
        let cs = &self.days.counts;
        if cs.len() == 0 {
            return None;
        }
        let mut best: usize = 0;
        let mut j: usize = 1;
        while j < cs.len()
            invariant
                0 < cs.len(),
                1 <= j <= cs.len(),
                best < j,
                cs == &self.days.counts,
                forall|h: int| 0 <= h < j ==> #[trigger] cs@[h].1 < cs@[best as int].1 || (cs@[h].1
                    == cs@[best as int].1 && cs@[h].0 <= cs@[best as int].0),
            decreases cs.len() - j,
        {
            if cs[j].1 > cs[best].1 || (cs[j].1 == cs[best].1 && cs[j].0 >= cs[best].0) {
                best = j;
            }
            j = j + 1;
        }
        Some(cs[best])
    }
}

/// Source `p` comes after `current` in path order (every source comes after none).
pub open spec fn comes_after(p: Seq<char>, current: Option<Seq<char>>) -> bool {
    match current {
        Some(c) => !lex_le(path_code(Some(p)), path_code(Some(c))),
        None => true,
    }
}

/// A record's source that comes after `current`.
pub open spec fn source_comes_after(s: Option<Seq<char>>, current: Option<Seq<char>>) -> bool {
    match s {
        Some(q) => comes_after(q, current),
        None => false,
    }
}

/// Some record of `es` comes from source `p`.
pub open spec fn has_source(es: Seq<EntryView>, p: Seq<char>) -> bool {
    exists|i: int| 0 <= i < es.len() && #[trigger] es[i].source == Some(p)
}

/// `r` is the first source of `es` after `current` in path order, none
/// when no source comes after it.
pub open spec fn source_after(es: Seq<EntryView>, current: Option<Seq<char>>, r: Option<Seq<char>>) -> bool {
    match r {
        Some(p) => {
            &&& has_source(es, p)
            &&& comes_after(p, current)
            &&& forall|q: Seq<char>| #[trigger] has_source(es, q) && comes_after(q, current) ==> lex_le(
                path_code(Some(p)),
                path_code(Some(q)),
            )
        },
        None => forall|q: Seq<char>| #[trigger] has_source(es, q) ==> !comes_after(q, current),
    }
}

/// The source after `current` among the sources of `entries`: cycling
/// through sources goes from all sources to each in path order, then back.
pub fn next_source(entries: &Vec<Entry>, current: Option<&String>) -> (r: Option<String>)
    ensures
        source_after(
            entry_views(entries@),
            match current {
                Some(c) => Some(c@),
                None => None,
            },
            match r {
                Some(p) => Some(p@),
                None => None,
            },
        ),
{
    let ghost es = entry_views(entries@);
    let ghost cur = match current {
        Some(c) => Some(c@),
        None => None,
    };
    let current_code: Option<Vec<i128>> = match current {
        Some(c) => Some(source_code(c)),
        None => None,
    };
    let mut best: Option<(String, Vec<i128>)> = None;
    let mut i: usize = 0;
    while i < entries.len()
        invariant
            i <= entries.len(),
            es == entry_views(entries@),
            cur == match current {
                Some(c) => Some(c@),
                None => None,
            },
            current_code matches Some(cc) ==> current matches Some(c) && cc@ == path_code(Some(c@)),
            current is Some ==> current_code is Some,
            match best {
                Some((p, code)) => {
                    &&& code@ == path_code(Some(p@))
                    &&& (exists|j: int| 0 <= j < i && #[trigger] es[j].source == Some(p@))
                    &&& comes_after(p@, cur)
                    &&& forall|j: int|
                        0 <= j < i && source_comes_after(#[trigger] es[j].source, cur) ==> lex_le(
                            path_code(Some(p@)),
                            path_code(es[j].source),
                        )
                },
                None => forall|j: int| 0 <= j < i ==> !source_comes_after(#[trigger] es[j].source, cur),
            },
        decreases entries.len() - i,
    {
        assert(es[i as int] == entries@[i as int]@);
        if let Some(src) = &entries[i].source {
            let code = source_code(src);
            let after = match &current_code {
                Some(cc) => !lex_le_rows(&code, cc),
                None => true,
            };
            assert(after == comes_after(src@, cur));
            if after {
                let better = match &best {
                    Some((_, bc)) => !lex_le_rows(bc, &code),
                    None => true,
                };
                if better {
                    proof {
                        if let Some((_, bc)) = &best {
                            lemma_lex_total(bc@, code@);
                            assert forall|j: int|
                                0 <= j < i + 1 && source_comes_after(#[trigger] es[j].source, cur)
                                    implies lex_le(path_code(Some(src@)), path_code(es[j].source)) by {
                                if j < i {
                                    lemma_lex_trans(code@, bc@, path_code(es[j].source));
                                } else {
                                    lemma_lex_refl(code@);
                                }
                            }
                        } else {
                            assert forall|j: int|
                                0 <= j < i + 1 && source_comes_after(#[trigger] es[j].source, cur)
                                    implies lex_le(path_code(Some(src@)), path_code(es[j].source)) by {
                                lemma_lex_refl(code@);
                            }
                        }
                    }
                    best = Some((src.clone(), code));
                    assert(es[i as int].source == Some(src@));
                } else {
                    proof {
                        if let Some((_, bc)) = &best {
                            lemma_lex_total(bc@, code@);
                            assert(lex_le(bc@, path_code(es[i as int].source)));
                        }
                    }
                }
            }
        }
        i = i + 1;
    }
    match best {
        Some((p, code)) => {
            proof {
                assert forall|q: Seq<char>| #[trigger] has_source(es, q) && comes_after(q, cur) implies lex_le(
                    path_code(Some(p@)),
                    path_code(Some(q)),
                ) by {
                    let j = choose|j: int| 0 <= j < es.len() && #[trigger] es[j].source == Some(q);
                }
                let j = choose|j: int| 0 <= j < entries.len() && #[trigger] es[j].source == Some(p@);
                assert(has_source(es, p@));
            }
            Some(p)
        },
        None => {
            proof {
                assert forall|q: Seq<char>| #[trigger] has_source(es, q) implies !comes_after(q, cur) by {
                    let j = choose|j: int| 0 <= j < es.len() && #[trigger] es[j].source == Some(q);
                }
            }
            None
        },
    }
}

} // verus!
