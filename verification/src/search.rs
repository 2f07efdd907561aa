//! A single-line query editor that never splits a grapheme cluster.
use crate::text::{
    all_whitespace, chars_of, display_width, grapheme_clusters, graphemes, is_all_whitespace,
    is_control, spec_is_control, string_of, text_width,
};
use vstd::prelude::*;

verus! {

broadcast use Seq::group_seq_flatten;

/// The views of a list of strings.
pub open spec fn texts(v: Seq<String>) -> Seq<Seq<char>> {
    v.map_values(|s: String| s@)
}

/// First cluster start at or after `c` (scanning from cluster `i`, which
/// starts at `base`); the end of the text when there is none.
pub open spec fn up_from(gs: Seq<Seq<char>>, i: int, base: int, c: int) -> int
    decreases gs.len() - i,
{
    if i < 0 || i >= gs.len() {
        base
    } else if base >= c {
        base
    } else {
        up_from(gs, i + 1, base + gs[i].len(), c)
    }
}

/// The first grapheme boundary of a text split into `gs` at or after `c`.
pub open spec fn snap_up(gs: Seq<Seq<char>>, c: int) -> int {
    up_from(gs, 0, 0, c)
}

/// Last cluster start that is at most `m` (scanning from cluster `i`, which
/// starts at `base`); `best` when no later one qualifies.
pub open spec fn down_from(gs: Seq<Seq<char>>, i: int, base: int, best: int, m: int) -> int
    decreases gs.len() - i,
{
    if i < 0 || i >= gs.len() || base > m {
        best
    } else {
        down_from(gs, i + 1, base + gs[i].len(), base, m)
    }
}

/// The last cluster start at or before `m`, or 0 for an empty text.
pub open spec fn snap_down(gs: Seq<Seq<char>>, m: int) -> int {
    down_from(gs, 0, 0, 0, m)
}

/// Position where the grapheme cluster before `c` starts, or 0.
pub open spec fn step_left(q: Seq<char>, c: int) -> int {
    let pre = grapheme_clusters(q.subrange(0, c));
    if pre.len() == 0 {
        0
    } else {
        c - pre.last().len()
    }
}

/// Position just after the grapheme cluster that starts at `c`.
pub open spec fn step_right(q: Seq<char>, c: int) -> int {
    let rest = grapheme_clusters(q.subrange(c, q.len() as int));
    if rest.len() == 0 {
        c
    } else {
        c + rest[0].len()
    }
}

/// Pasted or typed text made single-line: line breaks and tabs become spaces,
/// other control characters are dropped.
pub open spec fn single_line(t: Seq<char>) -> Seq<char>
    decreases t.len(),
{
    if t.len() == 0 {
        t
    } else {
        let c = t.last();
        let rest = single_line(t.drop_last());
        if c == '\n' || c == '\r' || c == '\t' {
            rest.push(' ')
        } else if spec_is_control(c) {
            rest
        } else {
            rest.push(c)
        }
    }
}

/// `q` with the characters in `[from, to)` removed.
pub open spec fn cut(q: Seq<char>, from: int, to: int) -> Seq<char> {
    q.subrange(0, from) + q.subrange(to, q.len() as int)
}

/// Word deletion scanning backwards over the clusters `gs` before the caret:
/// trailing whitespace is crossed, then one word, stopping at the next space.
pub open spec fn word_from(gs: Seq<Seq<char>>, k: int, word: bool, start: int) -> int
    decreases k,
{
    if k <= 0 || k > gs.len() {
        start
    } else {
        let space = all_whitespace(gs[k - 1]);
        if word && space {
            start
        } else {
            word_from(gs, k - 1, word || !space, gs.take(k - 1).flatten().len() as int)
        }
    }
}

/// Where `delete_word` starts deleting when the caret is at `c`.
pub open spec fn word_start(q: Seq<char>, c: int) -> int {
    let gs = grapheme_clusters(q.subrange(0, c));
    word_from(gs, gs.len() as int, false, c)
}

/// A text with its clusters and their lengths.
proof fn lemma_take_push(gs: Seq<Seq<char>>, i: int)
    requires
        0 <= i < gs.len(),
    ensures
        gs.take(i + 1).flatten() == gs.take(i).flatten() + gs[i],
        gs.take(i).flatten().len() + gs[i].len() <= gs.flatten().len(),
{
    assert(gs.take(i + 1) =~= gs.take(i).push(gs[i]));
    assert(gs =~= gs.take(i + 1) + gs.skip(i + 1));
    vstd::seq_lib::lemma_flatten_concat(gs.take(i + 1), gs.skip(i + 1));
}

/// Cluster lengths of a text; `r[i]` is the length of cluster `i`.
fn cluster_lengths(s: &str) -> (r: Vec<usize>)
    ensures
        r@.len() == grapheme_clusters(s@).len(),
        forall|i: int| 0 <= i < r@.len() ==> r@[i] == #[trigger] grapheme_clusters(s@)[i].len(),
        forall|i: int| 0 <= i < r@.len() ==> #[trigger] grapheme_clusters(s@)[i].len() > 0,
        grapheme_clusters(s@).flatten() == s@,
{
    let gs = graphemes(s);
    let ghost g = grapheme_clusters(s@);
    let mut out: Vec<usize> = Vec::new();
    let mut i: usize = 0;
    while i < gs.len()
        invariant
            i <= gs.len(),
            gs@.map_values(|x: String| x@) == g,
            forall|j: int| 0 <= j < gs@.len() ==> #[trigger] gs@[j]@.len() > 0,
            out@.len() == i,
            forall|j: int| 0 <= j < i ==> out@[j] == #[trigger] g[j].len(),
        decreases gs.len() - i,
    {
        let n = gs[i].as_str().unicode_len();
        assert(g[i as int] == gs@[i as int]@);
        out.push(n);
        i = i + 1;
    }
    assert forall|j: int| 0 <= j < out@.len() implies #[trigger] g[j].len() > 0 by {
        assert(g[j] == gs@[j]@);
    }
    out
}

/// Finds the first cluster start at or after `c` in a text with cluster lengths `lens`.
fn first_boundary_at_or_after(lens: &Vec<usize>, total: usize, c: usize, Ghost(gs): Ghost<
    Seq<Seq<char>>,
>) -> (r: usize)
    requires
        lens@.len() == gs.len(),
        forall|i: int| 0 <= i < lens@.len() ==> lens@[i] == #[trigger] gs[i].len(),
        gs.flatten().len() == total,
    ensures
        r == snap_up(gs, c as int),
        r <= total,
{
    let mut i: usize = 0;
    let mut base: usize = 0;
    while i < lens.len()
        invariant
            i <= lens.len(),
            lens@.len() == gs.len(),
            forall|j: int| 0 <= j < lens@.len() ==> lens@[j] == #[trigger] gs[j].len(),
            gs.flatten().len() == total,
            base == gs.take(i as int).flatten().len(),
            up_from(gs, i as int, base as int, c as int) == snap_up(gs, c as int),
        decreases lens.len() - i,
    {
        proof {
            lemma_take_push(gs, i as int);
        }
        if base >= c {
            return base;
        }
        base = base + lens[i];
        i = i + 1;
    }
    assert(gs.take(i as int) =~= gs);
    base
}

/// Finds the last cluster start at or before `m` (0 for an empty text).
fn last_boundary_at_or_before(lens: &Vec<usize>, total: usize, m: usize, Ghost(gs): Ghost<
    Seq<Seq<char>>,
>) -> (r: usize)
    requires
        lens@.len() == gs.len(),
        forall|i: int| 0 <= i < lens@.len() ==> lens@[i] == #[trigger] gs[i].len(),
        gs.flatten().len() == total,
    ensures
        r == snap_down(gs, m as int),
        r <= m,
        r <= total,
{
    let mut i: usize = 0;
    let mut base: usize = 0;
    let mut best: usize = 0;
    while i < lens.len()
        invariant
            i <= lens.len(),
            lens@.len() == gs.len(),
            forall|j: int| 0 <= j < lens@.len() ==> lens@[j] == #[trigger] gs[j].len(),
            gs.flatten().len() == total,
            base == gs.take(i as int).flatten().len(),
            best <= m,
            best <= total,
            down_from(gs, i as int, base as int, best as int, m as int) == snap_down(gs, m as int),
        decreases lens.len() - i,
    {
        if base > m {
            return best;
        }
        proof {
            lemma_take_push(gs, i as int);
        }
        best = base;
        base = base + lens[i];
        i = i + 1;
    }
    best
}

} // verus!

verus! {

/// Characters of `text` made single-line.
fn single_line_chars(text: &str) -> (r: Vec<char>)
    ensures
        r@ == single_line(text@),
{
    let cs = chars_of(text);
    let mut out: Vec<char> = Vec::new();
    let mut i: usize = 0;
    while i < cs.len()
        invariant
            i <= cs.len(),
            cs@ == text@,
            out@ == single_line(cs@.take(i as int)),
        decreases cs.len() - i,
    {
        let c = cs[i];
        assert(cs@.take(i + 1).drop_last() =~= cs@.take(i as int));
        assert(cs@.take(i + 1).last() == c);
        if c == '\n' || c == '\r' || c == '\t' {
            out.push(' ');
        } else if is_control(c) {
        } else {
            out.push(c);
        }
        i = i + 1;
    }
    assert(cs@.take(cs.len() as int) =~= cs@);
    out
}

/// `q` with the characters in `[from, to)` replaced by `middle`.
fn splice(q: &str, from: usize, to: usize, middle: &str) -> (r: String)
    requires
        from <= to <= q@.len(),
    ensures
        r@ == q@.subrange(0, from as int) + middle@ + q@.subrange(to as int, q@.len() as int),
{
    let total = q.unicode_len();
    let mut out = q.substring_char(0, from).to_owned();
    out.append(middle);
    out.append(q.substring_char(to, total));
    out
}

/// A cluster scan never returns a position before its starting point.
proof fn lemma_up_from_ge(gs: Seq<Seq<char>>, i: int, base: int, c: int)
    ensures
        up_from(gs, i, base, c) >= base,
    decreases gs.len() - i,
{
    if 0 <= i < gs.len() && base < c {
        lemma_up_from_ge(gs, i + 1, base + gs[i].len(), c);
    }
}

/// Snapping to a boundary twice is the same as snapping once.
proof fn lemma_up_from_idem(gs: Seq<Seq<char>>, i: int, base: int, c: int)
    requires
        forall|j: int| 0 <= j < gs.len() ==> #[trigger] gs[j].len() > 0,
    ensures
        up_from(gs, i, base, up_from(gs, i, base, c)) == up_from(gs, i, base, c),
    decreases gs.len() - i,
{
    if 0 <= i < gs.len() && base < c {
        let next = base + gs[i].len();
        lemma_up_from_ge(gs, i + 1, next, c);
        lemma_up_from_idem(gs, i + 1, next, c);
    }
}

pub const HISTORY_LIMIT: usize = 20;

/// `history` without the entries equal to `q`.
pub open spec fn without(history: Seq<Seq<char>>, q: Seq<char>) -> Seq<Seq<char>>
    decreases history.len(),
{
    if history.len() == 0 {
        history
    } else {
        let rest = without(history.drop_last(), q);
        if history.last() == q {
            rest
        } else {
            rest.push(history.last())
        }
    }
}

/// The recent-query list after remembering `q`: earlier copies are dropped,
/// `q` becomes the newest entry and the oldest falls off past the limit.
pub open spec fn remembered(history: Seq<Seq<char>>, q: Seq<char>) -> Seq<Seq<char>> {
    if q.len() == 0 {
        history
    } else {
        let next = without(history, q).push(q);
        if next.len() > HISTORY_LIMIT {
            next.drop_first()
        } else {
            next
        }
    }
}

/// Browsing recent queries `h` (non-empty) from position `pos` with the typed
/// `draft` and current `query`: the new query, position and draft.
pub open spec fn recall_step(
    h: Seq<Seq<char>>,
    pos: Option<usize>,
    draft: Seq<char>,
    query: Seq<char>,
    previous: bool,
) -> (Seq<char>, Option<usize>, Seq<char>) {
    if previous {
        let p: int = match pos {
            None => h.len() - 1,
            Some(i) => if i == 0 {
                0
            } else {
                i - 1
            },
        };
        (h[p], Some(p as usize), if pos is None {
            query
        } else {
            draft
        })
    } else {
        match pos {
            None => (query, None, draft),
            Some(i) => if i + 1 < h.len() {
                (h[i + 1], Some((i + 1) as usize), draft)
            } else {
                (draft, None, draft)
            },
        }
    }
}

/// Law: stepping back to the newest recent query and forward again brings
/// back the query that was being typed.
pub proof fn lemma_recall_restores_draft(h: Seq<Seq<char>>, draft: Seq<char>, query: Seq<char>)
    requires
        0 < h.len() <= usize::MAX,
    ensures
        ({
            let (q1, p1, d1) = recall_step(h, None, draft, query, true);
            recall_step(h, p1, d1, q1, false) == (query, None::<usize>, query)
        }),
{
}

/// The editor state: recent queries plus a caret and a scroll start measured
/// in characters of the query being edited.
pub struct Editor {
    pub history: Vec<String>,
    cursor: usize,
    start: usize,
    history_position: Option<usize>,
    scratch: String,
}

impl Default for Editor {
    fn default() -> (r: Self)
        ensures
            r.recent().len() == 0,
            r.caret() == 0,
            r.window() == 0,
            r.recalled() is None,
            r.draft().len() == 0,
    {
        Editor {
            history: Vec::new(),
            cursor: 0,
            start: 0,
            history_position: None,
            scratch: String::new(),
        }
    }
}

impl Editor {
    /// The recent queries, oldest first.
    pub closed spec fn recent(&self) -> Seq<Seq<char>> {
        texts(self.history@)
    }

    /// Caret position, in characters.
    pub closed spec fn caret(&self) -> int {
        self.cursor as int
    }

    /// First visible character, in characters.
    pub closed spec fn window(&self) -> int {
        self.start as int
    }

    /// Which recent query is shown, while browsing them.
    pub closed spec fn recalled(&self) -> Option<usize> {
        self.history_position
    }

    /// The query that was being typed before browsing recent queries.
    pub closed spec fn draft(&self) -> Seq<char> {
        self.scratch@
    }

    /// Start editing `query` with the caret at its end.
    pub fn begin(&mut self, query: &str)
        ensures
            final(self).caret() == query@.len(),
            final(self).window() == 0,
            final(self).recalled() is None,
            final(self).draft() == query@,
            final(self).recent() == old(self).recent(),
    {
        self.cursor = query.unicode_len();
        self.start = 0;
        self.history_position = None;
        self.scratch = query.to_owned();
    }

    /// Whether the editor's caret lies within `query`, as moving and
    /// editing at the caret need.
    pub fn fits(&self, query: &str) -> (r: bool)
        ensures
            r == (self.caret() <= query@.len()),
    {
        self.cursor <= query.unicode_len()
    }

    /// Whether the recent query it shows (if any) is among its recent
    /// queries, as recalling an older one needs.
    pub fn recall_ready(&self) -> (r: bool)
        ensures
            r == (self.recalled() matches Some(p) ==> p <= self.recent().len()),
    {
        match self.history_position {
            Some(p) => p <= self.history.len(),
            None => true,
        }
    }

    /// Takes the recent queries of `other`, so that both editors recall the
    /// same queries.
    pub fn share_history(&mut self, other: &Editor)
        ensures
            final(self).recent() == other.recent(),
            final(self).caret() == old(self).caret(),
            final(self).window() == old(self).window(),
            final(self).recalled() == old(self).recalled(),
            final(self).draft() == old(self).draft(),
    {
        self.history = crate::history::copy_strings(&other.history);
        assert(texts(self.history@) =~= texts(other.history@)) by {
            assert(crate::history::strings(self.history@) == crate::history::strings(other.history@));
        }
    }

    /// Move the caret one grapheme cluster to the left.
    pub fn left(&mut self, query: &str)
        requires
            old(self).caret() <= query@.len(),
        ensures
            final(self).caret() == step_left(query@, old(self).caret()),
            0 <= final(self).caret() <= old(self).caret(),
            final(self).window() == old(self).window(),
            final(self).recalled() == old(self).recalled(),
            final(self).draft() == old(self).draft(),
            final(self).recent() == old(self).recent(),
    {
        let prefix = query.substring_char(0, self.cursor);
        let lens = cluster_lengths(prefix);
        let ghost g = grapheme_clusters(prefix@);
        if lens.len() == 0 {
            self.cursor = 0;
        } else {
            let last = lens.len() - 1;
            proof {
                lemma_take_push(g, last as int);
            }
            self.cursor = self.cursor - lens[last];
        }
    }

    /// Move the caret one grapheme cluster to the right.
    pub fn right(&mut self, query: &str)
        requires
            old(self).caret() <= query@.len(),
        ensures
            final(self).caret() == step_right(query@, old(self).caret()),
            old(self).caret() <= final(self).caret() <= query@.len(),
            final(self).window() == old(self).window(),
            final(self).recalled() == old(self).recalled(),
            final(self).draft() == old(self).draft(),
            final(self).recent() == old(self).recent(),
    {
        let total = query.unicode_len();
        let rest = query.substring_char(self.cursor, total);
        let lens = cluster_lengths(rest);
        let ghost g = grapheme_clusters(rest@);
        if lens.len() > 0 {
            proof {
                lemma_take_push(g, 0);
            }
            self.cursor = self.cursor + lens[0];
        }
    }

    /// Move the caret to the start.
    pub fn home(&mut self)
        ensures
            final(self).caret() == 0,
            final(self).window() == old(self).window(),
            final(self).recalled() == old(self).recalled(),
            final(self).draft() == old(self).draft(),
            final(self).recent() == old(self).recent(),
    {
        self.cursor = 0;
    }

    /// Move the caret to the end.
    pub fn end(&mut self, query: &str)
        ensures
            final(self).caret() == query@.len(),
            final(self).window() == old(self).window(),
            final(self).recalled() == old(self).recalled(),
            final(self).draft() == old(self).draft(),
            final(self).recent() == old(self).recent(),
    {
        self.cursor = query.unicode_len();
    }

    /// Put the caret on a grapheme boundary at or after it, and the window
    /// start on the last boundary at or before the caret and the old start.
    fn normalize_start(&mut self, query: &str)
        ensures
            final(self).caret() == snap_up(grapheme_clusters(query@), old(self).caret()),
            final(self).window() == snap_down(
                grapheme_clusters(query@),
                if old(self).window() <= final(self).caret() {
                    old(self).window()
                } else {
                    final(self).caret()
                },
            ),
            final(self).window() <= final(self).caret() <= query@.len(),
            final(self).recalled() == old(self).recalled(),
            final(self).draft() == old(self).draft(),
            final(self).recent() == old(self).recent(),
    {
        let total = query.unicode_len();
        let lens = cluster_lengths(query);
        let ghost g = grapheme_clusters(query@);
        self.cursor = first_boundary_at_or_after(&lens, total, self.cursor, Ghost(g));
        let m = if self.start <= self.cursor {
            self.start
        } else {
            self.cursor
        };
        self.start = last_boundary_at_or_before(&lens, total, m, Ghost(g));
    }
}

} // verus!

verus! {

/// Scroll start after advancing cluster by cluster from `s` while the text
/// between `s` and the caret `c` is at least `w` columns wide.
pub open spec fn shrink(q: Seq<char>, c: int, s: int, w: int) -> int
    decreases c - s,
{
    if s < c && display_width(q.subrange(s, c)) >= w {
        let g = grapheme_clusters(q.subrange(s, c));
        if g.len() == 0 || g[0].len() == 0 || s + g[0].len() > c {
            s
        } else {
            shrink(q, c, s + g[0].len(), w)
        }
    } else {
        s
    }
}

/// The clusters from index `i` on that fit, in order, into `w` columns when
/// `used` columns are already taken.
pub open spec fn fit(gs: Seq<Seq<char>>, i: int, used: int, w: int) -> Seq<char>
    decreases gs.len() - i,
{
    if i < 0 || i >= gs.len() || used + display_width(gs[i]) > w {
        Seq::empty()
    } else {
        gs[i] + fit(gs, i + 1, used + display_width(gs[i]), w)
    }
}

/// Total width of the clusters that `fit` keeps.
pub open spec fn fit_width(gs: Seq<Seq<char>>, i: int, used: int, w: int) -> int
    decreases gs.len() - i,
{
    if i < 0 || i >= gs.len() || used + display_width(gs[i]) > w {
        used
    } else {
        fit_width(gs, i + 1, used + display_width(gs[i]), w)
    }
}

/// The visible part never needs more columns than are available.
pub proof fn lemma_fit_width_bounded(gs: Seq<Seq<char>>, i: int, used: int, w: int)
    requires
        used <= w,
    ensures
        used <= fit_width(gs, i, used, w) <= w,
    decreases gs.len() - i,
{
    if 0 <= i < gs.len() && used + display_width(gs[i]) <= w {
        lemma_fit_width_bounded(gs, i + 1, used + display_width(gs[i]), w);
    }
}

impl Editor {
    /// Insert `text` at the caret, made single-line.
    pub fn insert(&mut self, query: &mut String, text: &str)
        requires
            old(self).caret() <= old(query)@.len(),
        ensures
            final(query)@ == old(query)@.subrange(0, old(self).caret()) + single_line(text@)
                + old(query)@.subrange(old(self).caret(), old(query)@.len() as int),
            final(self).caret() == snap_up(
                grapheme_clusters(final(query)@),
                old(self).caret() + single_line(text@).len(),
            ),
            final(self).window() == snap_down(
                grapheme_clusters(final(query)@),
                if old(self).window() <= final(self).caret() {
                    old(self).window()
                } else {
                    final(self).caret()
                },
            ),
            final(self).caret() <= final(query)@.len(),
            final(self).recalled() is None,
            final(self).draft() == old(self).draft(),
            final(self).recent() == old(self).recent(),
    {
        let f = single_line_chars(text);
        let fs = string_of(f.as_slice());
        let c = self.cursor;
        let next = splice(query.as_str(), c, c, fs.as_str());
        *query = next;
        let total = query.as_str().unicode_len();
        let lens = cluster_lengths(query.as_str());
        let ghost g = grapheme_clusters(query@);
        self.cursor = first_boundary_at_or_after(&lens, total, c + f.len(), Ghost(g));
        self.history_position = None;
        proof {
            lemma_up_from_idem(g, 0, 0, c + f.len());
        }
        self.normalize_start(query.as_str());
    }

    /// Delete the grapheme cluster before the caret.
    pub fn backspace(&mut self, query: &mut String)
        requires
            old(self).caret() <= old(query)@.len(),
        ensures
            final(query)@ == cut(
                old(query)@,
                step_left(old(query)@, old(self).caret()),
                old(self).caret(),
            ),
            final(self).caret() == snap_up(
                grapheme_clusters(final(query)@),
                step_left(old(query)@, old(self).caret()),
            ),
            final(self).window() == snap_down(
                grapheme_clusters(final(query)@),
                if old(self).window() <= final(self).caret() {
                    old(self).window()
                } else {
                    final(self).caret()
                },
            ),
            final(self).caret() <= final(query)@.len(),
            final(self).recalled() is None,
            final(self).draft() == old(self).draft(),
            final(self).recent() == old(self).recent(),
    {
        let end = self.cursor;
        self.left(query.as_str());
        let next = splice(query.as_str(), self.cursor, end, "");
        proof {
            reveal_strlit("");
        }
        assert(""@.len() == 0);
        *query = next;
        self.history_position = None;
        assert(query@ =~= cut(old(query)@, self.cursor as int, end as int));
        self.normalize_start(query.as_str());
    }

    /// Delete the grapheme cluster after the caret.
    pub fn delete(&mut self, query: &mut String)
        requires
            old(self).caret() <= old(query)@.len(),
        ensures
            final(query)@ == cut(
                old(query)@,
                old(self).caret(),
                step_right(old(query)@, old(self).caret()),
            ),
            final(self).caret() == snap_up(grapheme_clusters(final(query)@), old(self).caret()),
            final(self).window() == snap_down(
                grapheme_clusters(final(query)@),
                if old(self).window() <= final(self).caret() {
                    old(self).window()
                } else {
                    final(self).caret()
                },
            ),
            final(self).caret() <= final(query)@.len(),
            final(self).recalled() is None,
            final(self).draft() == old(self).draft(),
            final(self).recent() == old(self).recent(),
    {
        let start = self.cursor;
        self.right(query.as_str());
        let next = splice(query.as_str(), start, self.cursor, "");
        proof {
            reveal_strlit("");
        }
        *query = next;
        assert(query@ =~= cut(old(query)@, start as int, step_right(old(query)@, start as int)));
        self.cursor = start;
        self.history_position = None;
        self.normalize_start(query.as_str());
    }

    /// Delete back to the start of the word before the caret, together with
    /// any whitespace between that word and the caret.
    pub fn delete_word(&mut self, query: &mut String)
        requires
            old(self).caret() <= old(query)@.len(),
        ensures
            final(query)@ == cut(
                old(query)@,
                word_start(old(query)@, old(self).caret()),
                old(self).caret(),
            ),
            final(self).caret() == snap_up(
                grapheme_clusters(final(query)@),
                word_start(old(query)@, old(self).caret()),
            ),
            final(self).window() == snap_down(
                grapheme_clusters(final(query)@),
                if old(self).window() <= final(self).caret() {
                    old(self).window()
                } else {
                    final(self).caret()
                },
            ),
            final(self).caret() <= final(query)@.len(),
            final(self).recalled() is None,
            final(self).draft() == old(self).draft(),
            final(self).recent() == old(self).recent(),
    {
        let end = self.cursor;
        let prefix = query.as_str().substring_char(0, end);
        let gs = graphemes(prefix);
        let ghost g = grapheme_clusters(prefix@);
        let mut k = gs.len();
        let mut pos = end;
        let mut word = false;
        let mut start = end;
        proof {
            assert(g.take(g.len() as int) =~= g);
        }
        while k > 0
            invariant
                k <= gs.len(),
                gs@.map_values(|x: String| x@) == g,
                g.flatten() == prefix@,
                prefix@.len() == end,
                pos == g.take(k as int).flatten().len(),
                start <= end,
                pos <= end,
                word_from(g, k as int, word, start as int) == word_from(
                    g,
                    g.len() as int,
                    false,
                    end as int,
                ),
            ensures
                start <= end,
                word_from(g, g.len() as int, false, end as int) == start,
            decreases k,
        {
            let cluster = chars_of(gs[k - 1].as_str());
            assert(g[k - 1] == gs@[k - 1]@);
            let space = is_all_whitespace(cluster.as_slice());
            proof {
                lemma_take_push(g, k - 1);
                assert(g.take(k as int) =~= g.take(k - 1).push(g[k - 1]));
            }
            if word && space {
                assert(word_from(g, k as int, word, start as int) == start);
                break;
            }
            if !space {
                word = true;
            }
            pos = pos - cluster.len();
            start = pos;
            k = k - 1;
        }
        assert(word_from(g, g.len() as int, false, end as int) == start);
        assert(prefix@ == old(query)@.subrange(0, end as int));
        let next = splice(query.as_str(), start, end, "");
        proof {
            reveal_strlit("");
        }
        *query = next;
        assert(query@ =~= cut(old(query)@, start as int, end as int));
        self.cursor = start;
        self.history_position = None;
        self.normalize_start(query.as_str());
    }

    /// Empty the query.
    pub fn clear(&mut self, query: &mut String)
        ensures
            final(query)@.len() == 0,
            final(self).caret() == 0,
            final(self).window() == 0,
            final(self).recalled() is None,
            final(self).draft() == old(self).draft(),
            final(self).recent() == old(self).recent(),
    {
        *query = String::new();
        self.cursor = 0;
        self.start = 0;
        self.history_position = None;
    }

    /// Show the previous (older) or next (newer) recent query; moving past the
    /// newest one brings back the query that was being typed.
    pub fn recall(&mut self, query: &mut String, previous: bool)
        requires
            previous ==> (old(self).recalled() matches Some(p) ==> p <= old(self).recent().len()),
        ensures
            old(self).recent().len() == 0 ==> {
                &&& final(query)@ == old(query)@
                &&& final(self).caret() == old(self).caret()
                &&& final(self).window() == old(self).window()
                &&& final(self).recalled() == old(self).recalled()
                &&& final(self).draft() == old(self).draft()
            },
            old(self).recent().len() > 0 ==> {
                &&& (final(query)@, final(self).recalled(), final(self).draft()) == recall_step(
                    old(self).recent(),
                    old(self).recalled(),
                    old(self).draft(),
                    old(query)@,
                    previous,
                )
                &&& final(self).caret() == final(query)@.len()
                &&& final(self).window() == 0
            },
            final(self).recent() == old(self).recent(),
    {
        let len = self.history.len();
        if len == 0 {
            return;
        }
        if previous {
            if self.history_position.is_none() {
                self.scratch = query.clone();
            }
            let position = match self.history_position {
                None => len - 1,
                Some(i) => if i == 0 {
                    0
                } else {
                    i - 1
                },
            };
            *query = self.history[position].clone();
            self.history_position = Some(position);
        } else if let Some(position) = self.history_position {
            if position < len - 1 {
                *query = self.history[position + 1].clone();
                self.history_position = Some(position + 1);
            } else {
                *query = self.scratch.clone();
                self.history_position = None;
            }
        }
        self.cursor = query.as_str().unicode_len();
        self.start = 0;
    }

    /// Record `query` as the newest recent query (empty queries are ignored).
    pub fn remember(&mut self, query: &str)
        ensures
            final(self).recent() == remembered(old(self).recent(), query@),
            final(self).caret() == old(self).caret(),
            final(self).window() == old(self).window(),
            final(self).recalled() == old(self).recalled(),
            final(self).draft() == old(self).draft(),
    {
        if query.unicode_len() == 0 {
            return;
        }
        let q = query.to_owned();
        let ghost h = old(self).recent();
        let mut kept: Vec<String> = Vec::new();
        let mut i: usize = 0;
        while i < self.history.len()
            invariant
                i <= self.history.len(),
                texts(self.history@) == h,
                q@ == query@,
                texts(kept@) == without(h.take(i as int), q@),
            decreases self.history.len() - i,
        {
            assert(h.take(i + 1).drop_last() =~= h.take(i as int));
            assert(h.take(i + 1).last() == self.history@[i as int]@);
            if self.history[i] != q {
                kept.push(self.history[i].clone());
                assert(texts(kept@) =~= without(h.take(i as int), q@).push(self.history@[i as int]@));
            }
            i = i + 1;
        }
        assert(h.take(h.len() as int) =~= h);
        kept.push(q);
        assert(texts(kept@) =~= without(h, query@).push(query@));
        if kept.len() > HISTORY_LIMIT {
            kept.remove(0);
            assert(texts(kept@) =~= without(h, query@).push(query@).drop_first());
        }
        self.history = kept;
    }

    /// The visible window of `query` for a field `width` columns wide and the
    /// caret's column within it. The window scrolls just enough to keep the
    /// caret visible and never splits a grapheme cluster.
    pub fn view(&mut self, query: &str, width: usize) -> (r: (String, usize))
        ensures
            width == 0 ==> r.0@.len() == 0 && r.1 == 0 && *final(self) == *old(self),
            width > 0 ==> {
                let g = grapheme_clusters(query@);
                let c = snap_up(g, old(self).caret());
                let s0 = snap_down(
                    g,
                    if old(self).window() <= c {
                        old(self).window()
                    } else {
                        c
                    },
                );
                let s = shrink(query@, c, s0, width as int);
                let rest = grapheme_clusters(query@.subrange(s, query@.len() as int));
                &&& final(self).caret() == c
                &&& final(self).window() == s
                &&& 0 <= s <= c <= query@.len()
                &&& r.0@ == fit(rest, 0, 0, width as int)
                &&& r.1 == if display_width(query@.subrange(s, c)) < width {
                    display_width(query@.subrange(s, c))
                } else {
                    (width - 1) as usize
                }
                &&& r.1 < width
            },
            final(self).recalled() == old(self).recalled(),
            final(self).draft() == old(self).draft(),
            final(self).recent() == old(self).recent(),
    {
        if width == 0 {
            return (String::new(), 0);
        }
        self.normalize_start(query);
        let ghost c = self.cursor as int;
        let ghost target = shrink(query@, c, self.start as int, width as int);
        let ghost before = *self;
        while self.start < self.cursor
            invariant
                self.start <= self.cursor <= query@.len(),
                self.cursor == before.cursor,
                self.history_position == before.history_position,
                self.scratch == before.scratch,
                self.history == before.history,
                c == self.cursor,
                shrink(query@, c, self.start as int, width as int) == target,
            ensures
                self.start <= self.cursor <= query@.len(),
                self.cursor == before.cursor,
                self.history_position == before.history_position,
                self.scratch == before.scratch,
                self.history == before.history,
                self.start == target,
            decreases self.cursor - self.start,
        {
            let part = query.substring_char(self.start, self.cursor);
            if text_width(part) < width {
                assert(shrink(query@, c, self.start as int, width as int) == self.start);
                break;
            }
            let lens = cluster_lengths(part);
            let ghost g = grapheme_clusters(part@);
            if lens.len() == 0 {
                assert(shrink(query@, c, self.start as int, width as int) == self.start);
                break;
            }
            proof {
                lemma_take_push(g, 0);
            }
            self.start = self.start + lens[0];
        }
        let total = query.unicode_len();
        let rest = query.substring_char(self.start, total);
        let gs = graphemes(rest);
        let ghost g = grapheme_clusters(rest@);
        let mut text = String::new();
        let mut used: usize = 0;
        let mut i: usize = 0;
        while i < gs.len()
            invariant
                i <= gs.len(),
                gs@.map_values(|x: String| x@) == g,
                used <= width,
                text@ + fit(g, i as int, used as int, width as int) == fit(g, 0, 0, width as int),
            ensures
                text@ == fit(g, 0, 0, width as int),
            decreases gs.len() - i,
        {
            let size = text_width(gs[i].as_str());
            assert(g[i as int] == gs@[i as int]@);
            if size > width - used {
                assert(fit(g, i as int, used as int, width as int) =~= Seq::empty());
                assert(text@ =~= text@ + fit(g, i as int, used as int, width as int));
                break;
            }
            text.append(gs[i].as_str());
            assert(text@ + fit(g, i + 1, (used + size) as int, width as int) =~= fit(g, 0, 0, width as int));
            used = used + size;
            i = i + 1;
        }
        let shown = text_width(query.substring_char(self.start, self.cursor));
        let column = if shown < width {
            shown
        } else {
            width - 1
        };
        (text, column)
    }
}

} // verus!

verus! {

/// `c` is where some cluster of `gs` starts, or the end of the text.
pub open spec fn is_boundary(gs: Seq<Seq<char>>, c: int) -> bool {
    exists|k: int| 0 <= k <= gs.len() && #[trigger] gs.take(k).flatten().len() == c
}

proof fn lemma_up_from_boundary(gs: Seq<Seq<char>>, i: int, c: int)
    requires
        0 <= i <= gs.len(),
    ensures
        is_boundary(gs, up_from(gs, i, gs.take(i).flatten().len() as int, c)),
        c <= gs.flatten().len() ==> up_from(gs, i, gs.take(i).flatten().len() as int, c) >= c,
    decreases gs.len() - i,
{
    let base = gs.take(i).flatten().len() as int;
    if i < gs.len() && base < c {
        lemma_take_push(gs, i);
        lemma_up_from_boundary(gs, i + 1, c);
    } else {
        assert(gs.take(i).flatten().len() == base);
        if i == gs.len() {
            assert(gs.take(i) =~= gs);
        }
    }
}

/// Law: the editor's caret is always snapped onto a grapheme boundary, so no
/// edit ever leaves it inside a grapheme cluster, and snapping never moves it
/// backwards.
pub proof fn lemma_caret_on_boundary(q: Seq<char>, c: int)
    ensures
        is_boundary(grapheme_clusters(q), snap_up(grapheme_clusters(q), c)),
        c <= grapheme_clusters(q).flatten().len() ==> snap_up(grapheme_clusters(q), c) >= c,
{
    let gs = grapheme_clusters(q);
    assert(gs.take(0) =~= Seq::<Seq<char>>::empty());
    lemma_up_from_boundary(gs, 0, c);
}

proof fn lemma_without(h: Seq<Seq<char>>, q: Seq<char>)
    ensures
        without(h, q).len() <= h.len(),
        forall|i: int| 0 <= i < without(h, q).len() ==> #[trigger] without(h, q)[i] != q,
        forall|i: int| 0 <= i < without(h, q).len() ==> h.contains(#[trigger] without(h, q)[i]),
    decreases h.len(),
{
    if h.len() > 0 {
        lemma_without(h.drop_last(), q);
        let rest = without(h.drop_last(), q);
        assert forall|i: int| 0 <= i < without(h, q).len() implies h.contains(
            #[trigger] without(h, q)[i],
        ) by {
            if i < rest.len() {
                let j = choose|j: int| 0 <= j < h.drop_last().len() && h.drop_last()[j] == rest[i];
                assert(h[j] == rest[i]);
            } else {
                assert(h[h.len() - 1] == h.last());
            }
        }
    }
}

/// Law: remembering a query keeps the recent-query list within its limit,
/// makes the query the newest entry, and leaves no other copy of it.
pub proof fn lemma_remembered_bounded(h: Seq<Seq<char>>, q: Seq<char>)
    requires
        h.len() <= HISTORY_LIMIT,
    ensures
        remembered(h, q).len() <= HISTORY_LIMIT,
        q.len() > 0 ==> remembered(h, q).last() == q,
        q.len() > 0 ==> forall|i: int|
            0 <= i < remembered(h, q).len() - 1 ==> #[trigger] remembered(h, q)[i] != q,
        forall|i: int|
            0 <= i < remembered(h, q).len() ==> #[trigger] remembered(h, q)[i] == q || h.contains(
                remembered(h, q)[i],
            ),
{
    lemma_without(h, q);
    if q.len() > 0 {
        let next = without(h, q).push(q);
        assert forall|i: int| 0 <= i < remembered(h, q).len() implies #[trigger] remembered(
            h,
            q,
        )[i] == q || h.contains(remembered(h, q)[i]) by {
            if next.len() > HISTORY_LIMIT {
                assert(remembered(h, q)[i] == next[i + 1]);
                if i + 1 < without(h, q).len() {
                    assert(next[i + 1] == without(h, q)[i + 1]);
                }
            } else {
                if i < without(h, q).len() {
                    assert(next[i] == without(h, q)[i]);
                }
            }
        }
        assert forall|i: int| 0 <= i < remembered(h, q).len() - 1 implies #[trigger] remembered(
            h,
            q,
        )[i] != q by {
            if next.len() > HISTORY_LIMIT {
                assert(remembered(h, q)[i] == without(h, q)[i + 1]);
            } else {
                assert(remembered(h, q)[i] == without(h, q)[i]);
            }
        }
    }
}

} // verus!
