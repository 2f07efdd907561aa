//! Locating a lowercase query inside a text, reported in the text's own byte
//! offsets and widened to whole grapheme clusters.
use std::ops::Range;
use crate::app::Focus;
use crate::search::Editor;
use vstd::prelude::*;
use crate::formatting::{decimal, digits_of};
use crate::text::{
    chars_of, extend_chars, string_of, display_width, find, find_from, grapheme_clusters, graphemes, lemma_find_from_bounds,
    lowercase, occurs_at, push_char, text_width, to_lowercase,
};

verus! {

/// Number of bytes in the UTF-8 encoding of `c` (`char::len_utf8`).
pub open spec fn char_bytes(c: char) -> nat {
    if (c as u32) < 0x80 {
        1
    } else if (c as u32) < 0x800 {
        2
    } else if (c as u32) < 0x10000 {
        3
    } else {
        4
    }
}

/// Number of bytes in the UTF-8 encoding of `s` (`str::len`).
pub open spec fn byte_len(s: Seq<char>) -> nat
    decreases s.len(),
{
    if s.len() == 0 {
        0
    } else {
        byte_len(s.drop_last()) + char_bytes(s.last())
    }
}

/// Byte offset of character position `i` of `s`.
pub open spec fn byte_offset(s: Seq<char>, i: int) -> int {
    byte_len(s.take(i)) as int
}

/// Every character of `s` is ASCII (`str::is_ascii`).
pub open spec fn is_ascii_text(s: Seq<char>) -> bool {
    forall|i: int| 0 <= i < s.len() ==> (#[trigger] s[i] as u32) < 0x80
}

/// Character positions of the first `n` non-overlapping occurrences of `q`
/// in `s` at or after `from`, left to right (`str::match_indices`).
pub open spec fn occurrences(s: Seq<char>, q: Seq<char>, from: int, n: nat) -> Seq<int>
    decreases n,
{
    if n == 0 {
        seq![]
    } else {
        match find_from(s, q, from) {
            Some(i) => seq![i] + occurrences(s, q, i + q.len(), (n - 1) as nat),
            None => seq![],
        }
    }
}

/// Byte ranges in `s` of the first `n` non-overlapping occurrences of `q`.
pub open spec fn hits(s: Seq<char>, q: Seq<char>, n: nat) -> Seq<(int, int)> {
    occurrences(s, q, 0, n).map_values(|i: int| (byte_offset(s, i), byte_offset(s, i + q.len())))
}

/// Bytes of the lowercased clusters before cluster `k`.
pub open spec fn folded_before(gs: Seq<Seq<char>>, k: int) -> int
    decreases k,
{
    if k <= 0 {
        0
    } else {
        folded_before(gs, k - 1) + byte_len(lowercase(gs[k - 1]))
    }
}

/// Byte offset of cluster `k` in the text the clusters make up.
pub open spec fn cluster_offset(gs: Seq<Seq<char>>, k: int) -> int {
    byte_len(gs.take(k).flatten()) as int
}

/// The first cluster at or after `k` whose lowercased form reaches past
/// lowercase byte `x`, or the number of clusters where there is none.
pub open spec fn cluster_past(gs: Seq<Seq<char>>, x: int, k: int) -> int
    decreases gs.len() - k,
{
    if k >= gs.len() {
        gs.len() as int
    } else if folded_before(gs, k + 1) > x {
        k
    } else {
        cluster_past(gs, x, k + 1)
    }
}

/// The text span of the clusters that hold lowercase bytes `h.0 .. h.1`.
pub open spec fn cluster_span(gs: Seq<Seq<char>>, h: (int, int)) -> (int, int) {
    (cluster_offset(gs, cluster_past(gs, h.0, 0)), cluster_offset(gs, cluster_past(gs, h.1 - 1, 0) + 1))
}

/// Widens each hit to whole clusters, in order, dropping hits that reach
/// past the last cluster and a span equal to the one before it.
pub open spec fn widened(gs: Seq<Seq<char>>, hs: Seq<(int, int)>) -> Seq<(int, int)>
    decreases hs.len(),
{
    if hs.len() == 0 {
        seq![]
    } else {
        let acc = widened(gs, hs.drop_last());
        let span = cluster_span(gs, hs.last());
        if cluster_past(gs, hs.last().1 - 1, 0) >= gs.len() {
            acc
        } else if acc.len() > 0 && acc.last() == span {
            acc
        } else {
            acc.push(span)
        }
    }
}

/// The spans that a search for `query` marks in `text`, at most `limit + 1`
/// of them: the occurrences in the lowercased text, taken as they are when
/// `text` is ASCII and widened to whole clusters of `text` otherwise.
pub open spec fn highlights(text: Seq<char>, query: Seq<char>, limit: nat) -> Seq<(int, int)> {
    if query.len() == 0 {
        seq![]
    } else if is_ascii_text(text) {
        hits(lowercase(text), query, limit + 1)
    } else {
        widened(grapheme_clusters(text), hits(lowercase(text), query, limit + 1))
    }
}

/// The ranges as pairs of integers.
pub open spec fn spans(r: Seq<Range<usize>>) -> Seq<(int, int)> {
    r.map_values(|x: Range<usize>| (x.start as int, x.end as int))
}

/// Byte lengths add up over concatenation, and a text has at least as many
/// bytes as characters.
pub proof fn lemma_byte_len_concat(a: Seq<char>, b: Seq<char>)
    ensures
        byte_len(a + b) == byte_len(a) + byte_len(b),
        byte_len(b) >= b.len(),
    decreases b.len(),
{
    if b.len() == 0 {
        assert(a + b =~= a);
    } else {
        assert((a + b).drop_last() =~= a + b.drop_last());
        lemma_byte_len_concat(a, b.drop_last());
    }
}

/// The byte length of a text is the length of its UTF-8 encoding.
pub proof fn lemma_byte_len_encoded(s: Seq<char>)
    ensures
        byte_len(s) == vstd::utf8::encode_utf8(s).len(),
    decreases s.len(),
{
    if s.len() > 0 {
        lemma_byte_len_encoded(s.drop_first());
        vstd::utf8::char_is_scalar(s[0]);
        assert(seq![s[0]] + s.drop_first() =~= s);
        lemma_byte_len_concat(seq![s[0]], s.drop_first());
        let one = seq![s[0]];
        assert(one.drop_last() =~= Seq::<char>::empty());
        assert(one.last() == s[0]);
        assert(byte_len(one.drop_last()) == 0);
        assert(byte_len(one) == char_bytes(s[0]));
        assert(vstd::utf8::encode_scalar(s[0] as u32).len() == char_bytes(s[0]));
    }
}

/// The bytes of any text are counted by `usize`.
fn text_fits(s: &str)
    ensures
        byte_len(s@) <= usize::MAX,
{
    let b = s.as_bytes();
    proof {
        lemma_byte_len_encoded(s@);
    }
    let n = b.len();
    assert(b@ == vstd::utf8::encode_utf8(s@));
    assert(n == b@.len());
}

/// Byte offsets grow by at least one per character and stay within the text.
pub proof fn lemma_offset_grows(s: Seq<char>, i: int, j: int)
    requires
        0 <= i <= j <= s.len(),
    ensures
        byte_offset(s, i) + (j - i) <= byte_offset(s, j) <= byte_len(s),
{
    lemma_byte_len_concat(s.take(i), s.subrange(i, j));
    assert(s.take(i) + s.subrange(i, j) =~= s.take(j));
    lemma_byte_len_concat(s.take(j), s.subrange(j, s.len() as int));
    assert(s.take(j) + s.subrange(j, s.len() as int) =~= s);
}

/// Number of bytes in the UTF-8 encoding of `c`.
fn char_len(c: char) -> (n: usize)
    ensures
        n == char_bytes(c),
{
    let v = c as u32;
    if v < 0x80 {
        1
    } else if v < 0x800 {
        2
    } else if v < 0x10000 {
        3
    } else {
        4
    }
}

/// Byte offsets of every character position of `s`, its end included, or
/// `None` where the text has more bytes than `usize` counts.
fn prefix_bytes(s: &[char]) -> (r: Option<Vec<usize>>)
    ensures
        match r {
            Some(v) => v@.len() == s@.len() + 1 && forall|i: int|
                0 <= i <= s@.len() ==> #[trigger] v@[i] == byte_offset(s@, i),
            None => byte_len(s@) > usize::MAX,
        },
{
    let mut v: Vec<usize> = Vec::new();
    assert(s@.take(0) =~= Seq::<char>::empty());
    v.push(0);
    let mut i: usize = 0;
    let mut total: usize = 0;
    while i < s.len()
        invariant
            i <= s.len(),
            v@.len() == i + 1,
            total == byte_offset(s@, i as int),
            forall|j: int| 0 <= j <= i ==> #[trigger] v@[j] == byte_offset(s@, j),
        decreases s.len() - i,
    {
        let n = char_len(s[i]);
        assert(s@.take(i + 1).drop_last() =~= s@.take(i as int));
        match total.checked_add(n) {
            Some(t) => {
                total = t;
            },
            None => {
                proof {
                    lemma_offset_grows(s@, i + 1, s@.len() as int);
                    assert(s@.take(s@.len() as int) =~= s@);
                }
                return None;
            },
        }
        v.push(total);
        i = i + 1;
    }
    Some(v)
}

/// Bytes in the UTF-8 encoding of `s`, or `usize::MAX` where there are more.
fn saturating_bytes(s: &[char]) -> (r: usize)
    ensures
        r == if byte_len(s@) > usize::MAX { usize::MAX as int } else { byte_len(s@) as int },
{
    let mut i: usize = 0;
    let mut total: usize = 0;
    assert(s@.take(0) =~= Seq::<char>::empty());
    while i < s.len()
        invariant
            i <= s.len(),
            total == if byte_offset(s@, i as int) > usize::MAX {
                usize::MAX as int
            } else {
                byte_offset(s@, i as int)
            },
        decreases s.len() - i,
    {
        let n = char_len(s[i]);
        assert(s@.take(i + 1).drop_last() =~= s@.take(i as int));
        total = total.saturating_add(n);
        i = i + 1;
    }
    assert(s@.take(s@.len() as int) =~= s@);
    total
}

/// Every occurrence lies at or after `from`, is one, and ends before the
/// next begins.
pub proof fn lemma_occurrences(s: Seq<char>, q: Seq<char>, from: int, n: nat)
    requires
        q.len() > 0,
        from >= 0,
    ensures
        occurrences(s, q, from, n).len() <= n,
        forall|j: int|
            0 <= j < occurrences(s, q, from, n).len() ==> from <= #[trigger] occurrences(
                s,
                q,
                from,
                n,
            )[j] && occurs_at(s, q, occurrences(s, q, from, n)[j]),
        forall|j: int, m: int|
            0 <= j < m < occurrences(s, q, from, n).len() ==> #[trigger] occurrences(
                s,
                q,
                from,
                n,
            )[j] + q.len() <= #[trigger] occurrences(s, q, from, n)[m],
    decreases n,
{
    if n > 0 {
        lemma_find_from_bounds(s, q, from);
        if let Some(i) = find_from(s, q, from) {
            lemma_occurrences(s, q, i + q.len(), (n - 1) as nat);
            let rest = occurrences(s, q, i + q.len(), (n - 1) as nat);
            let all = occurrences(s, q, from, n);
            assert(all =~= seq![i] + rest);
            assert forall|j: int| 0 <= j < all.len() implies from <= #[trigger] all[j] && occurs_at(
                s,
                q,
                all[j],
            ) by {
                if j > 0 {
                    assert(all[j] == rest[j - 1]);
                }
            }
            assert forall|j: int, m: int| 0 <= j < m < all.len() implies #[trigger] all[j] + q.len()
                <= #[trigger] all[m] by {
                assert(all[m] == rest[m - 1]);
                if j > 0 {
                    assert(all[j] == rest[j - 1]);
                }
            }
        }
    }
}

/// Character positions of the first `n` non-overlapping occurrences of `q`.
fn occurrence_starts(s: &[char], q: &[char], n: usize) -> (r: Vec<usize>)
    requires
        q@.len() > 0,
    ensures
        r@.map_values(|i: usize| i as int) == occurrences(s@, q@, 0, n as nat),
{
    let mut out: Vec<usize> = Vec::new();
    let mut from: usize = 0;
    while out.len() < n
        invariant
            q@.len() > 0,
            out@.len() <= n,
            occurrences(s@, q@, 0, n as nat) == out@.map_values(|i: usize| i as int)
                + occurrences(s@, q@, from as int, (n - out@.len()) as nat),
        decreases n - out@.len(),
    {
        match find(s, q, from) {
            Some(i) => {
                proof {
                    lemma_find_from_bounds(s@, q@, from as int);
                    assert(i + q@.len() <= s@.len());
                }
                let end = s.len();
                let ghost before = out@.map_values(|i: usize| i as int);
                out.push(i);
                assert(out@.map_values(|i: usize| i as int) =~= before.push(i as int));
                assert(before + occurrences(s@, q@, from as int, (n - before.len()) as nat)
                    =~= out@.map_values(|i: usize| i as int) + occurrences(
                    s@,
                    q@,
                    (i + q.len()) as int,
                    (n - out@.len()) as nat,
                ));
                assert(i + q.len() <= end);
                from = i + q.len();
            },
            None => {
                assert(occurrences(s@, q@, from as int, (n - out@.len()) as nat) =~= Seq::<
                    int,
                >::empty());
                assert(out@.map_values(|i: usize| i as int) + Seq::<int>::empty()
                    =~= out@.map_values(|i: usize| i as int));
                return out;
            },
        }
    }
    assert(occurrences(s@, q@, from as int, 0) =~= Seq::<int>::empty());
    assert(out@.map_values(|i: usize| i as int) + Seq::<int>::empty() =~= out@.map_values(
        |i: usize| i as int,
    ));
    out
}

/// Whether every character of `s` is ASCII.
fn ascii_only(s: &[char]) -> (r: bool)
    ensures
        r == is_ascii_text(s@),
{
    let mut i: usize = 0;
    while i < s.len()
        invariant
            i <= s.len(),
            forall|j: int| 0 <= j < i ==> (#[trigger] s@[j] as u32) < 0x80,
        decreases s.len() - i,
    {
        if (s[i] as u32) >= 0x80 {
            return false;
        }
        i = i + 1;
    }
    true
}

/// `x`, or `usize::MAX` where `x` is larger.
pub open spec fn capped(x: int) -> int {
    if x > usize::MAX {
        usize::MAX as int
    } else {
        x
    }
}

/// Lowercased clusters only add bytes.
pub proof fn lemma_folded_grows(gs: Seq<Seq<char>>, j: int, k: int)
    requires
        0 <= j <= k,
    ensures
        folded_before(gs, j) <= folded_before(gs, k),
    decreases k - j,
{
    if j < k {
        lemma_folded_grows(gs, j, k - 1);
    }
}

/// Clusters whose lowercased form ends at or before `x` are passed over.
pub proof fn lemma_past_skips(gs: Seq<Seq<char>>, x: int, j: int, k: int)
    requires
        0 <= j <= k <= gs.len(),
        folded_before(gs, k) <= x,
    ensures
        cluster_past(gs, x, j) == cluster_past(gs, x, k),
    decreases k - j,
{
    if j < k {
        lemma_folded_grows(gs, j + 1, k);
        lemma_past_skips(gs, x, j + 1, k);
    }
}

/// Lowercase byte `x` lies in cluster `k` where that cluster's lowercased
/// form covers it, and in none where every cluster ends at or before it.
pub proof fn lemma_past_at(gs: Seq<Seq<char>>, x: int, k: int)
    requires
        0 <= k <= gs.len(),
        folded_before(gs, k) <= x,
        k < gs.len() ==> x < folded_before(gs, k + 1),
    ensures
        cluster_past(gs, x, 0) == k,
{
    lemma_past_skips(gs, x, 0, k);
}

/// Cluster offsets step by each cluster's bytes and stay within the text.
pub proof fn lemma_cluster_offset_step(gs: Seq<Seq<char>>, k: int)
    requires
        0 <= k < gs.len(),
    ensures
        cluster_offset(gs, k + 1) == cluster_offset(gs, k) + byte_len(gs[k]),
        cluster_offset(gs, k + 1) <= byte_len(gs.flatten()),
{
    assert(gs.take(k + 1) =~= gs.take(k).push(gs[k]));
    gs.take(k).lemma_flatten_push(gs[k]);
    lemma_byte_len_concat(gs.take(k).flatten(), gs[k]);
    assert(gs =~= gs.take(k + 1) + gs.skip(k + 1));
    vstd::seq_lib::lemma_flatten_concat(gs.take(k + 1), gs.skip(k + 1));
    lemma_byte_len_concat(gs.take(k + 1).flatten(), gs.skip(k + 1).flatten());
}

/// Hits that reach past the last cluster leave the widened spans as they are.
pub proof fn lemma_widened_rest(gs: Seq<Seq<char>>, hs: Seq<(int, int)>, from: int, m: int)
    requires
        0 <= from <= m <= hs.len(),
        forall|j: int| from <= j < hs.len() ==> cluster_past(gs, #[trigger] hs[j].1 - 1, 0) >= gs.len(),
    ensures
        widened(gs, hs.take(m)) == widened(gs, hs.take(from)),
    decreases m - from,
{
    if from < m {
        lemma_widened_rest(gs, hs, from, m - 1);
        assert(hs.take(m).drop_last() =~= hs.take(m - 1));
        assert(hs.take(m).last() == hs[m - 1]);
    }
}

/// Hits begin before they end, and each ends at or before the next begins.
pub open spec fn ordered_hits(hs: Seq<(int, int)>) -> bool {
    &&& forall|j: int| #![trigger hs[j]] 0 <= j < hs.len() ==> hs[j].0 < hs[j].1
    &&& forall|j: int, m: int| #![trigger hs[j], hs[m]] 0 <= j < m < hs.len() ==> hs[j].1 <= hs[m].0
}

/// The byte ranges of non-overlapping occurrences are ordered and lie within the text.
pub proof fn lemma_hits(s: Seq<char>, q: Seq<char>, n: nat)
    requires
        q.len() > 0,
    ensures
        ordered_hits(hits(s, q, n)),
        forall|j: int|
            #![trigger hits(s, q, n)[j]]
            0 <= j < hits(s, q, n).len() ==> hits(s, q, n)[j].1 <= byte_len(s),
{
    let occ = occurrences(s, q, 0, n);
    let hs = hits(s, q, n);
    lemma_occurrences(s, q, 0, n);
    assert forall|j: int| #![trigger hs[j]] 0 <= j < hs.len() implies hs[j].0 < hs[j].1 <= byte_len(s) by {
        lemma_offset_grows(s, occ[j], occ[j] + q.len());
        lemma_offset_grows(s, occ[j] + q.len(), s.len() as int);
    }
    assert forall|j: int, m: int| #![trigger hs[j], hs[m]] 0 <= j < m < hs.len() implies hs[j].1
        <= hs[m].0 by {
        lemma_offset_grows(s, occ[j] + q.len(), occ[m]);
    }
}

/// Byte ranges in `s` of the first `n` non-overlapping occurrences of `q`,
/// or `None` where `s` has more bytes than `usize` counts.
fn occurrence_ranges(s: &[char], q: &[char], n: usize) -> (r: Option<Vec<Range<usize>>>)
    requires
        q@.len() > 0,
    ensures
        match r {
            Some(v) => spans(v@) == hits(s@, q@, n as nat) && byte_len(s@) <= usize::MAX,
            None => byte_len(s@) > usize::MAX,
        },
{
    let pos = match prefix_bytes(s) {
        Some(p) => p,
        None => {
            return None;
        },
    };
    assert(s@.take(s@.len() as int) =~= s@);
    assert(pos@[s@.len() as int] == byte_len(s@));
    let starts = occurrence_starts(s, q, n);
    let ghost occ = occurrences(s@, q@, 0, n as nat);
    let ghost hs = hits(s@, q@, n as nat);
    proof {
        lemma_occurrences(s@, q@, 0, n as nat);
    }
    let len = s.len();
    let mut found: Vec<Range<usize>> = Vec::new();
    let mut j: usize = 0;
    while j < starts.len()
        invariant
            j <= starts.len(),
            len == s@.len(),
            starts@.map_values(|i: usize| i as int) == occ,
            hs == occ.map_values(|i: int| (byte_offset(s@, i), byte_offset(s@, i + q@.len()))),
            forall|m: int| 0 <= m < occ.len() ==> occurs_at(s@, q@, #[trigger] occ[m]),
            pos@.len() == s@.len() + 1,
            forall|i: int| 0 <= i <= s@.len() ==> #[trigger] pos@[i] == byte_offset(s@, i),
            spans(found@) == hs.take(j as int),
        decreases starts.len() - j,
    {
        let a = starts[j];
        assert(occ[j as int] == a);
        assert(a + q.len() <= len);
        let b = a + q.len();
        let ghost before = spans(found@);
        found.push(Range { start: pos[a], end: pos[b] });
        assert(spans(found@) =~= before.push(hs[j as int]));
        assert(hs.take(j + 1) =~= hs.take(j as int).push(hs[j as int]));
        j = j + 1;
    }
    assert(hs.take(hs.len() as int) =~= hs);
    Some(found)
}

/// Widens ordered hits, in lowercase byte offsets, to the grapheme clusters
/// of `text` that hold them.
fn widen(text: &str, found: &Vec<Range<usize>>) -> (r: Vec<Range<usize>>)
    requires
        byte_len(text@) <= usize::MAX,
        ordered_hits(spans(found@)),
    ensures
        spans(r@) == widened(grapheme_clusters(text@), spans(found@)),
{
    let gs = graphemes(text);
    let ghost g = grapheme_clusters(text@);
    let ghost hs = spans(found@);
    let mut result: Vec<Range<usize>> = Vec::new();
    let mut index: usize = 0;
    let mut folded: usize = 0;
    let mut offset: usize = 0;
    let mut start: Option<usize> = None;
    let mut k: usize = 0;
    proof {
        assert(g.take(0) =~= Seq::<Seq<char>>::empty());
        assert(hs.take(0) =~= Seq::<(int, int)>::empty());
        assert(spans(result@) =~= Seq::<(int, int)>::empty());
        assert(g.take(0).flatten() =~= Seq::<char>::empty());
        if hs.len() > 0 {
            assert(hs[0].0 < hs[0].1);
        }
    }
    while k < gs.len() && index < found.len()
        invariant
            k <= gs.len(),
            index <= found.len(),
            gs@.map_values(|x: String| x@) == g,
            g.flatten() == text@,
            byte_len(text@) <= usize::MAX,
            spans(found@) == hs,
            ordered_hits(hs),
            offset == cluster_offset(g, k as int),
            folded == capped(folded_before(g, k as int)),
            spans(result@) == widened(g, hs.take(index as int)),
            index < hs.len() ==> hs[index as int].1 > folded_before(g, k as int),
            start.is_some() == (index < hs.len() && hs[index as int].0 < folded_before(
                g,
                k as int,
            )),
            start matches Some(v) ==> v == cluster_offset(g, cluster_past(g, hs[index as int].0, 0)),
        decreases gs.len() - k,
    {
        proof {
            lemma_cluster_offset_step(g, k as int);
            lemma_folded_grows(g, k as int, k + 1);
        }
        let gc = chars_of(gs[k].as_str());
        let glen = saturating_bytes(gc.as_slice());
        let low = to_lowercase(gs[k].as_str());
        let lowc = chars_of(low.as_str());
        let llen = saturating_bytes(lowc.as_slice());
        let end = folded.saturating_add(llen);
        let ghost fk = folded_before(g, k as int);
        let ghost fk1 = folded_before(g, k + 1);
        assert(end == capped(fk1));
        assert(offset + glen == cluster_offset(g, k + 1));
        while index < found.len() && found[index].start < end
            invariant_except_break
                index < hs.len() ==> hs[index as int].1 > fk,
                start.is_some() == (index < hs.len() && hs[index as int].0 < fk),
            invariant
                k < gs.len(),
                index <= found.len(),
                spans(found@) == hs,
                ordered_hits(hs),
                offset == cluster_offset(g, k as int),
                offset + glen == cluster_offset(g, k + 1),
                offset + glen <= usize::MAX,
                fk == folded_before(g, k as int),
                fk1 == folded_before(g, k + 1),
                fk <= fk1,
                end == capped(fk1),
                g.len() == gs@.len(),
                spans(result@) == widened(g, hs.take(index as int)),
                start matches Some(v) ==> v == cluster_offset(
                    g,
                    cluster_past(g, hs[index as int].0, 0),
                ),
            ensures
                index < hs.len() ==> hs[index as int].1 > fk1,
                start.is_some() == (index < hs.len() && hs[index as int].0 < fk1),
            decreases found.len() - index,
        {
            let ghost h = hs[index as int];
            if start.is_none() {
                proof {
                    lemma_past_at(g, h.0, k as int);
                }
                start = Some(offset);
            }
            if found[index].end > end {
                break;
            }
            proof {
                lemma_past_at(g, h.1 - 1, k as int);
            }
            let s0 = start.unwrap();
            let e0 = offset + glen;
            let ghost before = spans(result@);
            assert(cluster_span(g, h) == (s0 as int, e0 as int));
            assert(hs.take(index + 1).drop_last() =~= hs.take(index as int));
            assert(hs.take(index + 1).last() == h);
            let l = result.len();
            if l == 0 || result[l - 1].start != s0 || result[l - 1].end != e0 {
                result.push(Range { start: s0, end: e0 });
                assert(spans(result@) =~= before.push((s0 as int, e0 as int)));
            }
            index = index + 1;
            start = None;
            if index < found.len() {
                assert(hs[index - 1].1 <= hs[index as int].0);
                assert(hs[index as int].0 < hs[index as int].1);
            }
        }
        folded = end;
        offset = offset + glen;
        k = k + 1;
    }
    proof {
        if index < hs.len() {
            assert(k == g.len());
            assert forall|j: int| index <= j < hs.len() implies cluster_past(
                g,
                #[trigger] hs[j].1 - 1,
                0,
            ) >= g.len() by {
                lemma_folded_grows(g, 0, g.len() as int);
                if j > index {
                    assert(hs[index as int].1 <= hs[j].0);
                    assert(hs[j].0 < hs[j].1);
                }
                lemma_past_at(g, hs[j].1 - 1, g.len() as int);
            }
            lemma_widened_rest(g, hs, index as int, hs.len() as int);
        }
        assert(hs.take(hs.len() as int) =~= hs);
    }
    result
}

/// Spans of the occurrences of `query` in `text`, in byte offsets of `text`:
/// at most `limit + 1` of them. Where `text` is ASCII these are the
/// occurrences in its lowercased form; otherwise each occurrence is widened
/// to the grapheme clusters that hold it, and a span equal to the one before
/// it is not repeated. The query is compared as it is given (callers pass it
/// lowercased).
pub fn ranges(text: &str, query: &str, limit: usize) -> (r: Vec<Range<usize>>)
    requires
        limit < usize::MAX,
    ensures
        spans(r@) == highlights(text@, query@, limit as nat),
{
    if query.is_empty() {
        return Vec::new();
    }
    text_fits(text);
    let lower = to_lowercase(text);
    text_fits(lower.as_str());
    let lc = chars_of(lower.as_str());
    let qc = chars_of(query);
    let found = match occurrence_ranges(lc.as_slice(), qc.as_slice(), limit + 1) {
        Some(f) => f,
        None => {
            return Vec::new();
        },
    };
    proof {
        lemma_hits(lc@, qc@, (limit + 1) as nat);
    }
    let tc = chars_of(text);
    if ascii_only(tc.as_slice()) {
        return found;
    }
    widen(text, &found)
}

/// How many search hits a document keeps.
pub const LIMIT: usize = 10_000;

/// A highlighted stretch of a row: the hit it shows, and its bytes in the
/// row's text.
#[derive(Debug)]
pub struct Piece {
    pub hit: usize,
    pub bytes: Range<usize>,
}

/// A screen row of the details text: its text, the line it comes from, its
/// first byte in that line, and the hits it shows.
pub struct Row {
    pub text: String,
    pub logical: usize,
    pub start: usize,
    pub pieces: Vec<Piece>,
}

/// The details text wrapped into rows, the row of each search hit, whether
/// hits were left out past `LIMIT`, and the widest row's width.
pub struct Document {
    pub rows: Vec<Row>,
    pub hits: Vec<usize>,
    pub truncated: bool,
    pub max_width: usize,
}

/// A piece as (hit, first byte, end byte).
pub open spec fn piece_view(p: Piece) -> (int, int, int) {
    (p.hit as int, p.bytes.start as int, p.bytes.end as int)
}

/// A row as (text, line, first byte, pieces).
pub open spec fn row_view(r: Row) -> (Seq<char>, int, int, Seq<(int, int, int)>) {
    (r.text@, r.logical as int, r.start as int, r.pieces@.map_values(|p: Piece| piece_view(p)))
}

/// The rows as views.
pub open spec fn rows_view(rs: Seq<Row>) -> Seq<(Seq<char>, int, int, Seq<(int, int, int)>)> {
    rs.map_values(|r: Row| row_view(r))
}

/// A document as (rows, hit rows, truncated, widest row).
pub open spec fn doc_view(d: Document) -> (Seq<(Seq<char>, int, int, Seq<(int, int, int)>)>, Seq<int>, bool, int) {
    (rows_view(d.rows@), d.hits@.map_values(|h: usize| h as int), d.truncated, d.max_width as int)
}

/// What `textwrap::wrap` gives for a text, a width, and the indentation of
/// every row after the first.
pub uninterp spec fn wrapped(text: Seq<char>, width: usize, indent: Seq<char>) -> Seq<Seq<char>>;

/// Wraps `text` to `width` columns with `textwrap::wrap`, indenting the rows
/// after the first by `indent`.
#[verifier::external_body]
fn wrap_text(text: &str, width: usize, indent: &str) -> (r: Vec<String>)
    requires
        width > 0,
    ensures
        r@.map_values(|s: String| s@) == wrapped(text@, width, indent@),
{
    textwrap::wrap(text, textwrap::Options::new(width).subsequent_indent(indent)).into_iter().map(
        |part| part.into_owned(),
    ).collect()
}

/// The first position at or after `from` where bytes `p` occur in `s`.
pub open spec fn find_bytes(s: Seq<u8>, p: Seq<u8>, from: int) -> Option<int>
    decreases s.len() + 1 - from,
{
    if from < 0 || from + p.len() > s.len() {
        None
    } else if s.subrange(from, from + p.len()) == p {
        Some(from)
    } else {
        find_bytes(s, p, from + 1)
    }
}

proof fn lemma_find_bytes_bounds(s: Seq<u8>, p: Seq<u8>, from: int)
    ensures
        find_bytes(s, p, from) matches Some(i) ==> from <= i && i + p.len() <= s.len(),
    decreases s.len() + 1 - from,
{
    if from >= 0 && from + p.len() <= s.len() && s.subrange(from, from + p.len()) != p {
        lemma_find_bytes_bounds(s, p, from + 1);
    }
}

/// Whether `s` holds `p` at byte `at`.
fn bytes_at(s: &[u8], p: &[u8], at: usize) -> (r: bool)
    ensures
        r == (at + p@.len() <= s@.len() && s@.subrange(at as int, at + p@.len()) == p@),
{
    let slen = s.len();
    if at > slen || p.len() > slen - at {
        return false;
    }
    let mut k: usize = 0;
    while k < p.len()
        invariant
            k <= p.len(),
            slen == s@.len(),
            at + p@.len() <= s@.len(),
            forall|j: int| 0 <= j < k ==> s@[at + j] == p@[j],
        decreases p.len() - k,
    {
        if s[at + k] != p[k] {
            assert(s@.subrange(at as int, at + p@.len())[k as int] != p@[k as int]);
            return false;
        }
        k = k + 1;
    }
    assert(s@.subrange(at as int, at + p@.len()) =~= p@);
    true
}

/// Finds bytes `p` in `s` at or after `from` (`str::find` on the rest).
fn find_in_bytes(s: &[u8], p: &[u8], from: usize) -> (r: Option<usize>)
    ensures
        match r {
            Some(i) => find_bytes(s@, p@, from as int) == Some(i as int),
            None => find_bytes(s@, p@, from as int) is None,
        },
{
    let mut i = from;
    while i <= s.len() && p.len() <= s.len() - i
        invariant
            from <= i,
            find_bytes(s@, p@, i as int) == find_bytes(s@, p@, from as int),
        decreases s.len() + 1 - i,
    {
        if bytes_at(s, p, i) {
            return Some(i);
        }
        if i == s.len() {
            assert(find_bytes(s@, p@, i + 1) is None);
            return None;
        }
        i = i + 1;
    }
    None
}

/// The first byte at or after `i` of `p` that is not a space.
pub open spec fn space_end(p: Seq<u8>, i: int) -> int
    decreases p.len() - i,
{
    if i < 0 || i >= p.len() || p[i] != 0x20u8 {
        i
    } else {
        space_end(p, i + 1)
    }
}

proof fn lemma_space_end_bounds(p: Seq<u8>, i: int)
    requires
        0 <= i <= p.len(),
    ensures
        i <= space_end(p, i) <= p.len(),
    decreases p.len() - i,
{
    if i < p.len() && p[i] == 0x20u8 {
        lemma_space_end_bounds(p, i + 1);
    }
}

/// Where a wrapped row with bytes `p` lies in its line's bytes `t`, looking
/// from byte `c`: (indentation the wrapping added, first byte, end byte).
/// The row is found as it is, or else without its leading spaces; a row
/// found nowhere is taken as all indentation, at `c`.
pub open spec fn placed(t: Seq<u8>, p: Seq<u8>, c: int) -> (int, int, int) {
    if c + p.len() <= t.len() && t.subrange(c, c + p.len()) == p {
        (0, c, c + p.len())
    } else {
        let k = space_end(p, 0);
        let content = p.skip(k);
        match find_bytes(t, content, c) {
            Some(i) => (k, i, i + content.len()),
            None => (p.len() as int, c, c),
        }
    }
}

/// Places a wrapped row in its line.
fn place(t: &[u8], p: &[u8], c: usize) -> (r: (usize, usize, usize))
    requires
        c <= t@.len(),
    ensures
        (r.0 as int, r.1 as int, r.2 as int) == placed(t@, p@, c as int),
        c <= r.2 <= t@.len(),
        r.1 <= r.2,
        r.0 <= p@.len(),
{
    let tlen = t.len();
    if bytes_at(t, p, c) {
        return (0, c, c + p.len());
    }
    let mut k: usize = 0;
    while k < p.len() && p[k] == 0x20
        invariant
            k <= p.len(),
            space_end(p@, k as int) == space_end(p@, 0),
        decreases p.len() - k,
    {
        k = k + 1;
    }
    let mut content: Vec<u8> = Vec::new();
    let mut j = k;
    while j < p.len()
        invariant
            k <= j <= p.len(),
            content@ == p@.subrange(k as int, j as int),
        decreases p.len() - j,
    {
        content.push(p[j]);
        assert(p@.subrange(k as int, j + 1) =~= content@);
        j = j + 1;
    }
    assert(content@ =~= p@.skip(k as int));
    match find_in_bytes(t, content.as_slice(), c) {
        Some(i) => {
            proof {
                lemma_find_bytes_bounds(t@, content@, c as int);
            }
            assert(i + content@.len() <= tlen);
            (k, i, i + content.len())
        },
        None => (p.len(), c, c),
    }
}

/// The first hit from `i` on that ends after byte `start`.
pub open spec fn first_after(m: Seq<(int, int)>, i: int, start: int) -> int
    decreases m.len() - i,
{
    if i < 0 || i >= m.len() || m[i].1 > start {
        i
    } else {
        first_after(m, i + 1, start)
    }
}

/// The first hit from `i` on that starts at or after byte `end`.
pub open spec fn first_from(m: Seq<(int, int)>, i: int, end: int) -> int
    decreases m.len() - i,
{
    if i < 0 || i >= m.len() || m[i].0 >= end {
        i
    } else {
        first_from(m, i + 1, end)
    }
}

/// The part of hit `h` within line bytes `start .. end`, in the row's bytes.
pub open spec fn clip(h: (int, int), start: int, end: int, prefix: int) -> (int, int) {
    (
        prefix + (if h.0 > start {
            h.0
        } else {
            start
        }) - start,
        prefix + (if h.1 < end {
            h.1
        } else {
            end
        }) - start,
    )
}

/// Whether a row with bytes `p` can show bytes `b`: a non-empty stretch
/// within it that begins and ends between characters.
pub open spec fn shows(p: Seq<u8>, b: (int, int)) -> bool {
    &&& 0 <= b.0 < b.1 <= p.len()
    &&& vstd::utf8::is_char_boundary(p, b.0)
    &&& vstd::utf8::is_char_boundary(p, b.1)
}

/// The pieces a row with bytes `p` shows of hits `from .. to` (numbered
/// from `base`), in order.
pub open spec fn row_pieces(
    m: Seq<(int, int)>,
    p: Seq<u8>,
    from: int,
    to: int,
    start: int,
    end: int,
    prefix: int,
    base: int,
) -> Seq<(int, int, int)>
    decreases to - from,
{
    if to <= from {
        seq![]
    } else {
        let acc = row_pieces(m, p, from, to - 1, start, end, prefix, base);
        let b = clip(m[to - 1], start, end, prefix);
        if shows(p, b) {
            acc.push((base + to - 1, b.0, b.1))
        } else {
            acc
        }
    }
}

proof fn lemma_row_pieces_hits(
    m: Seq<(int, int)>,
    p: Seq<u8>,
    from: int,
    to: int,
    start: int,
    end: int,
    prefix: int,
    base: int,
)
    ensures
        forall|k: int|
            0 <= k < row_pieces(m, p, from, to, start, end, prefix, base).len() ==> base + from
                <= #[trigger] row_pieces(m, p, from, to, start, end, prefix, base)[k].0 < base + to,
    decreases to - from,
{
    if to > from {
        lemma_row_pieces_hits(m, p, from, to - 1, start, end, prefix, base);
        let acc = row_pieces(m, p, from, to - 1, start, end, prefix, base);
        let all = row_pieces(m, p, from, to, start, end, prefix, base);
        assert forall|k: int| 0 <= k < all.len() implies base + from <= #[trigger] all[k].0 < base + to by {
            if k < acc.len() {
                assert(all[k] == acc[k]);
            }
        }
    }
}

/// Skips the hits that end at or before byte `start`.
fn skip_ended(m: &Vec<Range<usize>>, i: usize, start: usize) -> (r: usize)
    requires
        i <= m.len(),
    ensures
        r == first_after(spans(m@), i as int, start as int),
        i <= r <= m.len(),
{
    let ghost v = spans(m@);
    let mut k = i;
    while k < m.len() && m[k].end <= start
        invariant
            i <= k <= m.len(),
            v == spans(m@),
            first_after(v, k as int, start as int) == first_after(v, i as int, start as int),
        decreases m.len() - k,
    {
        assert(v[k as int].1 == m@[k as int].end);
        k = k + 1;
    }
    if k < m.len() {
        assert(v[k as int].1 == m@[k as int].end);
    }
    k
}

/// The pieces of a row: the hits from `i` on that start before byte `end`,
/// clipped to the row, where the row can show them.
fn collect_pieces(
    m: &Vec<Range<usize>>,
    part: &str,
    i: usize,
    start: usize,
    end: usize,
    prefix: usize,
    base: usize,
) -> (r: (Vec<Piece>, usize))
    requires
        i <= m.len(),
        start <= end,
        base + m.len() <= LIMIT,
    ensures
        r.1 == first_from(spans(m@), i as int, end as int),
        i <= r.1 <= m.len(),
        r.0@.map_values(|p: Piece| piece_view(p)) == row_pieces(
            spans(m@),
            vstd::utf8::encode_utf8(part@),
            i as int,
            r.1 as int,
            start as int,
            end as int,
            prefix as int,
            base as int,
        ),
{
    let ghost v = spans(m@);
    let ghost pb = vstd::utf8::encode_utf8(part@);
    let plen = part.as_bytes().len();
    let mut out: Vec<Piece> = Vec::new();
    let mut k = i;
    while k < m.len() && m[k].start < end
        invariant
            i <= k <= m.len(),
            v == spans(m@),
            pb == vstd::utf8::encode_utf8(part@),
            plen == pb.len(),
            base + m.len() <= LIMIT,
            start <= end,
            first_from(v, k as int, end as int) == first_from(v, i as int, end as int),
            out@.map_values(|p: Piece| piece_view(p)) == row_pieces(
                v,
                pb,
                i as int,
                k as int,
                start as int,
                end as int,
                prefix as int,
                base as int,
            ),
        decreases m.len() - k,
    {
        let h = &m[k];
        assert(v[k as int] == (h.start as int, h.end as int));
        let ghost b = clip(v[k as int], start as int, end as int, prefix as int);
        let ghost before = out@.map_values(|p: Piece| piece_view(p));
        let lo = if h.start > start {
            h.start
        } else {
            start
        };
        let hi = if h.end < end {
            h.end
        } else {
            end
        };
        let mut kept = false;
        if hi >= start {
            if let Some(b0) = prefix.checked_add(lo - start) {
                if let Some(b1) = prefix.checked_add(hi - start) {
                    assert(b == (b0 as int, b1 as int));
                    if b0 < b1 && b1 <= plen && part.is_char_boundary(b0) && part.is_char_boundary(b1) {
                        out.push(Piece { hit: base + k, bytes: Range { start: b0, end: b1 } });
                        kept = true;
                        assert(out@.map_values(|p: Piece| piece_view(p)) =~= before.push(
                            (base + k, b.0, b.1),
                        ));
                    } else {
                        assert(!shows(pb, b));
                    }
                } else {
                    assert(!shows(pb, b));
                }
            } else {
                assert(!shows(pb, b));
            }
        } else {
            assert(!shows(pb, b));
        }
        assert(kept == shows(pb, b));
        k = k + 1;
    }
    if k < m.len() {
        assert(v[k as int].0 == m@[k as int].start);
    }
    (out, k)
}

/// Whether `pieces` show hit `h`.
pub open spec fn shows_hit(pieces: Seq<(int, int, int)>, h: int) -> bool {
    exists|k: int| 0 <= k < pieces.len() && pieces[k].0 == h
}

/// One more row of a line: it is placed in the line's bytes `t`, shows the
/// hits `m` (numbered from `base`) that fall in it, and becomes the row of
/// each of those hits that had no row yet. The state is (rows, row of each
/// hit of the line, whether the hit has its row, bytes consumed, first hit
/// not yet ended, widest row).
pub open spec fn part_step(
    st: (Seq<(Seq<char>, int, int, Seq<(int, int, int)>)>, Seq<int>, Seq<bool>, int, int, int),
    part: Seq<char>,
    t: Seq<u8>,
    m: Seq<(int, int)>,
    logical: int,
    base: int,
) -> (Seq<(Seq<char>, int, int, Seq<(int, int, int)>)>, Seq<int>, Seq<bool>, int, int, int) {
    let pb = vstd::utf8::encode_utf8(part);
    let pl = placed(t, pb, st.3);
    let fm = first_after(m, st.4, pl.1);
    let to = first_from(m, fm, pl.2);
    let pieces = row_pieces(m, pb, fm, to, pl.1, pl.2, pl.0, base);
    let row = st.0.len() as int;
    (
        st.0.push((part, logical, pl.1, pieces)),
        Seq::new(
            st.1.len(),
            |i: int|
                if !st.2[i] && shows_hit(pieces, base + i) {
                    row
                } else {
                    st.1[i]
                },
        ),
        Seq::new(st.2.len(), |i: int| st.2[i] || shows_hit(pieces, base + i)),
        pl.2,
        fm,
        if display_width(part) > st.5 {
            display_width(part) as int
        } else {
            st.5
        },
    )
}

/// The state after the first `n` rows of a line.
pub open spec fn parts_layout(
    parts: Seq<Seq<char>>,
    n: int,
    init: (Seq<(Seq<char>, int, int, Seq<(int, int, int)>)>, Seq<int>, Seq<bool>, int, int, int),
    t: Seq<u8>,
    m: Seq<(int, int)>,
    logical: int,
    base: int,
) -> (Seq<(Seq<char>, int, int, Seq<(int, int, int)>)>, Seq<int>, Seq<bool>, int, int, int)
    decreases n,
{
    if n <= 0 {
        init
    } else {
        part_step(parts_layout(parts, n - 1, init, t, m, logical, base), parts[n - 1], t, m, logical, base)
    }
}

/// The first position at or after `i` of `t` that is not a space.
pub open spec fn lead_end(t: Seq<char>, i: int) -> int
    decreases t.len() - i,
{
    if i < 0 || i >= t.len() || t[i] != ' ' {
        i
    } else {
        lead_end(t, i + 1)
    }
}

/// The indentation of a line's continuation rows: its leading spaces, at
/// most one less than the width.
pub open spec fn continuation_indent(t: Seq<char>, width: usize) -> Seq<char> {
    let lead = lead_end(t, 0);
    let cap = if width == 0 {
        0
    } else {
        width - 1
    };
    Seq::new(
        (if lead < cap {
            lead
        } else {
            cap
        }) as nat,
        |i: int| ' ',
    )
}

/// One more line of the document: its hits (none once hits were left out;
/// at most as many as `LIMIT` leaves room for, the rest marking the document
/// truncated), its rows as `textwrap` wraps it (the whole line at width 0),
/// and the row of each hit (the line's first row where no row shows it).
pub open spec fn line_step(
    d: (Seq<(Seq<char>, int, int, Seq<(int, int, int)>)>, Seq<int>, bool, int),
    t: Seq<char>,
    logical: int,
    width: usize,
    q: Seq<char>,
) -> (Seq<(Seq<char>, int, int, Seq<(int, int, int)>)>, Seq<int>, bool, int) {
    let budget = LIMIT - d.1.len();
    let found = if d.2 {
        Seq::<(int, int)>::empty()
    } else {
        highlights(t, q, budget as nat)
    };
    let m = if found.len() > budget {
        found.take(budget)
    } else {
        found
    };
    let parts = if width == 0 {
        seq![t]
    } else {
        wrapped(t, width, continuation_indent(t, width))
    };
    let init = (
        d.0,
        Seq::new(m.len(), |i: int| d.0.len() as int),
        Seq::new(m.len(), |i: int| false),
        0int,
        0int,
        d.3,
    );
    let st = parts_layout(parts, parts.len() as int, init, vstd::utf8::encode_utf8(t), m, logical, d.1.len() as int);
    (st.0, d.1 + st.1, d.2 || found.len() > budget, st.5)
}

/// The document of the first `n` lines.
pub open spec fn laid_out(lines: Seq<Seq<char>>, n: int, width: usize, q: Seq<char>) -> (
    Seq<(Seq<char>, int, int, Seq<(int, int, int)>)>,
    Seq<int>,
    bool,
    int,
)
    decreases n,
{
    if n <= 0 {
        (seq![], seq![], false, 0)
    } else {
        line_step(laid_out(lines, n - 1, width, q), lines[n - 1], n - 1, width, q)
    }
}

/// Gives each hit shown by `pieces` that has no row yet the row `row`.
fn assign_rows(
    line_hits: &mut Vec<usize>,
    assigned: &mut Vec<bool>,
    pieces: &Vec<Piece>,
    base: usize,
    row: usize,
)
    requires
        old(line_hits)@.len() == old(assigned)@.len(),
        forall|k: int|
            0 <= k < pieces@.len() ==> base <= #[trigger] pieces@[k].hit < base + old(line_hits)@.len(),
    ensures
        final(line_hits)@.len() == old(line_hits)@.len(),
        final(assigned)@.len() == old(assigned)@.len(),
        final(line_hits)@.map_values(|h: usize| h as int) == Seq::new(
            old(line_hits)@.len(),
            |i: int|
                if !old(assigned)@[i] && shows_hit(
                    pieces@.map_values(|p: Piece| piece_view(p)),
                    base + i,
                ) {
                    row as int
                } else {
                    old(line_hits)@[i] as int
                },
        ),
        final(assigned)@ == Seq::new(
            old(assigned)@.len(),
            |i: int| old(assigned)@[i] || shows_hit(pieces@.map_values(|p: Piece| piece_view(p)), base + i),
        ),
{
    let ghost h0 = line_hits@;
    let ghost a0 = assigned@;
    let ghost pv = pieces@.map_values(|p: Piece| piece_view(p));
    let mut j: usize = 0;
    while j < pieces.len()
        invariant
            j <= pieces.len(),
            pv == pieces@.map_values(|p: Piece| piece_view(p)),
            line_hits@.len() == h0.len(),
            assigned@.len() == a0.len(),
            h0.len() == a0.len(),
            forall|k: int| 0 <= k < pieces@.len() ==> base <= #[trigger] pieces@[k].hit < base + h0.len(),
            forall|i: int|
                0 <= i < h0.len() ==> #[trigger] line_hits@[i] as int == if !a0[i] && shows_hit(
                    pv.take(j as int),
                    base + i,
                ) {
                    row as int
                } else {
                    h0[i] as int
                },
            forall|i: int| 0 <= i < a0.len() ==> #[trigger] assigned@[i] == (a0[i] || shows_hit(pv.take(j as int), base + i)),
        decreases pieces.len() - j,
    {
        let i = pieces[j].hit - base;
        assert(pv[j as int].0 == pieces@[j as int].hit);
        assert forall|x: int| 0 <= x < h0.len() implies #[trigger] shows_hit(pv.take(j + 1), base + x) == (shows_hit(
            pv.take(j as int),
            base + x,
        ) || x == i) by {
            if shows_hit(pv.take(j + 1), base + x) && !shows_hit(pv.take(j as int), base + x) {
                let k = choose|k: int| 0 <= k < pv.take(j + 1).len() && #[trigger] pv.take(j + 1)[k].0 == base + x;
                if k < j {
                    assert(pv.take(j as int)[k].0 == base + x);
                }
            }
            if x == i {
                assert(pv.take(j + 1)[j as int].0 == base + x);
            }
            if shows_hit(pv.take(j as int), base + x) {
                let k = choose|k: int| 0 <= k < pv.take(j as int).len() && #[trigger] pv.take(j as int)[k].0 == base + x;
                assert(pv.take(j + 1)[k].0 == base + x);
            }
        }
        if !assigned[i] {
            line_hits.set(i, row);
            assigned.set(i, true);
        }
        j = j + 1;
    }
    assert(pv.take(pieces.len() as int) =~= pv);
    assert(line_hits@.map_values(|h: usize| h as int) =~= Seq::new(
        h0.len(),
        |i: int|
            if !a0[i] && shows_hit(pv, base + i) {
                row as int
            } else {
                h0[i] as int
            },
    ));
    assert(assigned@ =~= Seq::new(a0.len(), |i: int| a0[i] || shows_hit(pv, base + i)));
}

/// The indentation of a line's continuation rows.
fn indent_of(text: &str, width: usize) -> (r: String)
    ensures
        r@ == continuation_indent(text@, width),
{
    let tc = chars_of(text);
    let mut lead: usize = 0;
    while lead < tc.len() && tc[lead] == ' '
        invariant
            lead <= tc.len(),
            tc@ == text@,
            lead_end(text@, lead as int) == lead_end(text@, 0),
        decreases tc.len() - lead,
    {
        lead = lead + 1;
    }
    let cap = width.saturating_sub(1);
    let n = if lead < cap {
        lead
    } else {
        cap
    };
    let mut out = String::new();
    let mut i: usize = 0;
    while i < n
        invariant
            i <= n,
            out@ == Seq::new(i as nat, |k: int| ' '),
        decreases n - i,
    {
        push_char(&mut out, ' ');
        assert(out@ =~= Seq::new((i + 1) as nat, |k: int| ' '));
        i = i + 1;
    }
    assert(out@ =~= continuation_indent(text@, width));
    out
}

/// Lays out one more line of the document.
fn lay_out_line(doc: &mut Document, text: &String, logical: usize, width: usize, query: &str)
    requires
        old(doc).hits.len() <= LIMIT,
    ensures
        final(doc).hits.len() <= LIMIT,
        doc_view(*final(doc)) == line_step(doc_view(*old(doc)), text@, logical as int, width, query@),
{
    let ghost d0 = doc_view(*doc);
    let budget = LIMIT - doc.hits.len();
    let mut matches: Vec<Range<usize>> = if doc.truncated {
        Vec::new()
    } else {
        ranges(text.as_str(), query, budget)
    };
    let ghost found = spans(matches@);
    if matches.len() > budget {
        doc.truncated = true;
        matches.truncate(budget);
    }
    let ghost m = spans(matches@);
    assert(m =~= if found.len() > budget {
        found.take(budget as int)
    } else {
        found
    });
    let base = doc.hits.len();
    let first_row = doc.rows.len();
    let mut line_hits: Vec<usize> = Vec::new();
    let mut assigned: Vec<bool> = Vec::new();
    let mut i: usize = 0;
    while i < matches.len()
        invariant
            i <= matches.len(),
            line_hits@ == Seq::new(i as nat, |k: int| first_row),
            assigned@ == Seq::new(i as nat, |k: int| false),
        decreases matches.len() - i,
    {
        line_hits.push(first_row);
        assigned.push(false);
        assert(line_hits@ =~= Seq::new((i + 1) as nat, |k: int| first_row));
        assert(assigned@ =~= Seq::new((i + 1) as nat, |k: int| false));
        i = i + 1;
    }
    let parts: Vec<String> = if width == 0 {
        vec![text.clone()]
    } else {
        let indent = indent_of(text.as_str(), width);
        wrap_text(text.as_str(), width, indent.as_str())
    };
    let ghost pv = parts@.map_values(|s: String| s@);
    assert(pv =~= if width == 0 {
        seq![text@]
    } else {
        wrapped(text@, width, continuation_indent(text@, width))
    });
    let tb = text.as_str().as_bytes();
    let ghost t = vstd::utf8::encode_utf8(text@);
    let ghost init = (
        d0.0,
        Seq::new(m.len(), |i: int| d0.0.len() as int),
        Seq::new(m.len(), |i: int| false),
        0int,
        0int,
        d0.3,
    );
    let mut consumed: usize = 0;
    let mut fm: usize = 0;
    let mut k: usize = 0;
    assert(line_hits@.map_values(|h: usize| h as int) =~= init.1);
    while k < parts.len()
        invariant
            k <= parts.len(),
            pv == parts@.map_values(|s: String| s@),
            tb@ == t,
            t == vstd::utf8::encode_utf8(text@),
            m == spans(matches@),
            base + matches.len() <= LIMIT,
            base == d0.1.len(),
            consumed <= tb@.len(),
            fm <= matches.len(),
            line_hits@.len() == matches.len(),
            assigned@.len() == matches.len(),
            (rows_view(doc.rows@), line_hits@.map_values(|h: usize| h as int), assigned@, consumed as int, fm as int, doc.max_width as int)
                == parts_layout(pv, k as int, init, t, m, logical as int, base as int),
            doc.hits@ == old(doc).hits@,
            doc.truncated == (old(doc).truncated || found.len() > LIMIT - old(doc).hits.len()),
        decreases parts.len() - k,
    {
        let part = parts[k].as_str();
        let pb = part.as_bytes();
        let ghost st = parts_layout(pv, k as int, init, t, m, logical as int, base as int);
        let (prefix, start, end) = place(tb, pb, consumed);
        consumed = end;
        fm = skip_ended(&matches, fm, start);
        let (pieces, to) = collect_pieces(&matches, part, fm, start, end, prefix, base);
        proof {
            lemma_row_pieces_hits(m, pb@, fm as int, to as int, start as int, end as int, prefix as int, base as int);
            assert forall|q: int| 0 <= q < pieces@.len() implies base <= #[trigger] pieces@[q].hit < base + line_hits@.len() by {
                assert(pieces@.map_values(|p: Piece| piece_view(p))[q].0 == pieces@[q].hit);
            }
        }
        let row = doc.rows.len();
        assign_rows(&mut line_hits, &mut assigned, &pieces, base, row);
        let w = text_width(part);
        if w > doc.max_width {
            doc.max_width = w;
        }
        let ghost rows_before = rows_view(doc.rows@);
        doc.rows.push(Row { text: parts[k].clone(), logical, start, pieces });
        assert(rows_view(doc.rows@) =~= rows_before.push(row_view(doc.rows@[row as int])));
        assert(pv[k as int] == parts@[k as int]@);
        k = k + 1;
    }
    let ghost lh = line_hits@;
    let ghost rows_done = doc.rows@;
    let ghost widest = doc.max_width;
    let ghost cut = doc.truncated;
    let mut j: usize = 0;
    while j < line_hits.len()
        invariant
            j <= line_hits.len(),
            line_hits@ == lh,
            doc.rows@ == rows_done,
            doc.max_width == widest,
            doc.truncated == cut,
            doc.hits@ == old(doc).hits@ + lh.take(j as int),
        decreases line_hits.len() - j,
    {
        doc.hits.push(line_hits[j]);
        assert(lh.take(j + 1) =~= lh.take(j as int).push(lh[j as int]));
        j = j + 1;
    }
    assert(lh.take(lh.len() as int) =~= lh);
    assert(doc.hits@.map_values(|h: usize| h as int) =~= d0.1 + lh.map_values(|h: usize| h as int));
    assert(found == if d0.2 {
        Seq::<(int, int)>::empty()
    } else {
        highlights(text@, query@, budget as nat)
    });
    assert(budget == LIMIT - d0.1.len());
    let ghost st = parts_layout(pv, pv.len() as int, init, t, m, logical as int, base as int);
    assert(k == pv.len());
    assert(rows_view(doc.rows@) == st.0);
    assert(lh.map_values(|h: usize| h as int) == st.1);
    assert(doc.max_width as int == st.5);
    assert(doc.truncated == (d0.2 || found.len() > budget));
    assert(doc_view(*doc) == (st.0, d0.1 + st.1, d0.2 || found.len() > budget, st.5));
}

impl Document {
    /// Lays out `lines` in rows of `width` columns (unwrapped at width 0)
    /// and finds `query`, compared in lowercase, in every line.
    pub fn new(lines: &Vec<String>, width: usize, query: &str) -> (r: Document)
        ensures
            doc_view(r) == laid_out(
                lines@.map_values(|s: String| s@),
                lines@.len() as int,
                width,
                lowercase(query@),
            ),
            r.hits.len() <= LIMIT,
    {
        let q = to_lowercase(query);
        let ghost lv = lines@.map_values(|s: String| s@);
        let mut doc = Document { rows: Vec::new(), hits: Vec::new(), truncated: false, max_width: 0 };
        assert(doc_view(doc) =~= laid_out(lv, 0, width, q@));
        let mut i: usize = 0;
        while i < lines.len()
            invariant
                i <= lines.len(),
                lv == lines@.map_values(|s: String| s@),
                q@ == lowercase(query@),
                doc.hits.len() <= LIMIT,
                doc_view(doc) == laid_out(lv, i as int, width, q@),
            decreases lines.len() - i,
        {
            lay_out_line(&mut doc, &lines[i], i, width, q.as_str());
            assert(lv[i as int] == lines@[i as int]@);
            i = i + 1;
        }
        doc
    }
}

/// How a stretch of a row is painted: plain, as a hit, or as the current hit.
#[derive(Clone, Copy, Debug, PartialEq, Eq, Structural)]
pub enum Paint {
    Plain,
    Hit,
    Current,
}

/// Some piece begins before the piece before it ends (case expansion can
/// widen distinct hits onto the same characters).
pub open spec fn overlapping(ps: Seq<(int, int, int)>) -> bool {
    exists|k: int| 0 < k < ps.len() && #[trigger] ps[k].1 < ps[k - 1].2
}

/// A piece covers bytes `a .. b`.
pub open spec fn covers(p: (int, int, int), a: int, b: int) -> bool {
    p.1 <= a && b <= p.2
}

/// The paint of bytes `a .. b`: the current hit where a piece of it covers
/// them, a hit where any piece does, plain otherwise.
pub open spec fn paint_of(ps: Seq<(int, int, int)>, a: int, b: int, active: Option<usize>) -> Paint {
    if exists|k: int| 0 <= k < ps.len() && covers(#[trigger] ps[k], a, b) && active == Some(ps[k].0 as usize) {
        Paint::Current
    } else if exists|k: int| 0 <= k < ps.len() && covers(#[trigger] ps[k], a, b) {
        Paint::Hit
    } else {
        Paint::Plain
    }
}

/// Where pieces do not overlap: plain text up to each piece, the piece
/// itself, and plain text after the last; (stretches, where the text goes
/// on) after the first `n` pieces.
pub open spec fn in_turn(ps: Seq<(int, int, int)>, n: int, active: Option<usize>) -> (Seq<(int, int, Paint)>, int)
    decreases n,
{
    if n <= 0 {
        (seq![], 0)
    } else {
        let (acc, pos) = in_turn(ps, n - 1, active);
        let p = ps[n - 1];
        let gap = if p.1 > pos {
            acc.push((pos, p.1, Paint::Plain))
        } else {
            acc
        };
        (
            gap.push(
                (
                    p.1,
                    p.2,
                    if active == Some(p.0 as usize) {
                        Paint::Current
                    } else {
                        Paint::Hit
                    },
                ),
            ),
            p.2,
        )
    }
}

/// The cut points of a row of `len` bytes with overlapping pieces: its
/// ends and every piece's ends, in increasing order, once each.
pub open spec fn cuts(ps: Seq<(int, int, int)>, len: int, bs: Seq<int>) -> bool {
    &&& forall|a: int, b: int| 0 <= a < b < bs.len() ==> #[trigger] bs[a] < #[trigger] bs[b]
    &&& forall|j: int| 0 <= j < bs.len() ==> is_cut(ps, len, #[trigger] bs[j])
    &&& bs.contains(0)
    &&& bs.contains(len)
    &&& forall|k: int| 0 <= k < ps.len() ==> bs.contains(#[trigger] ps[k].1) && bs.contains(ps[k].2)
}

/// A row end or a piece end.
pub open spec fn is_cut(ps: Seq<(int, int, int)>, len: int, x: int) -> bool {
    x == 0 || x == len || exists|k: int| 0 <= k < ps.len() && (#[trigger] ps[k].1 == x || ps[k].2 == x)
}

/// The stretches of a row of `len` bytes with pieces `ps`, and how each is
/// painted. Overlapping pieces cut the row at every piece end and paint
/// each stretch by what covers it; otherwise the pieces take turns with
/// plain text.
pub open spec fn painted(
    ps: Seq<(int, int, int)>,
    len: int,
    active: Option<usize>,
    bs: Seq<int>,
    r: Seq<(int, int, Paint)>,
) -> bool {
    if overlapping(ps) {
        &&& cuts(ps, len, bs)
        &&& r.len() + 1 == bs.len()
        &&& forall|i: int| 0 <= i < r.len() ==> #[trigger] r[i] == (bs[i], bs[i + 1], paint_of(ps, bs[i], bs[i + 1], active))
    } else {
        let (acc, pos) = in_turn(ps, ps.len() as int, active);
        r == if pos < len {
            acc.push((pos, len, Paint::Plain))
        } else {
            acc
        }
    }
}

/// The stretches as integers.
pub open spec fn stretches(r: Seq<(usize, usize, Paint)>) -> Seq<(int, int, Paint)> {
    r.map_values(|x: (usize, usize, Paint)| (x.0 as int, x.1 as int, x.2))
}

/// Adds cut point `x` to increasing cut points `bs`.
fn insert_cut(bs: &mut Vec<usize>, x: usize)
    requires
        forall|a: int, b: int| 0 <= a < b < old(bs)@.len() ==> #[trigger] old(bs)@[a] < #[trigger] old(bs)@[b],
    ensures
        forall|a: int, b: int| 0 <= a < b < final(bs)@.len() ==> #[trigger] final(bs)@[a] < #[trigger] final(bs)@[b],
        forall|y: usize| #[trigger] final(bs)@.contains(y) <==> (old(bs)@.contains(y) || y == x),
{
    let ghost b0 = bs@;
    let mut k: usize = 0;
    while k < bs.len() && bs[k] < x
        invariant
            k <= bs.len(),
            bs@ == b0,
            forall|j: int| 0 <= j < k ==> #[trigger] b0[j] < x,
        decreases bs.len() - k,
    {
        k = k + 1;
    }
    if k < bs.len() && bs[k] == x {
        return;
    }
    bs.insert(k, x);
    assert(bs@ =~= b0.insert(k as int, x));
    assert forall|a: int, b: int| 0 <= a < b < bs@.len() implies #[trigger] bs@[a] < #[trigger] bs@[b] by {
        if a < k && b == k {
        } else if a == k && b > k {
            assert(bs@[b] == b0[b - 1]);
            if k < b - 1 {
                assert(b0[k as int] < b0[b - 1]);
            }
        } else if a < k && b > k {
            assert(bs@[b] == b0[b - 1]);
            if k < b - 1 {
                assert(b0[k as int] < b0[b - 1]);
            }
        } else if b < k {
        } else {
            assert(bs@[a] == b0[a - 1]);
            assert(bs@[b] == b0[b - 1]);
        }
    }
    assert forall|y: usize| #[trigger] bs@.contains(y) <==> (b0.contains(y) || y == x) by {
        if bs@.contains(y) {
            let j = choose|j: int| 0 <= j < bs@.len() && bs@[j] == y;
            if j < k {
                assert(b0[j] == y);
            } else if j > k {
                assert(b0[j - 1] == y);
            }
        }
        if b0.contains(y) {
            let j = choose|j: int| 0 <= j < b0.len() && b0[j] == y;
            if j < k {
                assert(bs@[j] == y);
            } else {
                assert(bs@[j + 1] == y);
            }
        }
        if y == x {
            assert(bs@[k as int] == y);
        }
    }
}

/// The paint of bytes `a .. b` of a row.
fn paint(ps: &Vec<Piece>, a: usize, b: usize, active: Option<usize>) -> (r: Paint)
    ensures
        r == paint_of(ps@.map_values(|p: Piece| piece_view(p)), a as int, b as int, active),
{
    let ghost pv = ps@.map_values(|p: Piece| piece_view(p));
    let mut current = false;
    let mut any = false;
    let mut k: usize = 0;
    while k < ps.len()
        invariant
            k <= ps.len(),
            pv == ps@.map_values(|p: Piece| piece_view(p)),
            current == exists|j: int| 0 <= j < k && covers(#[trigger] pv[j], a as int, b as int) && active == Some(pv[j].0 as usize),
            any == exists|j: int| 0 <= j < k && covers(#[trigger] pv[j], a as int, b as int),
        decreases ps.len() - k,
    {
        let p = &ps[k];
        assert(pv[k as int] == piece_view(ps@[k as int]));
        if p.bytes.start <= a && b <= p.bytes.end {
            any = true;
            if active == Some(p.hit) {
                current = true;
            }
        }
        k = k + 1;
    }
    if current {
        Paint::Current
    } else if any {
        Paint::Hit
    } else {
        Paint::Plain
    }
}

/// How to paint a row: its stretches, in order, each with its paint, the
/// current hit being `active`.
pub fn segments(row: &Row, active: Option<usize>) -> (r: Vec<(usize, usize, Paint)>)
    ensures
        exists|bs: Seq<int>|
            painted(
                row_view(*row).3,
                vstd::utf8::encode_utf8(row.text@).len() as int,
                active,
                bs,
                #[trigger] stretches(r@),
            ),
{
    let ps = &row.pieces;
    let ghost pv = row_view(*row).3;
    let len = row.text.as_str().as_bytes().len();
    let mut over = false;
    let mut k: usize = 1;
    while k < ps.len()
        invariant
            1 <= k,
            k <= ps.len() || ps.len() == 0,
            pv == ps@.map_values(|p: Piece| piece_view(p)),
            over == exists|j: int| 0 < j < k && j < pv.len() && #[trigger] pv[j].1 < pv[j - 1].2,
        decreases ps.len() - k,
    {
        assert(pv[k as int] == piece_view(ps@[k as int]));
        assert(pv[k - 1] == piece_view(ps@[k - 1]));
        let ghost was = over;
        if ps[k].bytes.start < ps[k - 1].bytes.end {
            over = true;
        }
        assert(over == exists|j: int| 0 < j < k + 1 && j < pv.len() && #[trigger] pv[j].1 < pv[j - 1].2) by {
            if over && !was {
                assert(pv[k as int].1 < pv[k - 1].2);
            }
            if exists|j: int| 0 < j < k + 1 && j < pv.len() && #[trigger] pv[j].1 < pv[j - 1].2 {
                let j = choose|j: int| 0 < j < k + 1 && j < pv.len() && #[trigger] pv[j].1 < pv[j - 1].2;
                if j < k {
                    assert(was);
                }
            }
        }
        k = k + 1;
    }
    assert(over == overlapping(pv));
    let mut out: Vec<(usize, usize, Paint)> = Vec::new();
    if over {
        let mut bs: Vec<usize> = Vec::new();
        insert_cut(&mut bs, 0);
        insert_cut(&mut bs, len);
        assert forall|i: int| 0 <= i < bs@.len() implies is_cut(pv, len as int, #[trigger] bs@[i] as int) by {
            assert(bs@.contains(bs@[i]));
        }
        let mut j: usize = 0;
        while j < ps.len()
            invariant
                j <= ps.len(),
                pv == ps@.map_values(|p: Piece| piece_view(p)),
                len as int == vstd::utf8::encode_utf8(row.text@).len(),
                forall|a: int, b: int| 0 <= a < b < bs@.len() ==> #[trigger] bs@[a] < #[trigger] bs@[b],
                forall|i: int| 0 <= i < bs@.len() ==> is_cut(pv, len as int, #[trigger] bs@[i] as int),
                bs@.contains(0usize),
                bs@.contains(len),
                forall|i: int| 0 <= i < j ==> bs@.contains(#[trigger] ps@[i].bytes.start) && bs@.contains(ps@[i].bytes.end),
            decreases ps.len() - j,
        {
            assert(pv[j as int] == piece_view(ps@[j as int]));
            let ghost b0 = bs@;
            insert_cut(&mut bs, ps[j].bytes.start);
            insert_cut(&mut bs, ps[j].bytes.end);
            assert forall|i: int| 0 <= i < bs@.len() implies is_cut(pv, len as int, #[trigger] bs@[i] as int) by {
                assert(bs@.contains(bs@[i]));
                if !b0.contains(bs@[i]) {
                    assert(pv[j as int].1 == bs@[i] || pv[j as int].2 == bs@[i]);
                } else {
                    let h = choose|h: int| 0 <= h < b0.len() && b0[h] == bs@[i];
                    assert(is_cut(pv, len as int, b0[h] as int));
                }
            }
            assert forall|i: int| 0 <= i < j + 1 implies bs@.contains(#[trigger] ps@[i].bytes.start) && bs@.contains(ps@[i].bytes.end) by {
                if i < j {
                    assert(b0.contains(ps@[i].bytes.start));
                    assert(b0.contains(ps@[i].bytes.end));
                }
            }
            j = j + 1;
        }
        let ghost bv = bs@.map_values(|x: usize| x as int);
        assert(cuts(pv, len as int, bv)) by {
            assert forall|i: int| 0 <= i < bv.len() implies is_cut(pv, len as int, #[trigger] bv[i]) by {
                assert(bv[i] == bs@[i] as int);
            }
            let z = choose|i: int| 0 <= i < bs@.len() && bs@[i] == 0usize;
            assert(bv[z] == 0);
            let e = choose|i: int| 0 <= i < bs@.len() && bs@[i] == len;
            assert(bv[e] == len);
            assert forall|k: int| 0 <= k < pv.len() implies bv.contains(#[trigger] pv[k].1) && bv.contains(pv[k].2) by {
                assert(pv[k] == piece_view(ps@[k]));
                assert(bs@.contains(ps@[k].bytes.start));
                let s1 = choose|i: int| 0 <= i < bs@.len() && bs@[i] == ps@[k].bytes.start;
                assert(bv[s1] == pv[k].1);
                let s2 = choose|i: int| 0 <= i < bs@.len() && bs@[i] == ps@[k].bytes.end;
                assert(bv[s2] == pv[k].2);
            }
            assert forall|a: int, b: int| 0 <= a < b < bv.len() implies #[trigger] bv[a] < #[trigger] bv[b] by {
                assert(bs@[a] < bs@[b]);
            }
        }
        assert(bs.len() >= 1) by {
            let z = choose|i: int| 0 <= i < bs@.len() && bs@[i] == 0usize;
        }
        let last = bs.len() - 1;
        let mut i: usize = 0;
        while i < last
            invariant
                i <= last,
                last + 1 == bs.len(),
                bv == bs@.map_values(|x: usize| x as int),
                pv == ps@.map_values(|p: Piece| piece_view(p)),
                stretches(out@).len() == i,
                forall|h: int| 0 <= h < i ==> #[trigger] stretches(out@)[h] == (bv[h], bv[h + 1], paint_of(pv, bv[h], bv[h + 1], active)),
            decreases bs.len() - i,
        {
            let p = paint(ps, bs[i], bs[i + 1], active);
            let ghost before = stretches(out@);
            out.push((bs[i], bs[i + 1], p));
            assert(stretches(out@) =~= before.push((bv[i as int], bv[i + 1], p)));
            i = i + 1;
        }
        assert(painted(pv, len as int, active, bv, stretches(out@)));
    } else {
        let mut pos: usize = 0;
        let mut j: usize = 0;
        while j < ps.len()
            invariant
                j <= ps.len(),
                pv == ps@.map_values(|p: Piece| piece_view(p)),
                (stretches(out@), pos as int) == in_turn(pv, j as int, active),
            decreases ps.len() - j,
        {
            let p = &ps[j];
            assert(pv[j as int] == piece_view(ps@[j as int]));
            let ghost before = stretches(out@);
            if p.bytes.start > pos {
                out.push((pos, p.bytes.start, Paint::Plain));
            }
            let paint = if active == Some(p.hit) {
                Paint::Current
            } else {
                Paint::Hit
            };
            out.push((p.bytes.start, p.bytes.end, paint));
            assert(stretches(out@) =~= in_turn(pv, j + 1, active).0);
            pos = p.bytes.end;
            j = j + 1;
        }
        let ghost acc = stretches(out@);
        assert(j == pv.len());
        if pos < len {
            out.push((pos, len, Paint::Plain));
            assert(stretches(out@) =~= acc.push((pos as int, len as int, Paint::Plain)));
        }
        assert(painted(pv, len as int, active, seq![], stretches(out@)));
    }
    out
}

/// What the details pane shows: the record, its variant and whether the
/// details are expanded, and the width of the pane.
pub type Key = (u64, Option<usize>, bool, usize);

/// A search in the details pane: the query and its editor, the laid-out
/// document it was found in, the current hit and what the next frame must do
/// (jump to a hit, keep the scroll, reveal or pan to the current hit, reset
/// horizontal scrolling), and what an edit started from.
pub struct Find {
    pub query: String,
    pub editor: Editor,
    pub editing: bool,
    pub key: Option<Key>,
    pub cached_query: String,
    pub document: Option<Document>,
    pub current: Option<usize>,
    pub pending: Option<bool>,
    pub preserve_scroll: bool,
    pub reveal_current: bool,
    pub pan_to_current: bool,
    pub reset_horizontal: bool,
    pub saved: Option<(String, usize, Focus, Option<usize>)>,
}

impl Default for Find {
    fn default() -> (r: Self)
        ensures
            r.query@.len() == 0,
            !r.editing,
            r.key is None,
            r.cached_query@.len() == 0,
            r.document is None,
            r.current is None,
            r.pending is None,
            !r.preserve_scroll && !r.reveal_current && !r.pan_to_current && !r.reset_horizontal,
            r.saved is None,
            r.editor.recent().len() == 0,
    {
        Find {
            query: String::new(),
            editor: Editor::default(),
            editing: false,
            key: None,
            cached_query: String::new(),
            document: None,
            current: None,
            pending: None,
            preserve_scroll: false,
            reveal_current: false,
            pan_to_current: false,
            reset_horizontal: false,
            saved: None,
        }
    }
}

/// The same record, variant and expansion (the width may differ).
pub open spec fn same_record(a: Option<Key>, k: Key) -> bool {
    a matches Some(o) && o.0 == k.0 && o.1 == k.1 && o.2 == k.2
}

/// The last row, up to `n`, of line `logical` that begins at or before byte
/// `start`.
pub open spec fn last_row_at(rows: Seq<Row>, logical: usize, start: usize, n: int) -> Option<int>
    decreases n,
{
    if n <= 0 {
        None
    } else if rows[n - 1].logical == logical && rows[n - 1].start <= start {
        Some(n - 1)
    } else {
        last_row_at(rows, logical, start, n - 1)
    }
}

/// The hit after (or before) `current` among `count` hits, wrapping around;
/// the first (or last) where there is no current hit.
pub open spec fn step_hit(current: Option<usize>, count: int, forward: bool) -> int {
    match current {
        Some(i) if i < count => if forward {
            (i + 1) % count
        } else {
            (i + count - 1) % count
        },
        _ => if forward {
            0
        } else {
            count - 1
        },
    }
}

impl Find {
    /// Starts editing the query, remembering where the edit started.
    pub fn begin(&mut self, scroll: usize, focus: Focus)
        ensures
            final(self).saved == Some((old(self).query, scroll, focus, old(self).current)),
            final(self).editing,
            final(self).editor.draft() == old(self).query@,
            final(self).editor.caret() == old(self).query@.len(),
            final(self).editor.recent() == old(self).editor.recent(),
            final(self).query == old(self).query,
            final(self).current == old(self).current,
            final(self).pending == old(self).pending,
            final(self).document == old(self).document,
    {
        let q = self.query.clone();
        self.saved = Some((q, scroll, focus, self.current));
        self.editor.begin(self.query.as_str());
        self.editing = true;
    }

    /// Finishes editing, keeping the query and remembering it.
    pub fn confirm(&mut self)
        ensures
            !final(self).editing,
            final(self).saved is None,
            final(self).editor.recent() == crate::search::remembered(old(self).editor.recent(), old(self).query@),
            final(self).query == old(self).query,
            final(self).current == old(self).current,
            final(self).pending == old(self).pending,
    {
        self.editor.remember(self.query.as_str());
        self.editing = false;
        self.saved = None;
    }

    /// Abandons editing: the query and current hit return to where the edit
    /// started, and the scroll and focus to restore come back.
    pub fn cancel(&mut self) -> (r: Option<(usize, Focus)>)
        ensures
            !final(self).editing,
            final(self).saved is None,
            match old(self).saved {
                Some((q, scroll, focus, current)) => {
                    &&& r == Some((scroll, focus))
                    &&& final(self).query == q
                    &&& final(self).current == current
                    &&& final(self).preserve_scroll
                    &&& final(self).pending is None
                },
                None => {
                    &&& r is None
                    &&& final(self).query == old(self).query
                    &&& final(self).current == old(self).current
                    &&& final(self).preserve_scroll == old(self).preserve_scroll
                    &&& final(self).pending == old(self).pending
                },
            },
            final(self).document == old(self).document,
    {
        self.editing = false;
        match self.saved.take() {
            Some((query, scroll, focus, current)) => {
                self.query = query;
                self.current = current;
                self.preserve_scroll = true;
                self.pending = None;
                Some((scroll, focus))
            },
            None => None,
        }
    }

    /// The query changed: the next frame jumps to the first hit.
    pub fn changed(&mut self)
        ensures
            final(self).current is None,
            final(self).pending == Some(true),
            final(self).query == old(self).query,
            final(self).preserve_scroll == old(self).preserve_scroll,
    {
        self.current = None;
        self.pending = Some(true);
    }

    /// The next frame keeps the scroll and forgets the current hit.
    pub fn preserve_scroll(&mut self)
        ensures
            *final(self) == (Find { preserve_scroll: true, pending: None, current: None, ..*old(self) }),
    {
        self.preserve_scroll = true;
        self.pending = None;
        self.current = None;
    }

    /// Clears the query, keeping the scroll.
    pub fn clear(&mut self)
        ensures
            final(self).query@.len() == 0,
            final(self).current is None,
            final(self).pending is None,
            final(self).preserve_scroll,
            final(self).editing == old(self).editing,
    {
        self.query = String::new();
        self.current = None;
        self.pending = None;
        self.preserve_scroll = true;
    }

    /// The next frame jumps to the next (`forward`) or previous hit.
    pub fn next(&mut self, forward: bool)
        ensures
            *final(self) == (Find { pending: Some(forward), ..*old(self) }),
    {
        self.pending = Some(forward);
    }

    /// Whether the document was laid out for `key` and the query in force
    /// (none when searching is disabled).
    pub fn cached(&self, key: Key, enabled: bool) -> (r: bool)
        ensures
            r == (self.key == Some(key) && self.cached_query@ == if enabled {
                self.query@
            } else {
                Seq::<char>::empty()
            }),
    {
        let same_key = match self.key {
            Some(k) => k.0 == key.0 && k.1 == key.1 && k.2 == key.2 && k.3 == key.3,
            None => false,
        };
        if !same_key {
            return false;
        }
        if enabled {
            crate::text::str_equals(self.cached_query.as_str(), self.query.as_str())
        } else {
            let empty = self.cached_query.as_str().is_empty();
            assert(empty == (self.cached_query@ =~= Seq::<char>::empty()));
            empty
        }
    }

    /// Lays out `lines` for `key`, searching for the query when `enabled`.
    /// The current hit survives a reflow of the same record and query, or a
    /// kept scroll; a new search jumps to its first hit on the next frame.
    pub fn rebuild(&mut self, key: Key, lines: &Vec<String>, enabled: bool)
        ensures
            ({
                let q = if enabled {
                    old(self).query@
                } else {
                    Seq::<char>::empty()
                };
                let reflow = same_record(old(self).key, key) && old(self).cached_query@ == q;
                let current = if !old(self).preserve_scroll && !reflow {
                    None
                } else {
                    old(self).current
                };
                &&& final(self).document matches Some(d) && doc_view(d) == laid_out(
                    lines@.map_values(|s: String| s@),
                    lines@.len() as int,
                    key.3,
                    lowercase(q),
                ) && d.hits.len() <= LIMIT
                &&& final(self).cached_query@ == q
                &&& final(self).key == Some(key)
                &&& final(self).current == current
                &&& final(self).reveal_current == (reflow && !old(self).preserve_scroll && current is Some)
                &&& final(self).pending == if q.len() > 0 && !old(self).preserve_scroll && !reflow
                    && old(self).pending is None {
                    Some(true)
                } else {
                    old(self).pending
                }
                &&& final(self).query == old(self).query
                &&& final(self).preserve_scroll == old(self).preserve_scroll
                &&& final(self).reset_horizontal == old(self).reset_horizontal
                &&& final(self).pan_to_current == old(self).pan_to_current
            }),
    {
        let q: String = if enabled {
            self.query.clone()
        } else {
            String::new()
        };
        let same = match self.key {
            Some(k) => k.0 == key.0 && k.1 == key.1 && k.2 == key.2,
            None => false,
        };
        let reflow = same && crate::text::str_equals(self.cached_query.as_str(), q.as_str());
        if !self.preserve_scroll && !reflow {
            self.current = None;
        }
        self.document = None;
        self.document = Some(Document::new(lines, key.3, q.as_str()));
        let empty = q.as_str().is_empty();
        self.cached_query = q;
        self.key = Some(key);
        self.reveal_current = reflow && !self.preserve_scroll && self.current.is_some();
        if !empty && !self.preserve_scroll && !reflow && self.pending.is_none() {
            self.pending = Some(true);
        }
    }

    /// Lays out `lines` again and, for the same record, keeps the scroll on
    /// the row that showed the same place of the same line.
    pub fn rebuild_at(&mut self, key: Key, lines: &Vec<String>, enabled: bool, scroll: &mut usize)
        ensures
            final(self).reset_horizontal == !same_record(old(self).key, key),
            final(self).document matches Some(d) && doc_view(d) == laid_out(
                lines@.map_values(|s: String| s@),
                lines@.len() as int,
                key.3,
                lowercase(
                    if enabled {
                        old(self).query@
                    } else {
                        Seq::<char>::empty()
                    },
                ),
            ) && ({
                let anchor = if same_record(old(self).key, key) {
                    match old(self).document {
                        Some(od) => if *old(scroll) < od.rows.len() {
                            Some((od.rows@[*old(scroll) as int].logical, od.rows@[*old(scroll) as int].start))
                        } else {
                            None
                        },
                        None => None,
                    }
                } else {
                    None
                };
                *final(scroll) == match anchor {
                    Some((logical, start)) => match last_row_at(d.rows@, logical, start, d.rows.len() as int) {
                        Some(r) => r as usize,
                        None => *old(scroll),
                    },
                    None => *old(scroll),
                }
            }),
            final(self).key == Some(key),
            final(self).query == old(self).query,
    {
        let same = match self.key {
            Some(k) => k.0 == key.0 && k.1 == key.1 && k.2 == key.2,
            None => false,
        };
        self.reset_horizontal = !same;
        let anchor: Option<(usize, usize)> = if same {
            match &self.document {
                Some(doc) => if *scroll < doc.rows.len() {
                    Some((doc.rows[*scroll].logical, doc.rows[*scroll].start))
                } else {
                    None
                },
                None => None,
            }
        } else {
            None
        };
        self.rebuild(key, lines, enabled);
        if let Some((logical, start)) = anchor {
            match &self.document {
                Some(doc) => {
                    let mut n = doc.rows.len();
                    while n > 0 && !(doc.rows[n - 1].logical == logical && doc.rows[n - 1].start <= start)
                        invariant
                            n <= doc.rows.len(),
                            last_row_at(doc.rows@, logical, start, n as int) == last_row_at(
                                doc.rows@,
                                logical,
                                start,
                                doc.rows.len() as int,
                            ),
                        decreases n,
                    {
                        n = n - 1;
                    }
                    if n > 0 {
                        *scroll = n - 1;
                    }
                },
                None => {},
            }
        }
    }

    /// Before a frame of `height` rows: jumps to the pending hit (wrapping
    /// around) or reveals the current one, keeps the scroll within the
    /// document, and gives the largest scroll.
    pub fn prepare(&mut self, scroll: &mut usize, height: usize) -> (r: usize)
        ensures
            match old(self).document {
                None => r == 0 && *final(scroll) == *old(scroll) && final(self).pending == old(self).pending
                    && final(self).current == old(self).current,
                Some(d) => {
                    let max = if d.rows.len() > height {
                        d.rows.len() - height
                    } else {
                        0
                    };
                    let revealed = if old(self).reveal_current {
                        match old(self).current {
                            Some(i) if i < d.hits.len() => if d.hits@[i as int] < max {
                                d.hits@[i as int] as int
                            } else {
                                max as int
                            },
                            _ => *old(scroll) as int,
                        }
                    } else {
                        *old(scroll) as int
                    };
                    let jumped = match old(self).pending {
                        Some(forward) => if d.hits.len() == 0 {
                            (None, revealed)
                        } else {
                            let next = step_hit(old(self).current, d.hits.len() as int, forward);
                            (
                                Some(next as usize),
                                if d.hits@[next] < max {
                                    d.hits@[next] as int
                                } else {
                                    max as int
                                },
                            )
                        },
                        None => (old(self).current, revealed),
                    };
                    &&& r == max
                    &&& final(self).current == jumped.0
                    &&& *final(scroll) as int == if jumped.1 < max {
                        jumped.1
                    } else {
                        max as int
                    }
                    &&& final(self).pending is None
                    &&& final(self).pan_to_current == (old(self).reveal_current || old(self).pending is Some)
                    &&& !final(self).reveal_current
                    &&& !final(self).preserve_scroll
                },
            },
            final(self).document == old(self).document,
            final(self).query == old(self).query,
    {
        let doc = match &self.document {
            Some(d) => d,
            None => {
                return 0;
            },
        };
        let maximum = doc.rows.len().saturating_sub(height);
        self.pan_to_current = self.reveal_current || self.pending.is_some();
        if self.reveal_current {
            self.reveal_current = false;
            if let Some(i) = self.current {
                if i < doc.hits.len() {
                    let row = doc.hits[i];
                    *scroll = if row < maximum {
                        row
                    } else {
                        maximum
                    };
                }
            }
        }
        if let Some(forward) = self.pending {
            self.pending = None;
            let count = doc.hits.len();
            if count == 0 {
                self.current = None;
            } else {
                let next = match self.current {
                    Some(index) if index < count => if forward {
                        (index + 1) % count
                    } else if index == 0 {
                        assert((count - 1) as int % count as int == count - 1) by (nonlinear_arith)
                            requires
                                count >= 1,
                        ;
                        count - 1
                    } else {
                        assert((index + count - 1) as int % count as int == index - 1) by (nonlinear_arith)
                            requires
                                1 <= index < count,
                        ;
                        index - 1
                    },
                    _ => if forward {
                        0
                    } else {
                        count - 1
                    },
                };
                self.current = Some(next);
                let row = doc.hits[next];
                *scroll = if row < maximum {
                    row
                } else {
                    maximum
                };
            }
        }
        self.preserve_scroll = false;
        if *scroll > maximum {
            *scroll = maximum;
        }
        maximum
    }
}

/// The first piece at or after `k` that shows hit `hit`.
pub open spec fn first_piece(ps: Seq<Piece>, hit: usize, k: int) -> Option<int>
    decreases ps.len() - k,
{
    if k < 0 || k >= ps.len() {
        None
    } else if ps[k].hit == hit {
        Some(k)
    } else {
        first_piece(ps, hit, k + 1)
    }
}

proof fn lemma_first_piece_bounds(ps: Seq<Piece>, hit: usize, k: int)
    requires
        0 <= k,
    ensures
        first_piece(ps, hit, k) matches Some(j) ==> k <= j < ps.len() && ps[j].hit == hit,
    decreases ps.len() - k,
{
    if k < ps.len() && ps[k].hit != hit {
        lemma_first_piece_bounds(ps, hit, k + 1);
    }
}

/// The row and the piece that show hit `current`.
pub open spec fn current_piece(d: Document, current: Option<usize>) -> Option<(int, int)> {
    match current {
        Some(h) => if h < d.hits.len() && d.hits@[h as int] < d.rows.len() {
            let r = d.hits@[h as int] as int;
            match first_piece(d.rows@[r].pieces@, h, 0) {
                Some(k) => Some((r, k)),
                None => None,
            }
        } else {
            None
        },
        None => None,
    }
}

/// The display width of the first `b` bytes of a text.
pub open spec fn prefix_width(text: Seq<char>, b: int) -> int {
    display_width(vstd::utf8::decode_utf8(vstd::utf8::encode_utf8(text).subrange(0, b))) as int
}

/// Whether the piece to pan to, if any, begins and ends between characters
/// of its row (the widths before its ends are measured).
pub open spec fn pan_fits(f: Find) -> bool {
    f.pan_to_current ==> match f.document {
        Some(d) => match current_piece(d, f.current) {
            Some((r, k)) => {
                let t = vstd::utf8::encode_utf8(d.rows@[r].text@);
                let p = d.rows@[r].pieces@[k];
                vstd::utf8::is_char_boundary(t, p.bytes.start as int) && vstd::utf8::is_char_boundary(
                    t,
                    p.bytes.end as int,
                )
            },
            None => true,
        },
        None => true,
    }
}

/// The piece to pan to, by row and piece.
fn find_current_piece(d: &Document, current: Option<usize>) -> (r: Option<(usize, usize)>)
    ensures
        match r {
            Some((row, k)) => current_piece(*d, current) == Some((row as int, k as int)) && row < d.rows.len() && k
                < d.rows@[row as int].pieces.len(),
            None => current_piece(*d, current) is None,
        },
{
    let h = match current {
        Some(h) => h,
        None => {
            return None;
        },
    };
    if h >= d.hits.len() || d.hits[h] >= d.rows.len() {
        return None;
    }
    let row = d.hits[h];
    let ps = &d.rows[row].pieces;
    proof {
        lemma_first_piece_bounds(ps@, h, 0);
    }
    let mut k: usize = 0;
    while k < ps.len()
        invariant
            k <= ps.len(),
            first_piece(ps@, h, k as int) == first_piece(ps@, h, 0),
            current == Some(h),
            h < d.hits.len(),
            row as int == d.hits@[h as int],
            row < d.rows.len(),
            ps@ == d.rows@[row as int].pieces@,
        decreases ps.len() - k,
    {
        if ps[k].hit == h {
            assert(first_piece(ps@, h, k as int) == Some(k as int));
            assert(ps@ == d.rows@[row as int].pieces@);
            assert(row as int == d.hits@[h as int]);
            return Some((row, k));
        }
        k = k + 1;
    }
    assert(ps@ == d.rows@[row as int].pieces@);
    None
}

/// The display width of the first `b` bytes of `text`.
fn width_before(text: &str, b: usize) -> (r: usize)
    requires
        vstd::utf8::is_char_boundary(vstd::utf8::encode_utf8(text@), b as int),
    ensures
        r == prefix_width(text@, b as int),
{
    let (head, _) = text.split_at(b);
    proof {
        vstd::utf8::encode_utf8_decode_utf8(head@);
    }
    text_width(head)
}

/// The status line of a details search: the current hit's number (0 with
/// none), the number of hits (marked when the search stopped at `LIMIT`),
/// and the keys.
pub open spec fn find_label(f: Find) -> Seq<char> {
    let count: int = match f.document {
        Some(d) => d.hits.len() as int,
        None => 0,
    };
    let truncated = match f.document {
        Some(d) => d.truncated,
        None => false,
    };
    let number: int = match f.current {
        Some(i) => if i < count {
            i + 1
        } else {
            0
        },
        None => 0,
    };
    decimal(number) + "/"@ + decimal(count) + (if truncated {
        "+ (first 10000)"@
    } else {
        Seq::empty()
    }) + " matches · n/N jump · F clear"@
}

impl Find {
    /// The status line of the search (see `find_label`).
    pub fn label(&self) -> (r: String)
        ensures
            r@ == find_label(*self),
    {
        let (count, truncated) = match &self.document {
            Some(d) => (d.hits.len(), d.truncated),
            None => (0, false),
        };
        let number: usize = match self.current {
            Some(i) => if i < count {
                i + 1
            } else {
                0
            },
            None => 0,
        };
        let mut text = digits_of(number as u64);
        extend_chars(&mut text, chars_of("/").as_slice());
        extend_chars(&mut text, digits_of(count as u64).as_slice());
        if truncated {
            extend_chars(&mut text, chars_of("+ (first 10000)").as_slice());
        }
        extend_chars(&mut text, chars_of(" matches · n/N jump · F clear").as_slice());
        string_of(text.as_slice())
    }

    /// Whether the piece to pan to can be measured (always so for a
    /// document laid out by `rebuild`).
    pub fn pan_ready(&self) -> (r: bool)
        ensures
            r == pan_fits(*self),
    {
        if !self.pan_to_current {
            return true;
        }
        match &self.document {
            Some(d) => match find_current_piece(d, self.current) {
                Some((row, k)) => {
                    let text = self.document_row_text(row);
                    let p = &d.rows[row].pieces[k];
                    text.is_char_boundary(p.bytes.start) && text.is_char_boundary(p.bytes.end)
                },
                None => true,
            },
            None => true,
        }
    }

    fn document_row_text(&self, row: usize) -> (r: &str)
        requires
            self.document matches Some(d) && row < d.rows.len(),
        ensures
            self.document matches Some(d) && r@ == d.rows@[row as int].text@,
    {
        match &self.document {
            Some(d) => d.rows[row].text.as_str(),
            None => "",
        }
    }

    /// The horizontal scroll of a pane `width` columns wide: back to the left
    /// for another record, kept within the widest row, and moved to the
    /// current hit when a jump left it outside the pane.
    pub fn reveal_horizontal(&mut self, offset: usize, width: usize) -> (r: usize)
        requires
            pan_fits(*old(self)),
        ensures
            match old(self).document {
                None => r == 0 && final(self).reset_horizontal == old(self).reset_horizontal
                    && final(self).pan_to_current == old(self).pan_to_current,
                Some(d) => {
                    let over = if d.max_width > width {
                        d.max_width - width
                    } else {
                        0
                    };
                    let maximum = if over < 65535 {
                        over
                    } else {
                        65535
                    };
                    let kept = if old(self).reset_horizontal {
                        0
                    } else if offset < maximum {
                        offset as int
                    } else {
                        maximum as int
                    };
                    &&& !final(self).reset_horizontal
                    &&& !final(self).pan_to_current
                    &&& r == if old(self).pan_to_current {
                        match current_piece(d, old(self).current) {
                            Some((row, k)) => {
                                let text = d.rows@[row].text@;
                                let p = d.rows@[row].pieces@[k];
                                let start = prefix_width(text, p.bytes.start as int);
                                let end = prefix_width(text, p.bytes.end as int);
                                if start < kept || end > kept + width {
                                    if start < maximum {
                                        start
                                    } else {
                                        maximum as int
                                    }
                                } else {
                                    kept
                                }
                            },
                            None => kept,
                        }
                    } else {
                        kept
                    }
                },
            },
            final(self).document == old(self).document,
            final(self).current == old(self).current,
    {
        let d = match &self.document {
            Some(d) => d,
            None => {
                return 0;
            },
        };
        let over = d.max_width.saturating_sub(width);
        let maximum: usize = if over < 65535 {
            over
        } else {
            65535
        };
        let mut offset = if self.reset_horizontal {
            0
        } else if offset < maximum {
            offset
        } else {
            maximum
        };
        self.reset_horizontal = false;
        if self.pan_to_current {
            self.pan_to_current = false;
            if let Some((row, k)) = find_current_piece(d, self.current) {
                let text = d.rows[row].text.as_str();
                let p = &d.rows[row].pieces[k];
                let start = width_before(text, p.bytes.start);
                let end = width_before(text, p.bytes.end);
                let far = match offset.checked_add(width) {
                    Some(x) => end > x,
                    None => false,
                };
                if start < offset || far {
                    offset = if start < maximum {
                        start
                    } else {
                        maximum
                    };
                }
            }
        }
        offset
    }
}

} // verus!
