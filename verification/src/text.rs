//! Character classes, Unicode segmentation and width, and small string helpers.
use unicode_segmentation::UnicodeSegmentation;
use unicode_width::UnicodeWidthStr;
use vstd::prelude::*;

verus! {

/// Unicode general category `Cc`.
pub open spec fn spec_is_control(c: char) -> bool {
    (c as u32) <= 0x1f || (0x7f <= (c as u32) && (c as u32) <= 0x9f)
}

/// Whether `c` is a control character (`char::is_control`).
pub fn is_control(c: char) -> (r: bool)
    ensures
        r == spec_is_control(c),
{
    let v = c as u32;
    v <= 0x1f || (0x7f <= v && v <= 0x9f)
}

/// The Unicode `White_Space` property.
pub open spec fn spec_is_whitespace(c: char) -> bool {
    let v = c as u32;
    ||| 0x09 <= v && v <= 0x0d
    ||| v == 0x20
    ||| v == 0x85
    ||| v == 0xa0
    ||| v == 0x1680
    ||| 0x2000 <= v && v <= 0x200a
    ||| v == 0x2028
    ||| v == 0x2029
    ||| v == 0x202f
    ||| v == 0x205f
    ||| v == 0x3000
}

/// Whether `c` is whitespace (`char::is_whitespace`).
pub fn is_whitespace(c: char) -> (r: bool)
    ensures
        r == spec_is_whitespace(c),
{
    let v = c as u32;
    (0x09 <= v && v <= 0x0d) || v == 0x20 || v == 0x85 || v == 0xa0 || v == 0x1680 || (0x2000
        <= v && v <= 0x200a) || v == 0x2028 || v == 0x2029 || v == 0x202f || v == 0x205f || v
        == 0x3000
}

/// Every character of `s` is whitespace.
pub open spec fn all_whitespace(s: Seq<char>) -> bool {
    forall|i: int| 0 <= i < s.len() ==> spec_is_whitespace(#[trigger] s[i])
}

/// Whether every character of `s` is whitespace (true for the empty text).
pub fn is_all_whitespace(s: &[char]) -> (r: bool)
    ensures
        r == all_whitespace(s@),
{
    let mut i: usize = 0;
    while i < s.len()
        invariant
            i <= s.len(),
            forall|j: int| 0 <= j < i ==> spec_is_whitespace(#[trigger] s@[j]),
        decreases s.len() - i,
    {
        if !is_whitespace(s[i]) {
            return false;
        }
        i = i + 1;
    }
    true
}

/// The characters of `s`, in order.
pub fn chars_of(s: &str) -> (r: Vec<char>)
    ensures
        r@ == s@,
{
    let mut out: Vec<char> = Vec::new();
    for c in it: s.chars()
        invariant
            out@ == it.seq().take(it.index() as int),
    {
        out.push(c);
    }
    out
}

/// Appends one character to a string (`String::push`).
#[verifier::external_body]
pub(crate) fn push_char(s: &mut String, c: char)
    ensures
        final(s)@ == old(s)@.push(c),
{
    s.push(c);
}

/// A string holding exactly the characters of `v`.
pub fn string_of(v: &[char]) -> (r: String)
    ensures
        r@ == v@,
{
    let mut out = String::new();
    let mut i: usize = 0;
    while i < v.len()
        invariant
            i <= v.len(),
            out@ == v@.take(i as int),
        decreases v.len() - i,
    {
        push_char(&mut out, v[i]);
        assert(v@.take(i as int).push(v@[i as int]) =~= v@.take(i + 1));
        i = i + 1;
    }
    assert(v@.take(v.len() as int) =~= v@);
    out
}

/// `s` holds `pattern` at position `i`.
pub open spec fn occurs_at(s: Seq<char>, pattern: Seq<char>, i: int) -> bool {
    0 <= i && i + pattern.len() <= s.len() && s.subrange(i, i + pattern.len()) == pattern
}

/// `s` holds `pattern` somewhere (`str::contains`).
pub open spec fn contains_seq(s: Seq<char>, pattern: Seq<char>) -> bool {
    exists|i: int| occurs_at(s, pattern, i)
}

/// Whether `pattern` occurs at position `i` of `s`.
pub fn matches_at(s: &[char], pattern: &[char], i: usize) -> (r: bool)
    ensures
        r == occurs_at(s@, pattern@, i as int),
{
    if i > s.len() || pattern.len() > s.len() - i {
        return false;
    }
    let mut j: usize = 0;
    while j < pattern.len()
        invariant
            j <= pattern.len(),
            i + pattern.len() <= s.len(),
            forall|k: int| 0 <= k < j ==> s@[i + k] == pattern@[k],
        decreases pattern.len() - j,
    {
        if s[i + j] != pattern[j] {
            assert(s@.subrange(i as int, i + pattern.len())[j as int] != pattern@[j as int]);
            return false;
        }
        j = j + 1;
    }
    assert(s@.subrange(i as int, i + pattern.len()) =~= pattern@);
    true
}

/// Whether `pattern` occurs anywhere in `s`.
pub fn contains(s: &[char], pattern: &[char]) -> (r: bool)
    ensures
        r == contains_seq(s@, pattern@),
{
    if pattern.len() > s.len() {
        assert forall|i: int| !occurs_at(s@, pattern@, i) by {}
        return false;
    }
    let last = s.len() - pattern.len();
    let mut i: usize = 0;
    loop
        invariant
            pattern.len() <= s.len(),
            last == s.len() - pattern.len(),
            i <= last,
            forall|k: int| 0 <= k < i ==> !occurs_at(s@, pattern@, k),
        ensures
            forall|k: int| 0 <= k <= last ==> !occurs_at(s@, pattern@, k),
        decreases last - i,
    {
        if matches_at(s, pattern, i) {
            return true;
        }
        if i == last {
            break;
        }
        i = i + 1;
    }
    assert forall|k: int| !occurs_at(s@, pattern@, k) by {
        if 0 <= k && k <= last {
        }
    }
    false
}

/// `pattern` is a prefix of `s`.
pub open spec fn starts_with_seq(s: Seq<char>, pattern: Seq<char>) -> bool {
    occurs_at(s, pattern, 0)
}

/// Whether `s` starts with `pattern`.
pub fn starts_with(s: &[char], pattern: &[char]) -> (r: bool)
    ensures
        r == starts_with_seq(s@, pattern@),
{
    matches_at(s, pattern, 0)
}

/// Whether the text `s` starts with the text `pattern`.
pub fn str_starts_with(s: &str, pattern: &str) -> (r: bool)
    ensures
        r == starts_with_seq(s@, pattern@),
{
    let a = chars_of(s);
    let b = chars_of(pattern);
    starts_with(a.as_slice(), b.as_slice())
}

/// Whether the texts `s` and `t` are equal.
pub fn str_equals(s: &str, t: &str) -> (r: bool)
    ensures
        r == (s@ == t@),
{
    let a = chars_of(s);
    let b = chars_of(t);
    if a.len() != b.len() {
        return false;
    }
    assert(a@.subrange(0, b@.len() as int) =~= a@);
    starts_with(a.as_slice(), b.as_slice())
}

/// What `str::to_lowercase` gives for a text.
pub uninterp spec fn lowercase(s: Seq<char>) -> Seq<char>;

/// Lowercases `s` with `str::to_lowercase` (full Unicode case mapping).
/// Claimed besides: the result is empty exactly when `s` is, since every
/// character maps to one or more characters (`char::to_lowercase`).
#[verifier::external_body]
pub(crate) fn to_lowercase(s: &str) -> (r: String)
    ensures
        r@ == lowercase(s@),
        r@.len() == 0 <==> s@.len() == 0,
{
    s.to_lowercase()
}

/// The extended grapheme clusters of a text (`UnicodeSegmentation::graphemes`).
pub uninterp spec fn grapheme_clusters(s: Seq<char>) -> Seq<Seq<char>>;

/// Splits `s` into its extended grapheme clusters. The clusters are non-empty
/// and, joined in order, give `s` back.
#[verifier::external_body]
pub(crate) fn graphemes(s: &str) -> (r: Vec<String>)
    ensures
        r@.map_values(|g: String| g@) == grapheme_clusters(s@),
        r@.map_values(|g: String| g@).flatten() == s@,
        forall|i: int| 0 <= i < r@.len() ==> #[trigger] r@[i]@.len() > 0,
{
    s.graphemes(true).map(|g| g.to_owned()).collect()
}

/// Display width of a text in terminal columns (`UnicodeWidthStr::width`).
pub uninterp spec fn display_width(s: Seq<char>) -> usize;

/// Measures `s` in terminal columns.
#[verifier::external_body]
pub(crate) fn text_width(s: &str) -> (r: usize)
    ensures
        r == display_width(s@),
{
    s.width()
}

} // verus!

verus! {

/// `s` without leading and trailing whitespace (`str::trim`).
pub open spec fn trim_start_at(s: Seq<char>, i: int) -> int
    decreases s.len() - i,
{
    if i < 0 || i >= s.len() || !spec_is_whitespace(s[i]) {
        i
    } else {
        trim_start_at(s, i + 1)
    }
}

/// Index just past the last non-whitespace character at or before `j - 1`,
/// never below `lo`.
pub open spec fn trim_end_at(s: Seq<char>, lo: int, j: int) -> int
    decreases j - lo,
{
    if j <= lo || j > s.len() || !spec_is_whitespace(s[j - 1]) {
        j
    } else {
        trim_end_at(s, lo, j - 1)
    }
}

/// `s` with surrounding whitespace removed.
pub open spec fn trimmed(s: Seq<char>) -> Seq<char> {
    let a = trim_start_at(s, 0);
    s.subrange(a, trim_end_at(s, a, s.len() as int))
}

proof fn lemma_trim_start_bounds(s: Seq<char>, i: int)
    requires
        0 <= i <= s.len(),
    ensures
        i <= trim_start_at(s, i) <= s.len(),
    decreases s.len() - i,
{
    if i < s.len() && spec_is_whitespace(s[i]) {
        lemma_trim_start_bounds(s, i + 1);
    }
}

proof fn lemma_trim_end_bounds(s: Seq<char>, lo: int, j: int)
    requires
        0 <= lo <= j <= s.len(),
    ensures
        lo <= trim_end_at(s, lo, j) <= j,
    decreases j - lo,
{
    if j > lo && spec_is_whitespace(s[j - 1]) {
        lemma_trim_end_bounds(s, lo, j - 1);
    }
}

/// Removes surrounding whitespace.
pub fn trim(s: &[char]) -> (r: Vec<char>)
    ensures
        r@ == trimmed(s@),
{
    let mut a: usize = 0;
    while a < s.len() && is_whitespace(s[a])
        invariant
            a <= s.len(),
            trim_start_at(s@, a as int) == trim_start_at(s@, 0),
        decreases s.len() - a,
    {
        a = a + 1;
    }
    let mut b: usize = s.len();
    while b > a && is_whitespace(s[b - 1])
        invariant
            a <= b <= s.len(),
            a == trim_start_at(s@, 0),
            trim_end_at(s@, a as int, b as int) == trim_end_at(s@, a as int, s@.len() as int),
        decreases b - a,
    {
        b = b - 1;
    }
    slice_of(s, a, b)
}

/// Whether `s` is empty or all whitespace (`s.trim().is_empty()`).
pub fn is_blank(s: &[char]) -> (r: bool)
    ensures
        r == (trimmed(s@).len() == 0),
{
    let t = trim(s);
    t.len() == 0
}

/// The characters of `s` from `from` to `to`.
pub fn slice_of(s: &[char], from: usize, to: usize) -> (r: Vec<char>)
    requires
        from <= to <= s.len(),
    ensures
        r@ == s@.subrange(from as int, to as int),
{
    let mut out: Vec<char> = Vec::new();
    let mut i = from;
    while i < to
        invariant
            from <= i <= to <= s.len(),
            out@ == s@.subrange(from as int, i as int),
        decreases to - i,
    {
        out.push(s[i]);
        assert(s@.subrange(from as int, i + 1) =~= s@.subrange(from as int, i as int).push(s@[i as int]));
        i = i + 1;
    }
    out
}

/// Appends the characters of `t` to `out`.
pub fn extend_chars(out: &mut Vec<char>, t: &[char])
    ensures
        final(out)@ == old(out)@ + t@,
{
    let mut i: usize = 0;
    while i < t.len()
        invariant
            i <= t.len(),
            out@ == old(out)@ + t@.take(i as int),
        decreases t.len() - i,
    {
        out.push(t[i]);
        assert(t@.take(i + 1) =~= t@.take(i as int).push(t@[i as int]));
        i = i + 1;
    }
    assert(t@.take(t.len() as int) =~= t@);
}

/// First position at or after `from` where `pattern` occurs in `s`.
pub open spec fn find_from(s: Seq<char>, pattern: Seq<char>, from: int) -> Option<int>
    decreases s.len() + 1 - from,
{
    if from < 0 || from + pattern.len() > s.len() {
        None
    } else if occurs_at(s, pattern, from) {
        Some(from)
    } else {
        find_from(s, pattern, from + 1)
    }
}

/// Finds the first occurrence of `pattern` at or after `from`.
pub fn find(s: &[char], pattern: &[char], from: usize) -> (r: Option<usize>)
    ensures
        match r {
            Some(i) => find_from(s@, pattern@, from as int) == Some(i as int),
            None => find_from(s@, pattern@, from as int) is None,
        },
{
    let mut i = from;
    while i <= s.len() && pattern.len() <= s.len() - i
        invariant
            from <= i,
            find_from(s@, pattern@, i as int) == find_from(s@, pattern@, from as int),
        decreases s.len() + 1 - i,
    {
        if matches_at(s, pattern, i) {
            return Some(i);
        }
        if i == s.len() {
            assert(find_from(s@, pattern@, i + 1) is None);
            return None;
        }
        i = i + 1;
    }
    None
}

/// `(before, after)` of the first occurrence of `pattern` (`str::split_once`).
pub open spec fn split_once_seq(s: Seq<char>, pattern: Seq<char>) -> Option<(Seq<char>, Seq<char>)> {
    match find_from(s, pattern, 0) {
        Some(i) => Some((s.subrange(0, i), s.subrange(i + pattern.len(), s.len() as int))),
        None => None,
    }
}

pub proof fn lemma_find_from_bounds(s: Seq<char>, pattern: Seq<char>, from: int)
    ensures
        find_from(s, pattern, from) matches Some(i) ==> from <= i && i + pattern.len() <= s.len()
            && occurs_at(s, pattern, i),
    decreases s.len() + 1 - from,
{
    if from >= 0 && from + pattern.len() <= s.len() && !occurs_at(s, pattern, from) {
        lemma_find_from_bounds(s, pattern, from + 1);
    }
}

/// Splits at the first occurrence of `pattern`.
pub fn split_once(s: &[char], pattern: &[char]) -> (r: Option<(Vec<char>, Vec<char>)>)
    ensures
        match r {
            Some((a, b)) => split_once_seq(s@, pattern@) == Some((a@, b@)),
            None => split_once_seq(s@, pattern@) is None,
        },
{
    proof {
        lemma_find_from_bounds(s@, pattern@, 0);
    }
    match find(s, pattern, 0) {
        Some(i) => {
            assert(find_from(s@, pattern@, 0) == Some(i as int));
            assert(i + pattern@.len() <= s@.len());
            assert(pattern@.len() == pattern.len());
            let plen = pattern.len();
            assert(i + plen <= s.len());
            let end = i + plen;
            let a = slice_of(s, 0, i);
            let b = slice_of(s, end, s.len());
            Some((a, b))
        },
        None => None,
    }
}

/// The lines of `s` split at `'\n'` (`str::split('\n')`): one more line
/// than there are line feeds.
pub open spec fn split_lf(s: Seq<char>) -> Seq<Seq<char>>
    decreases s.len(),
{
    match find_from(s, seq!['\n'], 0) {
        Some(i) => {
            if 0 <= i && i < s.len() {
                seq![s.subrange(0, i)] + split_lf(s.subrange(i + 1, s.len() as int))
            } else {
                seq![s]
            }
        },
        None => seq![s],
    }
}

/// The lines of `s` as `str::lines` gives them: split at `'\n'`, a final
/// `'\r'` removed from each line, and no empty line after a final line feed.
pub open spec fn text_lines(s: Seq<char>) -> Seq<Seq<char>> {
    let parts = split_lf(s);
    let kept = if s.len() > 0 && s.last() == '\n' {
        parts.drop_last()
    } else if s.len() == 0 {
        Seq::empty()
    } else {
        parts
    };
    kept.map_values(|l: Seq<char>| strip_cr(l))
}

/// `l` without one trailing carriage return.
pub open spec fn strip_cr(l: Seq<char>) -> Seq<char> {
    if l.len() > 0 && l.last() == '\r' {
        l.drop_last()
    } else {
        l
    }
}

/// Splits at every `'\n'`.
pub fn split_on_lf(s: &[char]) -> (r: Vec<Vec<char>>)
    ensures
        r@.map_values(|l: Vec<char>| l@) == split_lf(s@),
{
    let mut out: Vec<Vec<char>> = Vec::new();
    let mut start: usize = 0;
    let lf = vec!['\n'];
    assert(s@.subrange(0, s@.len() as int) =~= s@);
    assert(out@.map_values(|l: Vec<char>| l@) =~= Seq::<Seq<char>>::empty());
    loop
        invariant
            start <= s.len(),
            lf@ == seq!['\n'],
            out@.map_values(|l: Vec<char>| l@) + split_lf(s@.subrange(start as int, s@.len() as int))
                == split_lf(s@),
        decreases s.len() - start,
    {
        let rest = slice_of(s, start, s.len());
        proof {
            lemma_find_from_bounds(rest@, lf@, 0);
        }
        match find(rest.as_slice(), lf.as_slice(), 0) {
            Some(i) => {
                let line = slice_of(rest.as_slice(), 0, i);
                let ghost before = out@.map_values(|l: Vec<char>| l@);
                out.push(line);
                proof {
                    assert(out@.map_values(|l: Vec<char>| l@) =~= before.push(rest@.subrange(0, i as int)));
                    assert(rest@.subrange(i + 1, rest@.len() as int) =~= s@.subrange(
                        start + i + 1,
                        s@.len() as int,
                    ));
                    assert(split_lf(rest@) == seq![rest@.subrange(0, i as int)] + split_lf(
                        rest@.subrange(i + 1, rest@.len() as int),
                    ));
                    assert(before.push(rest@.subrange(0, i as int)) + split_lf(
                        rest@.subrange(i + 1, rest@.len() as int),
                    ) =~= before + split_lf(rest@));
                }
                start = start + i + 1;
            },
            None => {
                let ghost before = out@.map_values(|l: Vec<char>| l@);
                out.push(rest);
                proof {
                    assert(out@.map_values(|l: Vec<char>| l@) =~= before + split_lf(
                        s@.subrange(start as int, s@.len() as int),
                    ));
                }
                return out;
            },
        }
    }
}

/// The lines of a text (`str::lines`).
pub fn lines_of(s: &[char]) -> (r: Vec<Vec<char>>)
    ensures
        r@.map_values(|l: Vec<char>| l@) == text_lines(s@),
{
    let parts = split_on_lf(s);
    let ghost p = parts@.map_values(|l: Vec<char>| l@);
    proof {
        lemma_split_lf_len(s@);
    }
    let n = if s.len() > 0 && s[s.len() - 1] == '\n' {
        parts.len() - 1
    } else if s.len() == 0 {
        0
    } else {
        parts.len()
    };
    let mut out: Vec<Vec<char>> = Vec::new();
    let mut i: usize = 0;
    while i < n
        invariant
            i <= n <= parts.len(),
            p == parts@.map_values(|l: Vec<char>| l@),
            n == if s@.len() > 0 && s@.last() == '\n' {
                p.len() - 1
            } else if s@.len() == 0 {
                0
            } else {
                p.len() as int
            },
            out@.map_values(|l: Vec<char>| l@) == p.take(i as int).map_values(
                |l: Seq<char>| strip_cr(l),
            ),
        decreases n - i,
    {
        let line = &parts[i];
        let cut = if line.len() > 0 && line[line.len() - 1] == '\r' {
            slice_of(line.as_slice(), 0, line.len() - 1)
        } else {
            slice_of(line.as_slice(), 0, line.len())
        };
        let ghost before = out@.map_values(|l: Vec<char>| l@);
        assert(p[i as int] == line@);
        assert(cut@ =~= strip_cr(line@));
        out.push(cut);
        assert(out@.map_values(|l: Vec<char>| l@) =~= before.push(cut@));
        assert(p.take(i + 1).map_values(|l: Seq<char>| strip_cr(l)) =~= p.take(i as int).map_values(
            |l: Seq<char>| strip_cr(l),
        ).push(strip_cr(p[i as int])));
        assert(out@.map_values(|l: Vec<char>| l@) =~= p.take(i + 1).map_values(
            |l: Seq<char>| strip_cr(l),
        ));
        i = i + 1;
    }
    proof {
        let kept = if s@.len() > 0 && s@.last() == '\n' {
            p.drop_last()
        } else if s@.len() == 0 {
            Seq::empty()
        } else {
            p
        };
        assert(p.take(n as int) =~= kept);
    }
    out
}

proof fn lemma_split_lf_len(s: Seq<char>)
    ensures
        split_lf(s).len() >= 1,
    decreases s.len(),
{
    match find_from(s, seq!['\n'], 0) {
        Some(i) => {
            lemma_find_from_bounds(s, seq!['\n'], 0);
            if 0 <= i && i < s.len() {
                lemma_split_lf_len(s.subrange(i + 1, s.len() as int));
            }
        },
        None => {},
    }
}

/// `parts` joined with `sep` between consecutive parts.
pub open spec fn joined(parts: Seq<Seq<char>>, sep: Seq<char>) -> Seq<char>
    decreases parts.len(),
{
    if parts.len() == 0 {
        Seq::empty()
    } else if parts.len() == 1 {
        parts[0]
    } else {
        joined(parts.drop_last(), sep) + sep + parts.last()
    }
}

/// Joins `parts` with `sep` (`[..].join(sep)`).
pub fn join(parts: &Vec<Vec<char>>, sep: &[char]) -> (r: Vec<char>)
    ensures
        r@ == joined(parts@.map_values(|l: Vec<char>| l@), sep@),
{
    let ghost p = parts@.map_values(|l: Vec<char>| l@);
    let mut out: Vec<char> = Vec::new();
    let mut i: usize = 0;
    while i < parts.len()
        invariant
            i <= parts.len(),
            p == parts@.map_values(|l: Vec<char>| l@),
            out@ == joined(p.take(i as int), sep@),
        decreases parts.len() - i,
    {
        assert(p.take(i + 1).drop_last() =~= p.take(i as int));
        assert(p.take(i + 1).last() == parts@[i as int]@);
        if i > 0 {
            extend_chars(&mut out, sep);
        }
        extend_chars(&mut out, parts[i].as_slice());
        assert(i == 0 ==> p.take(i + 1).len() == 1 && out@ =~= p.take(i + 1)[0]);
        i = i + 1;
    }
    assert(p.take(parts.len() as int) =~= p);
    out
}

} // verus!

verus! {

/// `s` with every occurrence of `from` replaced by `to`, scanning left to
/// right (`str::replace`); an empty pattern leaves `s` as it is.
pub open spec fn replaced(s: Seq<char>, from: Seq<char>, to: Seq<char>) -> Seq<char>
    decreases s.len(),
{
    if from.len() == 0 {
        s
    } else {
        match find_from(s, from, 0) {
            Some(i) => if 0 <= i && i + from.len() <= s.len() {
                s.subrange(0, i) + to + replaced(s.subrange(i + from.len(), s.len() as int), from, to)
            } else {
                s
            },
            None => s,
        }
    }
}

/// Replaces every occurrence of a non-empty `from` by `to`.
pub fn replace_all(s: &[char], from: &[char], to: &[char]) -> (r: Vec<char>)
    ensures
        r@ == replaced(s@, from@, to@),
{
    if from.len() == 0 {
        return slice_of(s, 0, s.len());
    }
    let mut out: Vec<char> = Vec::new();
    let mut start: usize = 0;
    assert(s@.subrange(0, s@.len() as int) =~= s@);
    loop
        invariant
            start <= s.len(),
            from@.len() > 0,
            out@ + replaced(s@.subrange(start as int, s@.len() as int), from@, to@) == replaced(
                s@,
                from@,
                to@,
            ),
        decreases s.len() - start,
    {
        let rest = slice_of(s, start, s.len());
        proof {
            lemma_find_from_bounds(rest@, from@, 0);
        }
        match find(rest.as_slice(), from, 0) {
            Some(i) => {
                let plen = from.len();
                assert(i + plen <= rest.len());
                let ghost before = out@;
                extend_chars(&mut out, slice_of(rest.as_slice(), 0, i).as_slice());
                extend_chars(&mut out, to);
                proof {
                    assert(rest@.subrange(i + plen, rest@.len() as int) =~= s@.subrange(
                        start + i + plen,
                        s@.len() as int,
                    ));
                    assert(out@ + replaced(rest@.subrange(i + plen, rest@.len() as int), from@, to@)
                        =~= before + replaced(rest@, from@, to@));
                }
                start = start + i + plen;
            },
            None => {
                extend_chars(&mut out, rest.as_slice());
                return out;
            },
        }
    }
}

/// Index of the first whitespace character at or after `i`, or the end.
pub open spec fn word_end(s: Seq<char>, i: int) -> int
    decreases s.len() - i,
{
    if i < 0 || i >= s.len() || spec_is_whitespace(s[i]) {
        i
    } else {
        word_end(s, i + 1)
    }
}

/// The first whitespace-separated word of `s` (`split_whitespace().next()`).
pub open spec fn first_word(s: Seq<char>) -> Option<Seq<char>> {
    let a = trim_start_at(s, 0);
    if a >= s.len() {
        None
    } else {
        Some(s.subrange(a, word_end(s, a)))
    }
}

proof fn lemma_word_end_bounds(s: Seq<char>, i: int)
    requires
        0 <= i <= s.len(),
    ensures
        i <= word_end(s, i) <= s.len(),
    decreases s.len() - i,
{
    if i < s.len() && !spec_is_whitespace(s[i]) {
        lemma_word_end_bounds(s, i + 1);
    }
}

/// The first whitespace-separated word.
pub fn first_word_of(s: &[char]) -> (r: Option<Vec<char>>)
    ensures
        match r {
            Some(w) => first_word(s@) == Some(w@),
            None => first_word(s@) is None,
        },
{
    let mut a: usize = 0;
    while a < s.len() && is_whitespace(s[a])
        invariant
            a <= s.len(),
            trim_start_at(s@, a as int) == trim_start_at(s@, 0),
        decreases s.len() - a,
    {
        a = a + 1;
    }
    if a >= s.len() {
        return None;
    }
    let mut b = a;
    while b < s.len() && !is_whitespace(s[b])
        invariant
            a <= b <= s.len(),
            word_end(s@, b as int) == word_end(s@, a as int),
        decreases s.len() - b,
    {
        b = b + 1;
    }
    Some(slice_of(s, a, b))
}

/// The value of a string of decimal digits.
pub open spec fn digits_value(s: Seq<char>) -> int
    decreases s.len(),
{
    if s.len() == 0 {
        0
    } else {
        10 * digits_value(s.drop_last()) + (s.last() as int - '0' as int)
    }
}

/// Every character is an ASCII digit.
pub open spec fn all_digits(s: Seq<char>) -> bool {
    forall|i: int| 0 <= i < s.len() ==> '0' <= #[trigger] s[i] <= '9'
}

/// What `str::parse::<i64>` gives: an optional sign, then one or more
/// digits, within the range of `i64`.
pub open spec fn parse_int(s: Seq<char>) -> Option<i64> {
    let neg = s.len() > 0 && s[0] == '-';
    let body = if s.len() > 0 && (s[0] == '-' || s[0] == '+') {
        s.drop_first()
    } else {
        s
    };
    if body.len() == 0 || !all_digits(body) {
        None
    } else {
        let v = if neg {
            0 - digits_value(body)
        } else {
            digits_value(body)
        };
        if i64::MIN <= v <= i64::MAX {
            Some(v as i64)
        } else {
            None
        }
    }
}

proof fn lemma_digits_value_grows(s: Seq<char>, k: int)
    requires
        all_digits(s),
        0 <= k <= s.len(),
    ensures
        0 <= digits_value(s.take(k)) <= digits_value(s),
    decreases s.len(),
{
    if s.len() > 0 {
        if k == s.len() {
            assert(s.take(k) =~= s);
            lemma_digits_value_grows(s.drop_last(), s.len() - 1);
            assert(s.drop_last().take(s.len() - 1) =~= s.drop_last());
        } else {
            lemma_digits_value_grows(s.drop_last(), k);
            assert(s.drop_last().take(k) =~= s.take(k));
            lemma_digits_value_grows(s.drop_last(), s.len() - 1);
            assert(s.drop_last().take(s.len() - 1) =~= s.drop_last());
        }
    } else {
        assert(s.take(k) =~= s);
    }
}

/// Parses a decimal `i64` as `str::parse::<i64>` does.
#[verifier::loop_isolation(false)]
pub fn parse_i64(s: &[char]) -> (r: Option<i64>)
    ensures
        r == parse_int(s@),
{
    let signed = s.len() > 0 && (s[0] == '-' || s[0] == '+');
    let neg = s.len() > 0 && s[0] == '-';
    let body = if signed {
        slice_of(s, 1, s.len())
    } else {
        slice_of(s, 0, s.len())
    };
    assert(body@ =~= if s@.len() > 0 && (s@[0] == '-' || s@[0] == '+') {
        s@.drop_first()
    } else {
        s@
    });
    if body.len() == 0 {
        return None;
    }
    let mut i: usize = 0;
    while i < body.len()
        invariant
            i <= body.len(),
            forall|k: int| 0 <= k < i ==> '0' <= #[trigger] body@[k] <= '9',
        decreases body.len() - i,
    {
        if !('0' <= body[i] && body[i] <= '9') {
            assert(!('0' <= body@[i as int] <= '9'));
            assert(!all_digits(body@));
            return None;
        }
        i = i + 1;
    }
    let limit: i128 = 9223372036854775808;
    let mut v: i128 = 0;
    let mut j: usize = 0;
    while j < body.len()
        invariant
            j <= body.len(),
            all_digits(body@),
            v as int == digits_value(body@.take(j as int)),
            0 <= v <= limit,
        decreases body.len() - j,
    {
        assert(body@.take(j + 1).drop_last() =~= body@.take(j as int));
        assert(body@.take(j + 1).last() == body@[j as int]);
        let c = body[j];
        assert('0' <= body@[j as int] <= '9');
        assert(48 <= (c as u32) <= 57);
        let d = (c as u32 - 48) as i128;
        let next = 10 * v + d;
        if next > limit {
            proof {
                lemma_digits_value_grows(body@, j + 1);
            }
            return None;
        }
        v = next;
        j = j + 1;
    }
    assert(body@.take(body.len() as int) =~= body@);
    if neg {
        Some((0 - v) as i64)
    } else if v <= 9223372036854775807 {
        Some(v as i64)
    } else {
        None
    }
}

} // verus!
