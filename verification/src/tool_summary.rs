//! Short display-only descriptions of tool calls, failure detection from
//! explicit metadata, and the exact commands that tool calls recorded.
//! Tool inputs are never evaluated.
use crate::formatting::{inspect, result_summary, summary_line_text};
use crate::history::{strings, CommandView, RecordedCommand};
use crate::json::{bool_of, field, get, int_of, json_parse, parse_json, text_of, Json};
use crate::text::{
    chars_of, is_blank, is_control, is_whitespace, joined, lines_of, spec_is_control,
    spec_is_whitespace, starts_with, starts_with_seq, string_of, text_lines, trimmed,
};
use vstd::prelude::*;

verus! {

/// Characters kept in a summary: all but control characters, whitespace kept.
pub open spec fn kept(c: char) -> bool {
    !spec_is_control(c) || spec_is_whitespace(c)
}

/// `s` without the characters that a summary drops.
pub open spec fn cleaned(s: Seq<char>) -> Seq<char>
    decreases s.len(),
{
    if s.len() == 0 {
        s
    } else if kept(s.last()) {
        cleaned(s.drop_last()).push(s.last())
    } else {
        cleaned(s.drop_last())
    }
}

/// The words of the first `n` characters of `s` joined by single spaces,
/// and whether whitespace follows the last word.
pub open spec fn squeezed(s: Seq<char>, n: int) -> (Seq<char>, bool)
    decreases n,
{
    if n <= 0 {
        (Seq::empty(), false)
    } else {
        let (out, gap) = squeezed(s, n - 1);
        let c = s[n - 1];
        if spec_is_whitespace(c) {
            (out, out.len() > 0)
        } else {
            (
                if gap {
                    out + seq![' ']
                } else {
                    out
                }.push(c),
                false,
            )
        }
    }
}

/// At most 120 characters, an ellipsis marking a cut.
pub open spec fn truncated(s: Seq<char>) -> Seq<char> {
    if s.len() > 120 {
        s.take(120).push('…')
    } else {
        s
    }
}

/// A text as a one-line summary: control characters dropped, whitespace runs
/// made single spaces, at most 120 characters.
pub open spec fn compact_text(s: Seq<char>) -> Seq<char> {
    truncated(squeezed(cleaned(s), cleaned(s).len() as int).0)
}

/// Whether every item is a string.
pub open spec fn all_strings(items: Seq<Json>) -> bool {
    forall|i: int| 0 <= i < items.len() ==> #[trigger] items[i] is Str
}

/// The texts of string items.
pub open spec fn item_texts(items: Seq<Json>) -> Seq<Seq<char>> {
    items.map_values(
        |j: Json|
            match j {
                Json::Str(s) => s@,
                _ => Seq::empty(),
            },
    )
}

/// The summary of a value that is a non-blank string or a list of strings.
pub open spec fn value_text(v: Json) -> Option<Seq<char>> {
    match v {
        Json::Str(s) => if trimmed(s@).len() > 0 {
            Some(compact_text(s@))
        } else {
            None
        },
        Json::Array(items) => if all_strings(items@) {
            Some(compact_text(joined(item_texts(items@), " "@)))
        } else {
            None
        },
        _ => None,
    }
}

/// The fields that directly describe a tool call, in order of preference.
pub open spec fn summary_keys() -> Seq<Seq<char>> {
    seq![
        "cmd"@,
        "command"@,
        "file_path"@,
        "path"@,
        "filename"@,
        "file"@,
        "pattern"@,
        "query"@,
        "q"@,
        "url"@,
    ]
}

/// The fields that hold a tool call's nested input.
pub open spec fn nested_keys() -> Seq<Seq<char>> {
    seq!["parameters"@, "arguments"@, "input"@]
}

/// The first non-empty summary among the fields `keys` of `v`.
pub open spec fn key_text(v: Json, keys: Seq<Seq<char>>) -> Option<Seq<char>>
    decreases keys.len(),
{
    if keys.len() == 0 {
        None
    } else {
        match field(v, keys[0]) {
            Some(x) => match value_text(x) {
                Some(t) => if t.len() > 0 {
                    Some(t)
                } else {
                    key_text(v, keys.drop_first())
                },
                None => key_text(v, keys.drop_first()),
            },
            None => key_text(v, keys.drop_first()),
        }
    }
}

/// The file named by the first patch header among `lines`.
pub open spec fn patch_path(lines: Seq<Seq<char>>) -> Option<Seq<char>>
    decreases lines.len(),
{
    if lines.len() == 0 {
        None
    } else {
        let l = lines[0];
        if starts_with_seq(l, "*** Update File: "@) {
            Some(l.skip(17))
        } else if starts_with_seq(l, "*** Add File: "@) {
            Some(l.skip(14))
        } else if starts_with_seq(l, "*** Delete File: "@) {
            Some(l.skip(17))
        } else {
            patch_path(lines.drop_first())
        }
    }
}

/// The first line that is not blank, or the empty text.
pub open spec fn first_nonblank(lines: Seq<Seq<char>>) -> Seq<char>
    decreases lines.len(),
{
    if lines.len() == 0 {
        Seq::empty()
    } else if trimmed(lines[0]).len() > 0 {
        lines[0]
    } else {
        first_nonblank(lines.drop_first())
    }
}

/// The summary of a tool input at nesting `depth`: strings holding JSON are
/// decoded; other strings give a patched file or their first line; objects
/// give a describing field, else their nested input's summary.
pub open spec fn extract(v: Json, depth: nat) -> Seq<char>
    decreases 9 - depth, 1nat, 0nat,
{
    if depth > 8 {
        Seq::empty()
    } else {
        match v {
            Json::Str(s) => match json_parse(s@) {
                Some(d) => extract(d, depth + 1),
                None => match patch_path(text_lines(s@)) {
                    Some(p) => compact_text(p),
                    None => compact_text(first_nonblank(text_lines(s@))),
                },
            },
            _ => match key_text(v, summary_keys()) {
                Some(t) => t,
                None => nested_text(v, nested_keys(), depth),
            },
        }
    }
}

/// The first non-empty summary of the nested inputs `keys` of `v`.
pub open spec fn nested_text(v: Json, keys: Seq<Seq<char>>, depth: nat) -> Seq<char>
    decreases 9 - depth, 0nat, keys.len(),
{
    if keys.len() == 0 || depth > 8 {
        Seq::empty()
    } else {
        match field(v, keys[0]) {
            Some(x) => {
                let s = extract(x, depth + 1);
                if s.len() > 0 {
                    s
                } else {
                    nested_text(v, keys.drop_first(), depth)
                }
            },
            None => nested_text(v, keys.drop_first(), depth),
        }
    }
}

/// Drops the characters that a summary does not keep.
fn clean(s: &[char]) -> (r: Vec<char>)
    ensures
        r@ == cleaned(s@),
{
    let mut out: Vec<char> = Vec::new();
    let mut i: usize = 0;
    while i < s.len()
        invariant
            i <= s.len(),
            out@ == cleaned(s@.take(i as int)),
        decreases s.len() - i,
    {
        assert(s@.take(i + 1).drop_last() =~= s@.take(i as int));
        assert(s@.take(i + 1).last() == s@[i as int]);
        let c = s[i];
        if !is_control(c) || is_whitespace(c) {
            out.push(c);
        }
        i = i + 1;
    }
    assert(s@.take(s.len() as int) =~= s@);
    out
}

/// A text as a one-line summary.
fn compact(s: &[char]) -> (r: Vec<char>)
    ensures
        r@ == compact_text(s@),
{
    let c = clean(s);
    let mut out: Vec<char> = Vec::new();
    let mut gap = false;
    let mut i: usize = 0;
    while i < c.len()
        invariant
            i <= c.len(),
            (out@, gap) == squeezed(c@, i as int),
        decreases c.len() - i,
    {
        let ch = c[i];
        if is_whitespace(ch) {
            gap = out.len() > 0;
        } else {
            if gap {
                out.push(' ');
            }
            out.push(ch);
            gap = false;
        }
        i = i + 1;
    }
    if out.len() > 120 {
        let mut cut = crate::text::slice_of(out.as_slice(), 0, 120);
        cut.push('…');
        assert(cut@ =~= out@.take(120).push('…'));
        cut
    } else {
        out
    }
}

/// The summary of a value that is a non-blank string or a list of strings.
#[verifier::loop_isolation(false)]
fn value_text_of(v: &Json) -> (r: Option<Vec<char>>)
    ensures
        match r {
            Some(t) => value_text(*v) == Some(t@),
            None => value_text(*v) is None,
        },
{
    match v {
        Json::Str(s) => {
            let cs = chars_of(s.as_str());
            if is_blank(cs.as_slice()) {
                None
            } else {
                Some(compact(cs.as_slice()))
            }
        },
        Json::Array(items) => {
            let mut texts: Vec<Vec<char>> = Vec::new();
            let mut i: usize = 0;
            while i < items.len()
                invariant
                    i <= items.len(),
                    all_strings(items@.take(i as int)),
                    texts@.map_values(|t: Vec<char>| t@) =~= item_texts(items@).take(i as int),
                decreases items.len() - i,
            {
                match &items[i] {
                    Json::Str(t) => {
                        let ghost before = texts@.map_values(|t: Vec<char>| t@);
                        texts.push(chars_of(t.as_str()));
                        assert(texts@.map_values(|t: Vec<char>| t@) =~= before.push(
                            item_texts(items@)[i as int],
                        ));
                        assert(item_texts(items@).take(i + 1) =~= item_texts(items@).take(
                            i as int,
                        ).push(item_texts(items@)[i as int]));
                    },
                    _ => {
                        assert(!(items@[i as int] is Str));
                        assert(!all_strings(items@));
                        return None;
                    },
                }
                assert(items@.take(i + 1)[i as int] == items@[i as int]);
                assert forall|k: int| 0 <= k < i + 1 implies #[trigger] items@.take(i + 1)[k] is Str by {
                    if k < i {
                        assert(items@.take(i as int)[k] == items@.take(i + 1)[k]);
                    }
                }
                i = i + 1;
            }
            assert(items@.take(items.len() as int) =~= items@);
            assert(item_texts(items@).take(items.len() as int) =~= item_texts(items@));
            let line = crate::text::join(&texts, chars_of(" ").as_slice());
            Some(compact(line.as_slice()))
        },
        _ => None,
    }
}

/// The first non-empty summary among the fields `keys` of `v`, from key `k` on.
fn key_text_of(v: &Json, keys: &Vec<&str>, k: usize) -> (r: Option<Vec<char>>)
    requires
        k <= keys.len(),
    ensures
        match r {
            Some(t) => key_text(*v, keys@.map_values(|s: &str| s@).skip(k as int)) == Some(t@),
            None => key_text(*v, keys@.map_values(|s: &str| s@).skip(k as int)) is None,
        },
    decreases keys.len() - k,
{
    let ghost ks = keys@.map_values(|s: &str| s@);
    if k == keys.len() {
        assert(ks.skip(k as int) =~= Seq::<Seq<char>>::empty());
        return None;
    }
    assert(ks.skip(k as int).drop_first() =~= ks.skip(k + 1));
    assert(ks.skip(k as int)[0] == keys@[k as int]@);
    match get(v, keys[k]) {
        Some(x) => match value_text_of(x) {
            Some(t) => if t.len() > 0 {
                Some(t)
            } else {
                key_text_of(v, keys, k + 1)
            },
            None => key_text_of(v, keys, k + 1),
        },
        None => key_text_of(v, keys, k + 1),
    }
}

/// The file named by the first patch header among `lines`, from line `k` on.
fn patch_path_of(lines: &Vec<Vec<char>>, k: usize) -> (r: Option<Vec<char>>)
    requires
        k <= lines.len(),
    ensures
        match r {
            Some(p) => patch_path(lines@.map_values(|l: Vec<char>| l@).skip(k as int)) == Some(p@),
            None => patch_path(lines@.map_values(|l: Vec<char>| l@).skip(k as int)) is None,
        },
    decreases lines.len() - k,
{
    let ghost ls = lines@.map_values(|l: Vec<char>| l@);
    if k == lines.len() {
        assert(ls.skip(k as int) =~= Seq::<Seq<char>>::empty());
        return None;
    }
    assert(ls.skip(k as int).drop_first() =~= ls.skip(k + 1));
    assert(ls.skip(k as int)[0] == lines@[k as int]@);
    let l = lines[k].as_slice();
    let update = chars_of("*** Update File: ");
    let add = chars_of("*** Add File: ");
    let delete = chars_of("*** Delete File: ");
    proof {
        reveal_strlit("*** Update File: ");
        reveal_strlit("*** Add File: ");
        reveal_strlit("*** Delete File: ");
    }
    if starts_with(l, update.as_slice()) {
        Some(crate::text::slice_of(l, 17, l.len()))
    } else if starts_with(l, add.as_slice()) {
        Some(crate::text::slice_of(l, 14, l.len()))
    } else if starts_with(l, delete.as_slice()) {
        Some(crate::text::slice_of(l, 17, l.len()))
    } else {
        patch_path_of(lines, k + 1)
    }
}

/// The first line that is not blank, from line `k` on.
fn first_nonblank_of(lines: &Vec<Vec<char>>, k: usize) -> (r: Vec<char>)
    requires
        k <= lines.len(),
    ensures
        r@ == first_nonblank(lines@.map_values(|l: Vec<char>| l@).skip(k as int)),
    decreases lines.len() - k,
{
    let ghost ls = lines@.map_values(|l: Vec<char>| l@);
    if k == lines.len() {
        assert(ls.skip(k as int) =~= Seq::<Seq<char>>::empty());
        return Vec::new();
    }
    assert(ls.skip(k as int).drop_first() =~= ls.skip(k + 1));
    assert(ls.skip(k as int)[0] == lines@[k as int]@);
    if !is_blank(lines[k].as_slice()) {
        crate::text::slice_of(lines[k].as_slice(), 0, lines[k].len())
    } else {
        first_nonblank_of(lines, k + 1)
    }
}

/// The summary of a tool input at nesting `depth`.
fn extract_of(v: &Json, depth: usize) -> (r: Vec<char>)
    requires
        depth <= 9,
    ensures
        r@ == extract(*v, depth as nat),
    decreases 9 - depth, 1nat, 0nat,
{
    if depth > 8 {
        return Vec::new();
    }
    match v {
        Json::Str(s) => match parse_json(s.as_str()) {
            Some(d) => extract_of(&d, depth + 1),
            None => {
                let cs = chars_of(s.as_str());
                let lines = lines_of(cs.as_slice());
                let ghost ls = lines@.map_values(|l: Vec<char>| l@);
                assert(ls.skip(0) =~= ls);
                match patch_path_of(&lines, 0) {
                    Some(p) => compact(p.as_slice()),
                    None => {
                        let first = first_nonblank_of(&lines, 0);
                        compact(first.as_slice())
                    },
                }
            },
        },
        _ => {
            let keys: Vec<&str> = vec![
                "cmd",
                "command",
                "file_path",
                "path",
                "filename",
                "file",
                "pattern",
                "query",
                "q",
                "url",
            ];
            assert(keys@.map_values(|s: &str| s@).skip(0) =~= summary_keys());
            match key_text_of(v, &keys, 0) {
                Some(t) => t,
                None => {
                    let nested: Vec<&str> = vec!["parameters", "arguments", "input"];
                    assert(nested@.map_values(|s: &str| s@).skip(0) =~= nested_keys());
                    nested_text_of(v, &nested, 0, depth)
                },
            }
        },
    }
}

/// The first non-empty summary of the nested inputs `keys` of `v`, from key `k` on.
fn nested_text_of(v: &Json, keys: &Vec<&str>, k: usize, depth: usize) -> (r: Vec<char>)
    requires
        k <= keys.len(),
        depth <= 9,
    ensures
        r@ == nested_text(*v, keys@.map_values(|s: &str| s@).skip(k as int), depth as nat),
    decreases 9 - depth, 0nat, keys.len() - k,
{
    let ghost ks = keys@.map_values(|s: &str| s@);
    if k == keys.len() || depth > 8 {
        assert(k == keys.len() ==> ks.skip(k as int) =~= Seq::<Seq<char>>::empty());
        return Vec::new();
    }
    assert(ks.skip(k as int).drop_first() =~= ks.skip(k + 1));
    assert(ks.skip(k as int)[0] == keys@[k as int]@);
    match get(v, keys[k]) {
        Some(x) => {
            let s = extract_of(x, depth + 1);
            if s.len() > 0 {
                s
            } else {
                nested_text_of(v, keys, k + 1, depth)
            }
        },
        None => nested_text_of(v, keys, k + 1, depth),
    }
}

/// A short description of a tool call's input (empty when nothing describes it).
pub fn summarize(input: &Json) -> (r: String)
    ensures
        r@ == extract(*input, 0),
{
    string_of(extract_of(input, 0).as_slice())
}

/// Whether a tool output reports failure at nesting `depth`: explicit error
/// metadata or a non-zero exit code, in the output or in its `content`,
/// `output` or `text`, in any part of a list, in JSON inside strings, or a
/// process envelope whose summary is a failure. Error words in plain output
/// do not count.
pub open spec fn failure(v: Json, depth: nat) -> bool
    decreases 17 - depth, 1nat, 0nat,
{
    if depth > 16 {
        false
    } else {
        match v {
            Json::Str(s) => match json_parse(s@) {
                Some(d) => failure(d, depth + 1),
                None => starts_with_seq(summary_line_text(inspect(v, 0).0, None), "Failed"@),
            },
            Json::Array(items) => any_failure(items@, depth, items.len() as int),
            _ => bool_of(field(v, "isError"@)) == Some(true) || match int_of(field(v, "exit_code"@)) {
                Some(c) => c != 0,
                None => false,
            } || keyed_failure(v, seq!["content"@, "output"@, "text"@], depth),
        }
    }
}

/// Whether one of the first `n` items reports failure.
pub open spec fn any_failure(items: Seq<Json>, depth: nat, n: int) -> bool
    decreases 17 - depth, 0nat, n,
{
    if n <= 0 || depth > 16 {
        false
    } else {
        any_failure(items, depth, n - 1) || failure(items[n - 1], depth + 1)
    }
}

/// Whether one of the fields `keys` of `v` reports failure.
pub open spec fn keyed_failure(v: Json, keys: Seq<Seq<char>>, depth: nat) -> bool
    decreases 17 - depth, 0nat, keys.len(),
{
    if keys.len() == 0 || depth > 16 {
        false
    } else {
        match field(v, keys[0]) {
            Some(x) => failure(x, depth + 1) || keyed_failure(v, keys.drop_first(), depth),
            None => keyed_failure(v, keys.drop_first(), depth),
        }
    }
}

/// Whether a tool output reports failure at nesting `depth`.
fn failure_of(v: &Json, depth: usize) -> (r: bool)
    requires
        depth <= 17,
    ensures
        r == failure(*v, depth as nat),
    decreases 17 - depth, 1nat, 0nat,
{
    if depth > 16 {
        return false;
    }
    match v {
        Json::Str(s) => match parse_json(s.as_str()) {
            Some(d) => failure_of(&d, depth + 1),
            None => result_summary(v).failed(),
        },
        Json::Array(items) => any_failure_of(items, depth, items.len()),
        _ => {
            if crate::json::get_bool(v, "isError") == Some(true) {
                return true;
            }
            match crate::json::get_i64(v, "exit_code") {
                Some(c) => if c != 0 {
                    return true;
                },
                None => {},
            }
            let keys: Vec<&str> = vec!["content", "output", "text"];
            assert(keys@.map_values(|s: &str| s@).skip(0) =~= seq!["content"@, "output"@, "text"@]);
            keyed_failure_of(v, &keys, 0, depth)
        },
    }
}

/// Whether one of the first `n` items reports failure.
fn any_failure_of(items: &Vec<Json>, depth: usize, n: usize) -> (r: bool)
    requires
        n <= items.len(),
        depth <= 17,
    ensures
        r == any_failure(items@, depth as nat, n as int),
    decreases 17 - depth, 0nat, n,
{
    if n == 0 || depth > 16 {
        return false;
    }
    any_failure_of(items, depth, n - 1) || failure_of(&items[n - 1], depth + 1)
}

/// Whether one of the fields `keys` of `v`, from key `k` on, reports failure.
fn keyed_failure_of(v: &Json, keys: &Vec<&str>, k: usize, depth: usize) -> (r: bool)
    requires
        k <= keys.len(),
        depth <= 17,
    ensures
        r == keyed_failure(*v, keys@.map_values(|s: &str| s@).skip(k as int), depth as nat),
    decreases 17 - depth, 0nat, keys.len() - k,
{
    let ghost ks = keys@.map_values(|s: &str| s@);
    if k == keys.len() || depth > 16 {
        assert(k == keys.len() ==> ks.skip(k as int) =~= Seq::<Seq<char>>::empty());
        return false;
    }
    assert(ks.skip(k as int).drop_first() =~= ks.skip(k + 1));
    assert(ks.skip(k as int)[0] == keys@[k as int]@);
    match get(v, keys[k]) {
        Some(x) => failure_of(x, depth + 1) || keyed_failure_of(v, keys, k + 1, depth),
        None => keyed_failure_of(v, keys, k + 1, depth),
    }
}

/// Whether a tool output reports failure. Only explicit error metadata or
/// recognized process envelopes imply failure.
pub fn failed(output: &Json) -> (r: bool)
    ensures
        r == failure(*output, 0),
{
    failure_of(output, 0)
}

/// The command recorded directly in the fields `keys` of `v`: shell text, or
/// an argument vector of strings.
pub open spec fn direct_command(v: Json, keys: Seq<Seq<char>>) -> Option<CommandView>
    decreases keys.len(),
{
    if keys.len() == 0 {
        None
    } else {
        match field(v, keys[0]) {
            Some(Json::Str(t)) => Some(CommandView::Shell(t@)),
            Some(Json::Array(items)) => if all_strings(items@) {
                Some(CommandView::Arguments(item_texts(items@)))
            } else {
                direct_command(v, keys.drop_first())
            },
            _ => direct_command(v, keys.drop_first()),
        }
    }
}

/// The command a tool input recorded at nesting `depth`: strings holding JSON
/// are decoded; objects give `cmd` or `command`, else a nested input's command.
pub open spec fn command_of(v: Json, depth: nat) -> Option<CommandView>
    decreases 9 - depth, 1nat, 0nat,
{
    if depth > 8 {
        None
    } else {
        match v {
            Json::Str(s) => match json_parse(s@) {
                Some(d) => command_of(d, depth + 1),
                None => None,
            },
            _ => match direct_command(v, seq!["cmd"@, "command"@]) {
                Some(c) => Some(c),
                None => nested_command(v, nested_keys(), depth),
            },
        }
    }
}

/// The first command recorded in the nested inputs `keys` of `v`.
pub open spec fn nested_command(v: Json, keys: Seq<Seq<char>>, depth: nat) -> Option<CommandView>
    decreases 9 - depth, 0nat, keys.len(),
{
    if keys.len() == 0 || depth > 8 {
        None
    } else {
        match field(v, keys[0]) {
            Some(x) => match command_of(x, depth + 1) {
                Some(c) => Some(c),
                None => nested_command(v, keys.drop_first(), depth),
            },
            None => nested_command(v, keys.drop_first(), depth),
        }
    }
}

/// The view of an optional command.
pub open spec fn command_view(c: Option<RecordedCommand>) -> Option<CommandView> {
    match c {
        Some(x) => Some(x@),
        None => None,
    }
}

/// The strings of a list whose items are all strings.
#[verifier::loop_isolation(false)]
fn string_items(items: &Vec<Json>) -> (r: Option<Vec<String>>)
    ensures
        match r {
            Some(a) => all_strings(items@) && strings(a@) == item_texts(items@),
            None => !all_strings(items@),
        },
{
    let mut out: Vec<String> = Vec::new();
    let mut i: usize = 0;
    while i < items.len()
        invariant
            i <= items.len(),
            all_strings(items@.take(i as int)),
            strings(out@) =~= item_texts(items@).take(i as int),
        decreases items.len() - i,
    {
        match &items[i] {
            Json::Str(t) => {
                let ghost before = strings(out@);
                out.push(t.clone());
                assert(strings(out@) =~= before.push(item_texts(items@)[i as int]));
                assert(item_texts(items@).take(i + 1) =~= item_texts(items@).take(i as int).push(
                    item_texts(items@)[i as int],
                ));
            },
            _ => {
                assert(!(items@[i as int] is Str));
                return None;
            },
        }
        assert forall|k: int| 0 <= k < i + 1 implies #[trigger] items@.take(i + 1)[k] is Str by {
            if k < i {
                assert(items@.take(i as int)[k] == items@.take(i + 1)[k]);
            }
        }
        i = i + 1;
    }
    assert(items@.take(items.len() as int) =~= items@);
    assert(item_texts(items@).take(items.len() as int) =~= item_texts(items@));
    Some(out)
}

/// The command recorded directly in the fields `keys` of `v`, from key `k` on.
fn direct_command_of(v: &Json, keys: &Vec<&str>, k: usize) -> (r: Option<RecordedCommand>)
    requires
        k <= keys.len(),
    ensures
        command_view(r) == direct_command(*v, keys@.map_values(|s: &str| s@).skip(k as int)),
    decreases keys.len() - k,
{
    let ghost ks = keys@.map_values(|s: &str| s@);
    if k == keys.len() {
        assert(ks.skip(k as int) =~= Seq::<Seq<char>>::empty());
        return None;
    }
    assert(ks.skip(k as int).drop_first() =~= ks.skip(k + 1));
    assert(ks.skip(k as int)[0] == keys@[k as int]@);
    match get(v, keys[k]) {
        Some(Json::Str(t)) => Some(RecordedCommand::Shell(t.clone())),
        Some(Json::Array(items)) => match string_items(items) {
            Some(a) => Some(RecordedCommand::Arguments(a)),
            None => direct_command_of(v, keys, k + 1),
        },
        _ => direct_command_of(v, keys, k + 1),
    }
}

/// The command a tool input recorded at nesting `depth`.
fn command_of_value(v: &Json, depth: usize) -> (r: Option<RecordedCommand>)
    requires
        depth <= 9,
    ensures
        command_view(r) == command_of(*v, depth as nat),
    decreases 9 - depth, 1nat, 0nat,
{
    if depth > 8 {
        return None;
    }
    match v {
        Json::Str(s) => match parse_json(s.as_str()) {
            Some(d) => command_of_value(&d, depth + 1),
            None => None,
        },
        _ => {
            let keys: Vec<&str> = vec!["cmd", "command"];
            assert(keys@.map_values(|s: &str| s@).skip(0) =~= seq!["cmd"@, "command"@]);
            match direct_command_of(v, &keys, 0) {
                Some(c) => Some(c),
                None => {
                    let nested: Vec<&str> = vec!["parameters", "arguments", "input"];
                    assert(nested@.map_values(|s: &str| s@).skip(0) =~= nested_keys());
                    nested_command_of(v, &nested, 0, depth)
                },
            }
        },
    }
}

/// The first command recorded in the nested inputs `keys` of `v`, from key `k` on.
fn nested_command_of(v: &Json, keys: &Vec<&str>, k: usize, depth: usize) -> (r: Option<RecordedCommand>)
    requires
        k <= keys.len(),
        depth <= 9,
    ensures
        command_view(r) == nested_command(*v, keys@.map_values(|s: &str| s@).skip(k as int), depth as nat),
    decreases 9 - depth, 0nat, keys.len() - k,
{
    let ghost ks = keys@.map_values(|s: &str| s@);
    if k == keys.len() || depth > 8 {
        assert(k == keys.len() ==> ks.skip(k as int) =~= Seq::<Seq<char>>::empty());
        return None;
    }
    assert(ks.skip(k as int).drop_first() =~= ks.skip(k + 1));
    assert(ks.skip(k as int)[0] == keys@[k as int]@);
    match get(v, keys[k]) {
        Some(x) => match command_of_value(x, depth + 1) {
            Some(c) => Some(c),
            None => nested_command_of(v, keys, k + 1, depth),
        },
        None => nested_command_of(v, keys, k + 1, depth),
    }
}

/// The exact shell text or argument vector a tool call recorded; never a
/// command rebuilt from the shortened summary.
pub fn recorded_command(input: &Json) -> (r: Option<RecordedCommand>)
    ensures
        command_view(r) == command_of(*input, 0),
{
    command_of_value(input, 0)
}

proof fn lemma_key_text_short(v: Json, keys: Seq<Seq<char>>)
    ensures
        key_text(v, keys) matches Some(t) ==> t.len() <= 121,
    decreases keys.len(),
{
    if keys.len() > 0 {
        lemma_key_text_short(v, keys.drop_first());
    }
}

proof fn lemma_extract_short(v: Json, depth: nat)
    ensures
        extract(v, depth).len() <= 121,
    decreases 9 - depth, 1nat, 0nat,
{
    if depth <= 8 {
        match v {
            Json::Str(s) => match json_parse(s@) {
                Some(d) => lemma_extract_short(d, depth + 1),
                None => {},
            },
            _ => {
                lemma_key_text_short(v, summary_keys());
                lemma_nested_short(v, nested_keys(), depth);
            },
        }
    }
}

proof fn lemma_nested_short(v: Json, keys: Seq<Seq<char>>, depth: nat)
    ensures
        nested_text(v, keys, depth).len() <= 121,
    decreases 9 - depth, 0nat, keys.len(),
{
    if keys.len() > 0 && depth <= 8 {
        lemma_nested_short(v, keys.drop_first(), depth);
        match field(v, keys[0]) {
            Some(x) => lemma_extract_short(x, depth + 1),
            None => {},
        }
    }
}

/// Law: a tool summary is at most 120 characters and an ellipsis, leaving
/// room for the status on a tool row.
pub proof fn lemma_summary_is_short(input: Json)
    ensures
        extract(input, 0).len() <= 121,
{
    lemma_extract_short(input, 0);
}

/// Whether a text holds no control characters.
pub open spec fn without_controls(s: Seq<char>) -> bool {
    forall|k: int| 0 <= k < s.len() ==> !spec_is_control(#[trigger] s[k])
}

proof fn lemma_cleaned_kept(s: Seq<char>)
    ensures
        forall|k: int| 0 <= k < cleaned(s).len() ==> kept(#[trigger] cleaned(s)[k]),
    decreases s.len(),
{
    if s.len() > 0 {
        lemma_cleaned_kept(s.drop_last());
        let c = cleaned(s.drop_last());
        assert forall|k: int| 0 <= k < cleaned(s).len() implies kept(#[trigger] cleaned(s)[k]) by {
            if kept(s.last()) && k == c.len() {
                assert(cleaned(s)[k] == s.last());
            } else {
                assert(cleaned(s)[k] == c[k]);
            }
        }
    }
}

proof fn lemma_squeezed_clean(s: Seq<char>, n: int)
    requires
        n <= s.len(),
        forall|k: int| 0 <= k < s.len() ==> kept(#[trigger] s[k]),
    ensures
        without_controls(squeezed(s, n).0),
    decreases n,
{
    if n > 0 {
        lemma_squeezed_clean(s, n - 1);
        let (out, gap) = squeezed(s, n - 1);
        let c = s[n - 1];
        if !spec_is_whitespace(c) {
            assert(kept(c));
            let spaced = if gap {
                out + seq![' ']
            } else {
                out
            };
            assert(spec_is_control(' ') == false);
            assert(without_controls(spaced)) by {
                assert forall|k: int| 0 <= k < spaced.len() implies !spec_is_control(#[trigger] spaced[k]) by {
                    if k < out.len() {
                        assert(spaced[k] == out[k]);
                    }
                }
            }
            assert forall|k: int| 0 <= k < spaced.push(c).len() implies !spec_is_control(
                #[trigger] spaced.push(c)[k],
            ) by {
                if k < spaced.len() {
                    assert(spaced.push(c)[k] == spaced[k]);
                }
            }
        }
    }
}

proof fn lemma_compact_clean(s: Seq<char>)
    ensures
        without_controls(compact_text(s)),
{
    let c = cleaned(s);
    lemma_cleaned_kept(s);
    lemma_squeezed_clean(c, c.len() as int);
    let q = squeezed(c, c.len() as int).0;
    if q.len() > 120 {
        assert(spec_is_control('…') == false);
        assert forall|k: int| 0 <= k < q.take(120).push('…').len() implies !spec_is_control(
            #[trigger] q.take(120).push('…')[k],
        ) by {
            if k < 120 {
                assert(q.take(120).push('…')[k] == q[k]);
            }
        }
    }
}

proof fn lemma_key_text_clean(v: Json, keys: Seq<Seq<char>>)
    ensures
        key_text(v, keys) matches Some(t) ==> without_controls(t),
    decreases keys.len(),
{
    if keys.len() > 0 {
        lemma_key_text_clean(v, keys.drop_first());
        match field(v, keys[0]) {
            Some(x) => match x {
                Json::Str(t) => lemma_compact_clean(t@),
                Json::Array(items) => lemma_compact_clean(joined(item_texts(items@), " "@)),
                _ => {},
            },
            None => {},
        }
    }
}

proof fn lemma_extract_clean(v: Json, depth: nat)
    ensures
        without_controls(extract(v, depth)),
    decreases 9 - depth, 1nat, 0nat,
{
    if depth <= 8 {
        match v {
            Json::Str(s) => match json_parse(s@) {
                Some(d) => lemma_extract_clean(d, depth + 1),
                None => match patch_path(text_lines(s@)) {
                    Some(p) => lemma_compact_clean(p),
                    None => lemma_compact_clean(first_nonblank(text_lines(s@))),
                },
            },
            _ => {
                lemma_key_text_clean(v, summary_keys());
                lemma_nested_clean(v, nested_keys(), depth);
            },
        }
    }
}

proof fn lemma_nested_clean(v: Json, keys: Seq<Seq<char>>, depth: nat)
    ensures
        without_controls(nested_text(v, keys, depth)),
    decreases 9 - depth, 0nat, keys.len(),
{
    if keys.len() > 0 && depth <= 8 {
        lemma_nested_clean(v, keys.drop_first(), depth);
        match field(v, keys[0]) {
            Some(x) => lemma_extract_clean(x, depth + 1),
            None => {},
        }
    }
}

/// Law: a tool summary is one line of text: it holds no control
/// characters (no line breaks, tabs or escapes), whatever the input.
pub proof fn lemma_summary_is_one_line(input: Json)
    ensures
        without_controls(extract(input, 0)),
{
    lemma_extract_clean(input, 0);
}

} // verus!
