//! Human-readable JSON fields, decoded strings, and indented list items.
use crate::json::{display_json, is_container, json_display, json_parse, parse_json, Json};
use crate::text::{chars_of, extend_chars, join, joined, split_lf, split_on_lf, string_of};
use vstd::prelude::*;

verus! {

/// `n` spaces.
pub open spec fn spaces(n: nat) -> Seq<char> {
    Seq::new(n, |i: int| ' ')
}

/// How `serde_json` prints a scalar value (`null`, `true`, `false`, a number).
pub open spec fn scalar(v: Json) -> Seq<char> {
    match v {
        Json::Null => "null"@,
        Json::Bool(b) => if b {
            "true"@
        } else {
            "false"@
        },
        Json::Number(n) => n.text@,
        _ => Seq::empty(),
    }
}

/// Whether `v` is printed on the same line as its field name.
pub open spec fn is_scalar(v: Json) -> bool {
    v is Null || v is Bool || v is Number
}

/// Remaining nesting budget for decoding JSON found inside strings.
pub open spec fn budget(depth: nat) -> nat {
    if depth < 16 {
        (16 - depth) as nat
    } else {
        0
    }
}

/// Nesting depth of a child: counts up to the decoding limit and stays there.
pub open spec fn step(depth: nat) -> nat {
    if depth < 16 {
        depth + 1
    } else {
        depth
    }
}

/// Indentation of a child: two more spaces (held at the machine limit).
pub open spec fn deeper(indent: nat) -> nat {
    if indent + 2 <= usize::MAX {
        indent + 2
    } else {
        indent
    }
}

/// The decoded JSON document inside a string, when it is an object or array.
pub open spec fn nested(s: Seq<char>) -> Option<Json> {
    match json_parse(s) {
        Some(d) => if is_container(d) {
            Some(d)
        } else {
            None
        },
        None => None,
    }
}

/// The lines that show `v` indented by `indent` spaces.
pub open spec fn visit_lines(v: Json, indent: nat, depth: nat) -> Seq<Seq<char>>
    decreases budget(depth), v, 0nat,
{
    let pad = spaces(indent);
    match v {
        Json::Object(fields) => if fields.len() == 0 {
            seq![pad + "(empty object)"@]
        } else {
            field_lines(fields@, fields@.len() as int, indent, depth)
        },
        Json::Array(items) => if items.len() == 0 {
            seq![pad + "(empty list)"@]
        } else {
            item_lines(items@, items@.len() as int, indent, depth)
        },
        Json::Str(s) => if depth < 16 && nested(s@) is Some {
            visit_lines(nested(s@).unwrap(), indent, depth + 1)
        } else {
            split_lf(s@).map_values(|l: Seq<char>| pad + l)
        },
        _ => seq![pad + scalar(v)],
    }
}

/// The lines of the first `k` fields of an object.
pub open spec fn field_lines(fields: Seq<(String, Json)>, k: int, indent: nat, depth: nat) -> Seq<
    Seq<char>,
>
    decreases budget(depth), fields, k,
{
    if k <= 0 || k > fields.len() {
        Seq::empty()
    } else {
        let (key, value) = fields[k - 1];
        let before = field_lines(fields, k - 1, indent, depth);
        if is_scalar(value) {
            before.push(spaces(indent) + key@ + ": "@ + scalar(value))
        } else {
            before.push(spaces(indent) + key@ + ":"@) + visit_lines(value, deeper(indent), step(depth))
        }
    }
}

/// The lines of the first `k` items of a list.
pub open spec fn item_lines(items: Seq<Json>, k: int, indent: nat, depth: nat) -> Seq<Seq<char>>
    decreases budget(depth), items, k,
{
    if k <= 0 || k > items.len() {
        Seq::empty()
    } else {
        item_lines(items, k - 1, indent, depth).push(
            spaces(indent) + "• Item "@ + decimal(k),
        ) + visit_lines(items[k - 1], deeper(indent), step(depth))
    }
}

/// The decimal digits of `n`.
pub open spec fn digits(n: nat) -> Seq<char>
    decreases n,
{
    if n < 10 {
        seq![digit(n)]
    } else {
        digits(n / 10).push(digit(n % 10))
    }
}

/// The character of a decimal digit.
pub open spec fn digit(d: nat) -> char {
    if d == 0 {
        '0'
    } else if d == 1 {
        '1'
    } else if d == 2 {
        '2'
    } else if d == 3 {
        '3'
    } else if d == 4 {
        '4'
    } else if d == 5 {
        '5'
    } else if d == 6 {
        '6'
    } else if d == 7 {
        '7'
    } else if d == 8 {
        '8'
    } else if d == 9 {
        '9'
    } else {
        '0'
    }
}

/// How an integer is printed in decimal.
pub open spec fn decimal(n: int) -> Seq<char> {
    if n < 0 {
        seq!['-'] + digits((0 - n) as nat)
    } else {
        digits(n as nat)
    }
}

/// The text that shows a JSON value (`render`).
pub open spec fn rendered(v: Json) -> Seq<char> {
    joined(visit_lines(v, 0, 0), "\n"@)
}

/// Decimal digits of `n`.
pub fn digits_of(n: u64) -> (r: Vec<char>)
    ensures
        r@ == digits(n as nat),
    decreases n,
{
    let d = n % 10;
    let c = if d == 0 {
        '0'
    } else if d == 1 {
        '1'
    } else if d == 2 {
        '2'
    } else if d == 3 {
        '3'
    } else if d == 4 {
        '4'
    } else if d == 5 {
        '5'
    } else if d == 6 {
        '6'
    } else if d == 7 {
        '7'
    } else if d == 8 {
        '8'
    } else {
        '9'
    };
    if n < 10 {
        vec![c]
    } else {
        let mut r = digits_of(n / 10);
        r.push(c);
        r
    }
}

/// Decimal digits of `n + 1`.
pub fn digits_of_next(n: u64) -> (r: Vec<char>)
    ensures
        r@ == digits(n as nat + 1),
{
    if n < u64::MAX {
        digits_of(n + 1)
    } else {
        let mut r = digits_of(1844674407370955161u64);
        r.push('6');
        assert(digit(6) == '6');
        r
    }
}

/// An integer printed in decimal.
pub fn decimal_of(n: i64) -> (r: Vec<char>)
    ensures
        r@ == decimal(n as int),
{
    if n < 0 {
        let m: u64 = if n == i64::MIN {
            9223372036854775808u64
        } else {
            (0 - n) as u64
        };
        let mut r = vec!['-'];
        let d = digits_of(m);
        extend_chars(&mut r, d.as_slice());
        r
    } else {
        digits_of(n as u64)
    }
}

} // verus!

verus! {

/// The views of a list of lines.
pub open spec fn line_views(v: Seq<Vec<char>>) -> Seq<Seq<char>> {
    v.map_values(|l: Vec<char>| l@)
}

/// `n` spaces.
fn pad_of(n: usize) -> (r: Vec<char>)
    ensures
        r@ == spaces(n as nat),
{
    let mut out: Vec<char> = Vec::new();
    let mut i: usize = 0;
    while i < n
        invariant
            i <= n,
            out@ =~= spaces(i as nat),
        decreases n - i,
    {
        out.push(' ');
        i = i + 1;
    }
    out
}

/// `a` followed by `b`.
fn concat(a: &[char], b: &[char]) -> (r: Vec<char>)
    ensures
        r@ == a@ + b@,
{
    let mut out: Vec<char> = Vec::new();
    extend_chars(&mut out, a);
    extend_chars(&mut out, b);
    out
}

/// Appends all lines of `more` to `out`.
fn append_lines(out: &mut Vec<Vec<char>>, more: Vec<Vec<char>>)
    ensures
        line_views(final(out)@) == line_views(old(out)@) + line_views(more@),
{
    let mut m = more;
    let ghost mv = line_views(m@);
    let ghost start = line_views(out@);
    out.append(&mut m);
    assert(line_views(out@) =~= start + mv);
}

/// How a scalar value is printed.
fn scalar_of(v: &Json) -> (r: Vec<char>)
    ensures
        r@ == scalar(*v),
{
    match v {
        Json::Null => chars_of("null"),
        Json::Bool(b) => if *b {
            chars_of("true")
        } else {
            chars_of("false")
        },
        Json::Number(n) => chars_of(n.text.as_str()),
        _ => Vec::new(),
    }
}

/// The decoded JSON inside `s` when it is an object or array.
fn nested_of(s: &str) -> (r: Option<Json>)
    ensures
        r == nested(s@),
{
    match parse_json(s) {
        Some(d) => match d {
            Json::Object(_) | Json::Array(_) => Some(d),
            _ => None,
        },
        None => None,
    }
}

/// The lines that show `v`.
fn visit(v: &Json, indent: usize, depth: usize) -> (r: Vec<Vec<char>>)
    requires
        depth <= 16,
    ensures
        line_views(r@) == visit_lines(*v, indent as nat, depth as nat),
    decreases budget(depth as nat), *v, 0nat,
{
    let pad = pad_of(indent);
    match v {
        Json::Object(fields) => {
            if fields.len() == 0 {
                let l = concat(pad.as_slice(), chars_of("(empty object)").as_slice());
                let r = vec![l];
                assert(line_views(r@) =~= seq![spaces(indent as nat) + "(empty object)"@]);
                r
            } else {
                visit_fields(fields, indent, depth)
            }
        },
        Json::Array(items) => {
            if items.len() == 0 {
                let l = concat(pad.as_slice(), chars_of("(empty list)").as_slice());
                let r = vec![l];
                assert(line_views(r@) =~= seq![spaces(indent as nat) + "(empty list)"@]);
                r
            } else {
                visit_items(items, indent, depth)
            }
        },
        Json::Str(s) => {
            if depth < 16 {
                match nested_of(s.as_str()) {
                    Some(d) => {
                        return visit(&d, indent, depth + 1);
                    },
                    None => {},
                }
            }
            let parts = split_on_lf(chars_of(s.as_str()).as_slice());
            let ghost pv = line_views(parts@);
            let mut out: Vec<Vec<char>> = Vec::new();
            let mut i: usize = 0;
            while i < parts.len()
                invariant
                    i <= parts.len(),
                    pv == line_views(parts@),
                    pv == split_lf(s@),
                    pad@ == spaces(indent as nat),
                    line_views(out@) == pv.take(i as int).map_values(
                        |l: Seq<char>| spaces(indent as nat) + l,
                    ),
                decreases parts.len() - i,
            {
                let l = concat(pad.as_slice(), parts[i].as_slice());
                let ghost before = line_views(out@);
                out.push(l);
                assert(line_views(out@) =~= before.push(l@));
                assert(pv.take(i + 1).map_values(|l: Seq<char>| spaces(indent as nat) + l)
                    =~= pv.take(i as int).map_values(|l: Seq<char>| spaces(indent as nat) + l).push(
                    spaces(indent as nat) + pv[i as int],
                ));
                i = i + 1;
            }
            assert(pv.take(parts.len() as int) =~= pv);
            out
        },
        _ => {
            let l = concat(pad.as_slice(), scalar_of(v).as_slice());
            let r = vec![l];
            assert(line_views(r@) =~= seq![spaces(indent as nat) + scalar(*v)]);
            r
        },
    }
}

/// The lines of an object's fields.
fn visit_fields(fields: &Vec<(String, Json)>, indent: usize, depth: usize) -> (r: Vec<Vec<char>>)
    requires
        depth <= 16,
    ensures
        line_views(r@) == field_lines(fields@, fields@.len() as int, indent as nat, depth as nat),
    decreases budget(depth as nat), fields@, fields@.len() + 1,
{
    let pad = pad_of(indent);
    let child_indent = if indent <= usize::MAX - 2 {
        indent + 2
    } else {
        indent
    };
    let child_depth = if depth < 16 {
        depth + 1
    } else {
        depth
    };
    let mut out: Vec<Vec<char>> = Vec::new();
    let mut k: usize = 0;
    while k < fields.len()
        invariant
            k <= fields.len(),
            depth <= 16,
            pad@ == spaces(indent as nat),
            child_indent as nat == deeper(indent as nat),
            child_depth as nat == step(depth as nat),
            line_views(out@) == field_lines(fields@, k as int, indent as nat, depth as nat),
        decreases fields.len() - k,
    {
        let key = &fields[k].0;
        let value = &fields[k].1;
        let head = concat(pad.as_slice(), chars_of(key.as_str()).as_slice());
        let ghost before = line_views(out@);
        match value {
            Json::Null | Json::Bool(_) | Json::Number(_) => {
                let l = concat(concat(head.as_slice(), chars_of(": ").as_slice()).as_slice(), scalar_of(value).as_slice());
                out.push(l);
                assert(line_views(out@) =~= before.push(l@));
            },
            _ => {
                let l = concat(head.as_slice(), chars_of(":").as_slice());
                out.push(l);
                assert(line_views(out@) =~= before.push(l@));
                let inner = visit(value, child_indent, child_depth);
                append_lines(&mut out, inner);
            },
        }
        k = k + 1;
    }
    out
}

/// The lines of a list's items.
fn visit_items(items: &Vec<Json>, indent: usize, depth: usize) -> (r: Vec<Vec<char>>)
    requires
        depth <= 16,
    ensures
        line_views(r@) == item_lines(items@, items@.len() as int, indent as nat, depth as nat),
    decreases budget(depth as nat), items@, items@.len() + 1,
{
    let pad = pad_of(indent);
    let child_indent = if indent <= usize::MAX - 2 {
        indent + 2
    } else {
        indent
    };
    let child_depth = if depth < 16 {
        depth + 1
    } else {
        depth
    };
    let mut out: Vec<Vec<char>> = Vec::new();
    let mut k: usize = 0;
    while k < items.len()
        invariant
            k <= items.len(),
            depth <= 16,
            pad@ == spaces(indent as nat),
            child_indent as nat == deeper(indent as nat),
            child_depth as nat == step(depth as nat),
            line_views(out@) == item_lines(items@, k as int, indent as nat, depth as nat),
        decreases items.len() - k,
    {
        let number = digits_of((k + 1) as u64);
        let l = concat(concat(pad.as_slice(), chars_of("• Item ").as_slice()).as_slice(), number.as_slice());
        let ghost before = line_views(out@);
        out.push(l);
        assert(line_views(out@) =~= before.push(l@));
        let inner = visit(&items[k], child_indent, child_depth);
        append_lines(&mut out, inner);
        k = k + 1;
    }
    out
}

/// Shows a JSON value as indented lines: fields as `key: value` or `key:`
/// followed by the indented value, list items as `• Item n`, strings line by
/// line, and JSON documents found inside strings decoded.
pub fn render(value: &Json) -> (r: String)
    ensures
        r@ == rendered(*value),
{
    let lines = visit(value, 0, 0);
    let text = join(&lines, chars_of("\n").as_slice());
    string_of(text.as_slice())
}

/// What `typeset` shows for a text.
pub open spec fn typeset_text(text: Seq<char>) -> Seq<char> {
    match json_parse(text) {
        Some(v) => if is_container(v) {
            rendered(v)
        } else {
            text
        },
        None => text,
    }
}

/// Shows text that holds a JSON object or array as indented fields; any
/// other text is kept as it is.
pub fn typeset(text: &str) -> (r: String)
    ensures
        r@ == typeset_text(text@),
{
    match parse_json(text) {
        Some(v) => match v {
            Json::Object(_) | Json::Array(_) => render(&v),
            _ => text.to_owned(),
        },
        None => text.to_owned(),
    }
}

} // verus!

verus! {

/// `v` when it is a string.
pub open spec fn as_text(v: Option<Json>) -> Option<Seq<char>> {
    crate::json::text_of(v)
}

/// A field lookup that treats the keys in `removed` as absent.
pub open spec fn lookup_except(fields: Seq<(String, Json)>, removed: Seq<Seq<char>>, key: Seq<
    char,
>) -> Option<Json> {
    if removed.contains(key) {
        None
    } else {
        crate::json::lookup(fields, key)
    }
}

/// The fields whose keys are not in `removed`, in order.
pub open spec fn without_keys(fields: Seq<(String, Json)>, removed: Seq<Seq<char>>) -> Seq<
    (String, Json),
>
    decreases fields.len(),
{
    if fields.len() == 0 {
        fields
    } else {
        let rest = without_keys(fields.drop_last(), removed);
        if removed.contains(fields.last().0@) {
            rest
        } else {
            rest.push(fields.last())
        }
    }
}

/// Progress while picking output fields out of a tool result.
pub ghost struct Sections {
    pub parts: Seq<Seq<char>>,
    pub removed: Seq<Seq<char>>,
    pub found: bool,
}

/// `text` without surrounding whitespace is empty.
pub open spec fn blank(text: Seq<char>) -> bool {
    crate::text::trimmed(text).len() == 0
}

/// Moves the field `key` (if still present) into a section headed `label`;
/// with `skip_blank`, a blank string value is dropped silently.
pub open spec fn output_step(
    fields: Seq<(String, Json)>,
    st: Sections,
    key: Seq<char>,
    label: Seq<char>,
    skip_blank: bool,
    cd: nat,
) -> Sections
    decreases 17 - cd, 1nat,
{
    if cd > 17 {
        st
    } else {
        match lookup_except(fields, st.removed, key) {
            Some(body) => {
                let removed = st.removed.push(key);
                if skip_blank && as_text(Some(body)) is Some && blank(as_text(Some(body)).unwrap()) {
                    Sections { parts: st.parts, removed: removed, found: true }
                } else {
                    Sections {
                        parts: st.parts.push(label + "\n"@ + result_text(body, cd)),
                        removed: removed,
                        found: true,
                    }
                }
            },
            None => st,
        }
    }
}

/// The results shown for the first `k` parts of a list.
pub open spec fn part_texts(items: Seq<Json>, k: int, cd: nat) -> Seq<Seq<char>>
    decreases 17 - cd, k + 1,
{
    if cd > 17 || k <= 0 || k > items.len() {
        Seq::empty()
    } else {
        part_texts(items, k - 1, cd).push(result_text(items[k - 1], cd))
    }
}

/// A textual tool result: shell envelopes show their output before their
/// header; blank text shows as `(no output)`.
pub open spec fn plain_result(s: Seq<char>) -> Seq<char> {
    let fallback = if blank(s) {
        "(no output)"@
    } else {
        s
    };
    match crate::text::split_once_seq(s, "Final output:\n"@) {
        Some((header, output)) => if crate::text::starts_with_seq(header, "Chunk ID:"@)
            || crate::text::starts_with_seq(header, "Wall time:"@) {
            "OUTPUT\n"@ + (if blank(output) {
                "(no output)"@
            } else {
                output
            }) + "\n\nDETAILS\n"@ + crate::text::trimmed(header)
        } else {
            fallback
        },
        None => fallback,
    }
}

/// The status line of an explicit exit code.
pub open spec fn exit_line(c: Json) -> Seq<char> {
    (if crate::json::int_of(Some(c)) == Some(0i64) {
        "COMPLETED"@
    } else {
        "FAILED"@
    }) + " · exit "@ + json_display(c)
}

/// The first section of an object result: its exit status, if recorded.
pub open spec fn status_sections(fields: Seq<(String, Json)>) -> Seq<Seq<char>> {
    let err = crate::json::bool_of(crate::json::lookup(fields, "isError"@));
    match crate::json::lookup(fields, "exit_code"@) {
        Some(c) => if !(c is Null) {
            seq![exit_line(c)]
        } else if err == Some(true) {
            seq!["FAILED"@]
        } else {
            Seq::empty()
        },
        None => if err == Some(true) {
            seq!["FAILED"@]
        } else {
            Seq::empty()
        },
    }
}

/// Keys that are never shown among an object result's details.
pub open spec fn metadata_keys(fields: Seq<(String, Json)>) -> Seq<Seq<char>> {
    if crate::json::bool_of(crate::json::lookup(fields, "isError"@)) is Some {
        seq!["exit_code"@, "isError"@]
    } else {
        seq!["exit_code"@]
    }
}

/// The sections after picking the output fields of an object result.
pub open spec fn picked(fields: Seq<(String, Json)>, cd: nat) -> Sections
    decreases 17 - cd, 2nat,
{
    let s0 = Sections { parts: status_sections(fields), removed: metadata_keys(fields), found: false };
    if cd > 17 {
        s0
    } else {
    let s1 = output_step(fields, s0, "stdout"@, "OUTPUT"@, false, cd);
    let s2 = output_step(fields, s1, "output"@, "OUTPUT"@, false, cd);
    let s3 = output_step(fields, s2, "stderr"@, "ERROR OUTPUT"@, true, cd);
    let s4 = output_step(fields, s3, "content"@, "OUTPUT"@, false, cd);
    output_step(fields, s4, "text"@, "OUTPUT"@, false, cd)
    }
}

/// The text shown for a tool result: the output first, then metadata.
pub open spec fn result_text(v: Json, depth: nat) -> Seq<char>
    decreases 17 - depth, 0nat,
{
    if depth > 16 {
        rendered(v)
    } else {
        match v {
            Json::Str(s) => match nested(s@) {
                Some(d) => result_text(d, depth + 1),
                None => plain_result(s@),
            },
            Json::Array(items) => joined(part_texts(items@, items@.len() as int, depth + 1), "\n\n"@),
            Json::Object(fields) => {
                let st = picked(fields@, depth + 1);
                if !st.found {
                    rendered(v)
                } else {
                    let removed = if as_text(lookup_except(fields@, st.removed, "type"@)) == Some(
                        "text"@,
                    ) {
                        st.removed.push("type"@)
                    } else {
                        st.removed
                    };
                    let rest = without_keys(fields@, removed);
                    let parts = if rest.len() > 0 {
                        st.parts.push(
                            "DETAILS\n"@ + joined(field_lines(rest, rest.len() as int, 0, 0), "\n"@),
                        )
                    } else {
                        st.parts
                    };
                    crate::text::replaced(joined(parts, "\n\n"@), "OUTPUT\nOUTPUT\n"@, "OUTPUT\n"@)
                }
            },
            _ => rendered(v),
        }
    }
}

} // verus!

verus! {

proof fn lemma_field_lines_len(s: Seq<(String, Json)>, k: int, indent: nat, depth: nat)
    requires
        0 <= k <= s.len(),
    ensures
        field_lines(s, k, indent, depth).len() >= k,
    decreases k,
{
    if k > 0 {
        lemma_field_lines_len(s, k - 1, indent, depth);
    }
}

proof fn lemma_field_lines_prefix(
    s: Seq<(String, Json)>,
    t: Seq<(String, Json)>,
    k: int,
    indent: nat,
    depth: nat,
)
    requires
        0 <= k <= s.len(),
        k <= t.len(),
        s.take(k) == t.take(k),
    ensures
        field_lines(s, k, indent, depth) == field_lines(t, k, indent, depth),
    decreases k,
{
    if k > 0 {
        assert(s.take(k - 1) =~= s.take(k).take(k - 1));
        assert(t.take(k - 1) =~= t.take(k).take(k - 1));
        assert(s[k - 1] == s.take(k)[k - 1]);
        assert(t[k - 1] == t.take(k)[k - 1]);
        lemma_field_lines_prefix(s, t, k - 1, indent, depth);
    }
}

/// Whether two character sequences are equal.
pub fn same_chars(a: &[char], b: &[char]) -> (r: bool)
    ensures
        r == (a@ == b@),
{
    if a.len() != b.len() {
        return false;
    }
    let mut i: usize = 0;
    while i < a.len()
        invariant
            i <= a.len(),
            a.len() == b.len(),
            forall|k: int| 0 <= k < i ==> a@[k] == b@[k],
        decreases a.len() - i,
    {
        if a[i] != b[i] {
            return false;
        }
        i = i + 1;
    }
    assert(a@ =~= b@);
    true
}

/// Whether `key` is among `keys`.
fn has_key(keys: &Vec<Vec<char>>, key: &[char]) -> (r: bool)
    ensures
        r == line_views(keys@).contains(key@),
{
    let mut i: usize = 0;
    while i < keys.len()
        invariant
            i <= keys.len(),
            forall|k: int| 0 <= k < i ==> line_views(keys@)[k] != key@,
        decreases keys.len() - i,
    {
        if same_chars(keys[i].as_slice(), key) {
            assert(line_views(keys@)[i as int] == key@);
            return true;
        }
        i = i + 1;
    }
    false
}

/// Looks `key` up, treating the keys in `removed` as absent.
fn get_except<'a>(fields: &'a Vec<(String, Json)>, removed: &Vec<Vec<char>>, key: &str) -> (r:
    Option<&'a Json>)
    ensures
        crate::json::deref_opt(r) == lookup_except(fields@, line_views(removed@), key@),
{
    if has_key(removed, chars_of(key).as_slice()) {
        None
    } else {
        crate::json::lookup_field(fields, key)
    }
}

/// The lines of the fields whose keys are not in `removed`.
fn visit_fields_except(fields: &Vec<(String, Json)>, removed: &Vec<Vec<char>>) -> (r: Vec<
    Vec<char>,
>)
    ensures
        line_views(r@) == field_lines(
            without_keys(fields@, line_views(removed@)),
            without_keys(fields@, line_views(removed@)).len() as int,
            0,
            0,
        ),
{
    let ghost rk = line_views(removed@);
    let mut out: Vec<Vec<char>> = Vec::new();
    let mut k: usize = 0;
    while k < fields.len()
        invariant
            k <= fields.len(),
            rk == line_views(removed@),
            line_views(out@) == field_lines(
                without_keys(fields@.take(k as int), rk),
                without_keys(fields@.take(k as int), rk).len() as int,
                0,
                0,
            ),
        decreases fields.len() - k,
    {
        let ghost w = without_keys(fields@.take(k as int), rk);
        assert(fields@.take(k + 1).drop_last() =~= fields@.take(k as int));
        assert(fields@.take(k + 1).last() == fields@[k as int]);
        let key = &fields[k].0;
        let value = &fields[k].1;
        if !has_key(removed, chars_of(key.as_str()).as_slice()) {
            let ghost w2 = w.push(fields@[k as int]);
            proof {
                assert(w2.take(w.len() as int) =~= w.take(w.len() as int));
                lemma_field_lines_prefix(w2, w, w.len() as int, 0, 0);
            }
            let head = chars_of(key.as_str());
            let ghost before = line_views(out@);
            match value {
                Json::Null | Json::Bool(_) | Json::Number(_) => {
                    let l = concat(concat(head.as_slice(), chars_of(": ").as_slice()).as_slice(), scalar_of(value).as_slice());
                    out.push(l);
                    assert(spaces(0) =~= Seq::<char>::empty());
                    assert(line_views(out@) =~= before.push(l@));
                },
                _ => {
                    let l = concat(head.as_slice(), chars_of(":").as_slice());
                    out.push(l);
                    assert(spaces(0) =~= Seq::<char>::empty());
                    assert(line_views(out@) =~= before.push(l@));
                    let inner = visit(value, 2, 1);
                    append_lines(&mut out, inner);
                },
            }
        }
        k = k + 1;
    }
    assert(fields@.take(fields.len() as int) =~= fields@);
    out
}

/// The shown text of a string result.
fn plain_result_of(s: &str) -> (r: Vec<char>)
    ensures
        r@ == plain_result(s@),
{
    let cs = chars_of(s);
    let fallback = if crate::text::is_blank(cs.as_slice()) {
        chars_of("(no output)")
    } else {
        crate::text::slice_of(cs.as_slice(), 0, cs.len())
    };
    match crate::text::split_once(cs.as_slice(), chars_of("Final output:\n").as_slice()) {
        Some((header, output)) => {
            if crate::text::starts_with(header.as_slice(), chars_of("Chunk ID:").as_slice())
                || crate::text::starts_with(header.as_slice(), chars_of("Wall time:").as_slice()) {
                let mut out = chars_of("OUTPUT\n");
                if crate::text::is_blank(output.as_slice()) {
                    extend_chars(&mut out, chars_of("(no output)").as_slice());
                } else {
                    extend_chars(&mut out, output.as_slice());
                }
                extend_chars(&mut out, chars_of("\n\nDETAILS\n").as_slice());
                extend_chars(&mut out, crate::text::trim(header.as_slice()).as_slice());
                out
            } else {
                fallback
            }
        },
        None => fallback,
    }
}

/// Moves the field `key` into a section headed `label` (see `output_step`).
fn take_output(
    fields: &Vec<(String, Json)>,
    parts: &mut Vec<Vec<char>>,
    removed: &mut Vec<Vec<char>>,
    found: &mut bool,
    key: &str,
    label: &str,
    skip_blank: bool,
    cd: usize,
)
    requires
        cd <= 17,
    ensures
        (Sections {
            parts: line_views(final(parts)@),
            removed: line_views(final(removed)@),
            found: *final(found),
        }) == output_step(
            fields@,
            Sections {
                parts: line_views(old(parts)@),
                removed: line_views(old(removed)@),
                found: *old(found),
            },
            key@,
            label@,
            skip_blank,
            cd as nat,
        ),
    decreases 17 - cd, 1nat,
{
    match get_except(fields, removed, key) {
        Some(body) => {
            let ghost rb = line_views(removed@);
            removed.push(chars_of(key));
            assert(line_views(removed@) =~= rb.push(key@));
            *found = true;
            let blank_text = match body {
                Json::Str(t) => crate::text::is_blank(chars_of(t.as_str()).as_slice()),
                _ => false,
            };
            if skip_blank && blank_text {
            } else {
                let mut section = chars_of(label);
                extend_chars(&mut section, chars_of("\n").as_slice());
                let inner = result_inner(body, cd);
                extend_chars(&mut section, inner.as_slice());
                let ghost pb = line_views(parts@);
                parts.push(section);
                assert(line_views(parts@) =~= pb.push(label@ + "\n"@ + result_text(*body, cd as nat)));
            }
        },
        None => {},
    }
}

/// The text shown for a tool result at nesting `depth`.
#[verifier::spinoff_prover]
#[verifier::rlimit(40)]
fn result_inner(value: &Json, depth: usize) -> (r: Vec<char>)
    requires
        depth <= 17,
    ensures
        r@ == result_text(*value, depth as nat),
    decreases 17 - depth, 0nat,
{
    if depth > 16 {
        return chars_of(render(value).as_str());
    }
    match value {
        Json::Str(s) => match nested_of(s.as_str()) {
            Some(d) => result_inner(&d, depth + 1),
            None => plain_result_of(s.as_str()),
        },
        Json::Array(items) => {
            let mut parts: Vec<Vec<char>> = Vec::new();
            let mut k: usize = 0;
            while k < items.len()
                invariant
                    k <= items.len(),
                    depth <= 16,
                    line_views(parts@) == part_texts(items@, k as int, (depth + 1) as nat),
                decreases items.len() - k,
            {
                let t = result_inner(&items[k], depth + 1);
                let ghost pb = line_views(parts@);
                parts.push(t);
                assert(line_views(parts@) =~= pb.push(t@));
                k = k + 1;
            }
            let r = join(&parts, chars_of("\n\n").as_slice());
            assert(r@ == result_text(*value, depth as nat));
            r
        },
        Json::Object(fields) => {
            let mut parts: Vec<Vec<char>> = Vec::new();
            let mut removed: Vec<Vec<char>> = Vec::new();
            let err = match crate::json::lookup_field(fields, "isError") {
                Some(Json::Bool(b)) => Some(*b),
                _ => None,
            };
            match crate::json::lookup_field(fields, "exit_code") {
                Some(c) => {
                    match c {
                        Json::Null => {
                            if err == Some(true) {
                                parts.push(chars_of("FAILED"));
                            }
                        },
                        _ => {
                            let zero = match c {
                                Json::Number(n) => n.int == Some(0i64),
                                _ => false,
                            };
                            let mut line = if zero {
                                chars_of("COMPLETED")
                            } else {
                                chars_of("FAILED")
                            };
                            extend_chars(&mut line, chars_of(" · exit ").as_slice());
                            extend_chars(&mut line, chars_of(display_json(c).as_str()).as_slice());
                            parts.push(line);
                        },
                    }
                },
                None => {
                    if err == Some(true) {
                        parts.push(chars_of("FAILED"));
                    }
                },
            }
            removed.push(chars_of("exit_code"));
            if err.is_some() {
                removed.push(chars_of("isError"));
            }
            let ghost f = fields@;
            assert(line_views(parts@) =~= status_sections(f));
            assert(line_views(removed@) =~= metadata_keys(f));
            let mut found = false;
            let cd = depth + 1;
            let ghost s0 = Sections { parts: status_sections(f), removed: metadata_keys(f), found: false };
            take_output(fields, &mut parts, &mut removed, &mut found, "stdout", "OUTPUT", false, cd);
            let ghost s1 = Sections { parts: line_views(parts@), removed: line_views(removed@), found: found };
            assert(s1 == output_step(f, s0, "stdout"@, "OUTPUT"@, false, cd as nat));
            take_output(fields, &mut parts, &mut removed, &mut found, "output", "OUTPUT", false, cd);
            let ghost s2 = Sections { parts: line_views(parts@), removed: line_views(removed@), found: found };
            assert(s2 == output_step(f, s1, "output"@, "OUTPUT"@, false, cd as nat));
            take_output(fields, &mut parts, &mut removed, &mut found, "stderr", "ERROR OUTPUT", true, cd);
            let ghost s3 = Sections { parts: line_views(parts@), removed: line_views(removed@), found: found };
            assert(s3 == output_step(f, s2, "stderr"@, "ERROR OUTPUT"@, true, cd as nat));
            take_output(fields, &mut parts, &mut removed, &mut found, "content", "OUTPUT", false, cd);
            let ghost s4 = Sections { parts: line_views(parts@), removed: line_views(removed@), found: found };
            assert(s4 == output_step(f, s3, "content"@, "OUTPUT"@, false, cd as nat));
            take_output(fields, &mut parts, &mut removed, &mut found, "text", "OUTPUT", false, cd);
            let ghost s5 = Sections { parts: line_views(parts@), removed: line_views(removed@), found: found };
            assert(s5 == output_step(f, s4, "text"@, "OUTPUT"@, false, cd as nat));
            assert(s5 == picked(f, cd as nat));
            if !found {
                return chars_of(render(value).as_str());
            }
            let is_text_type = match get_except(fields, &removed, "type") {
                Some(Json::Str(t)) => same_chars(chars_of(t.as_str()).as_slice(), chars_of("text").as_slice()),
                _ => false,
            };
            if is_text_type {
                removed.push(chars_of("type"));
            }
            let details = visit_fields_except(fields, &removed);
            let ghost rest = without_keys(f, line_views(removed@));
            proof {
                lemma_field_lines_len(rest, rest.len() as int, 0, 0);
                assert(rest.len() == 0 ==> field_lines(rest, 0, 0, 0) =~= Seq::<Seq<char>>::empty());
            }
            if details.len() > 0 {
                let mut section = chars_of("DETAILS\n");
                extend_chars(&mut section, join(&details, chars_of("\n").as_slice()).as_slice());
                let ghost pb = line_views(parts@);
                parts.push(section);
                assert(line_views(parts@) =~= pb.push(section@));
            }
            let ghost removed_spec = if as_text(lookup_except(f, s5.removed, "type"@)) == Some("text"@) {
                s5.removed.push("type"@)
            } else {
                s5.removed
            };
            assert(line_views(removed@) =~= removed_spec);
            let ghost parts_spec = if rest.len() > 0 {
                s5.parts.push("DETAILS\n"@ + joined(field_lines(rest, rest.len() as int, 0, 0), "\n"@))
            } else {
                s5.parts
            };
            assert(line_views(parts@) =~= parts_spec);
            let all = join(&parts, chars_of("\n\n").as_slice());
            let r = crate::text::replace_all(
                all.as_slice(),
                chars_of("OUTPUT\nOUTPUT\n").as_slice(),
                chars_of("OUTPUT\n").as_slice(),
            );
            assert(r@ == result_text(*value, depth as nat));
            r
        },
        _ => chars_of(render(value).as_str()),
    }
}

/// The text shown for a tool result: explicit status first, then output and
/// error output (unwrapping content blocks and JSON inside strings), then any
/// remaining metadata under `DETAILS`.
pub fn result(value: &Json) -> (r: String)
    ensures
        r@ == result_text(*value, 0),
{
    string_of(result_inner(value, 0).as_slice())
}

} // verus!

verus! {

/// How an exit code is reported.
pub open spec fn exit_status(code: i64) -> Seq<char> {
    if code == 0 {
        "Completed"@
    } else {
        "Failed · exit "@ + decimal(code as int)
    }
}

/// The exit code of the first line `Process exited with code N`.
pub open spec fn code_in(lines: Seq<Seq<char>>) -> Option<i64>
    decreases lines.len(),
{
    if lines.len() == 0 {
        None
    } else {
        let l = lines[0];
        let p = "Process exited with code "@;
        let found = if crate::text::starts_with_seq(l, p) {
            crate::text::parse_int(crate::text::trimmed(l.subrange(p.len() as int, l.len() as int)))
        } else {
            None
        };
        match found {
            Some(c) => Some(c),
            None => code_in(lines.drop_first()),
        }
    }
}

/// The first words of the lines `Wall time: X ...`, in order: the duration
/// is the first of them that reads as a number.
pub open spec fn durations_in(lines: Seq<Seq<char>>) -> Seq<Seq<char>>
    decreases lines.len(),
{
    if lines.len() == 0 {
        Seq::empty()
    } else {
        let l = lines[0];
        let p = "Wall time: "@;
        let rest = durations_in(lines.drop_first());
        if crate::text::starts_with_seq(l, p) {
            match crate::text::first_word(l.subrange(p.len() as int, l.len() as int)) {
                Some(w) => seq![w] + rest,
                None => rest,
            }
        } else {
            rest
        }
    }
}

/// Status and duration candidates recorded in a shell envelope's header.
pub open spec fn envelope(s: Seq<char>) -> Option<(Option<Seq<char>>, Seq<Seq<char>>)> {
    match crate::text::split_once_seq(s, "Final output:\n"@) {
        Some((header, _)) => if crate::text::starts_with_seq(header, "Chunk ID:"@)
            || crate::text::starts_with_seq(header, "Wall time:"@) {
            let lines = crate::text::text_lines(header);
            Some(
                (
                    match code_in(lines) {
                        Some(c) => Some(exit_status(c)),
                        None => None,
                    },
                    durations_in(lines),
                ),
            )
        } else {
            None
        },
        None => None,
    }
}

/// Status from explicit error metadata or an exit code.
pub open spec fn value_status(v: Json) -> Option<Seq<char>> {
    if crate::json::bool_of(crate::json::field(v, "isError"@)) == Some(true) {
        Some("Failed"@)
    } else {
        match crate::json::int_of(crate::json::field(v, "exit_code"@)) {
            Some(c) => Some(exit_status(c)),
            None => None,
        }
    }
}

/// The number text of a numeric field.
pub open spec fn number_text(v: Option<Json>) -> Option<Seq<char>> {
    match v {
        Some(Json::Number(n)) => Some(n.text@),
        _ => None,
    }
}

/// Duration recorded as `wall_time_seconds`, else as `wall_time`.
pub open spec fn value_durations(v: Json) -> Seq<Seq<char>> {
    match number_text(crate::json::field(v, "wall_time_seconds"@)) {
        Some(t) => seq![t],
        None => match number_text(crate::json::field(v, "wall_time"@)) {
            Some(t) => seq![t],
            None => Seq::empty(),
        },
    }
}

/// Status and duration candidates of a tool result (strings holding JSON are decoded).
pub open spec fn inspect(v: Json, depth: nat) -> (Option<Seq<char>>, Seq<Seq<char>>)
    decreases 17 - depth,
{
    if depth > 16 {
        (None, Seq::empty())
    } else {
        let inner = match v {
            Json::Str(s) => match json_parse(s@) {
                Some(d) => Some(inspect(d, depth + 1)),
                None => envelope(s@),
            },
            _ => None,
        };
        match inner {
            Some(r) => r,
            None => (value_status(v), value_durations(v)),
        }
    }
}

/// What a tool result records about its outcome: an explicit status, and the
/// texts that may hold its duration in seconds (the first one that reads as
/// a number is the duration).
pub struct Summary {
    pub status: Option<String>,
    pub durations: Vec<String>,
}

/// The status and duration candidates of a summary.
pub open spec fn summary_view(s: Summary) -> (Option<Seq<char>>, Seq<Seq<char>>) {
    (crate::history::opt_text(s.status), crate::history::strings(s.durations@))
}

/// The one-line summary: the status (or `Result received`) and, when a
/// duration is shown, ` · {duration}s`.
pub open spec fn summary_line_text(status: Option<Seq<char>>, duration: Option<Seq<char>>) -> Seq<
    char,
> {
    let base = match status {
        Some(s) => s,
        None => "Result received"@,
    };
    match duration {
        Some(d) => base + " · "@ + d + "s"@,
        None => base,
    }
}

/// How an exit code is reported.
fn exit_status_of(code: i64) -> (r: Vec<char>)
    ensures
        r@ == exit_status(code),
{
    if code == 0 {
        chars_of("Completed")
    } else {
        let mut out = chars_of("Failed · exit ");
        extend_chars(&mut out, decimal_of(code).as_slice());
        out
    }
}

/// The exit code recorded in header lines.
fn code_in_lines(lines: &Vec<Vec<char>>) -> (r: Option<i64>)
    ensures
        r == code_in(line_views(lines@)),
{
    let ghost lv = line_views(lines@);
    let p = chars_of("Process exited with code ");
    let mut i: usize = 0;
    assert(lv.skip(0) =~= lv);
    while i < lines.len()
        invariant
            i <= lines.len(),
            lv == line_views(lines@),
            p@ == "Process exited with code "@,
            code_in(lv.skip(i as int)) == code_in(lv),
        decreases lines.len() - i,
    {
        assert(lv.skip(i as int).drop_first() =~= lv.skip(i + 1));
        assert(lv.skip(i as int)[0] == lines@[i as int]@);
        let l = lines[i].as_slice();
        if crate::text::starts_with(l, p.as_slice()) {
            let rest = crate::text::slice_of(l, p.len(), l.len());
            let t = crate::text::trim(rest.as_slice());
            match crate::text::parse_i64(t.as_slice()) {
                Some(c) => {
                    return Some(c);
                },
                None => {},
            }
        }
        i = i + 1;
    }
    None
}

/// The duration candidates in header lines.
fn durations_in_lines(lines: &Vec<Vec<char>>) -> (r: Vec<String>)
    ensures
        crate::history::strings(r@) == durations_in(line_views(lines@)),
{
    let ghost lv = line_views(lines@);
    let p = chars_of("Wall time: ");
    let mut out: Vec<String> = Vec::new();
    let mut i: usize = lines.len();
    assert(lv.skip(lv.len() as int) =~= Seq::<Seq<char>>::empty());
    while i > 0
        invariant
            i <= lines.len(),
            lv == line_views(lines@),
            p@ == "Wall time: "@,
            crate::history::strings(out@) == durations_in(lv.skip(i as int)),
        decreases i,
    {
        let k = i - 1;
        assert(lv.skip(k as int).drop_first() =~= lv.skip(i as int));
        assert(lv.skip(k as int)[0] == lines@[k as int]@);
        let l = lines[k].as_slice();
        if crate::text::starts_with(l, p.as_slice()) {
            let rest = crate::text::slice_of(l, p.len(), l.len());
            match crate::text::first_word_of(rest.as_slice()) {
                Some(w) => {
                    let ghost before = crate::history::strings(out@);
                    out.insert(0, string_of(w.as_slice()));
                    assert(crate::history::strings(out@) =~= seq![w@] + before);
                },
                None => {},
            }
        }
        i = k;
    }
    assert(lv.skip(0) =~= lv);
    out
}

/// Status and duration candidates of a shell envelope.
fn envelope_of(s: &str) -> (r: Option<(Option<Vec<char>>, Vec<String>)>)
    ensures
        match r {
            Some((a, b)) => envelope(s@) == Some(
                (
                    match a {
                        Some(x) => Some(x@),
                        None => None,
                    },
                    crate::history::strings(b@),
                ),
            ),
            None => envelope(s@) is None,
        },
{
    let cs = chars_of(s);
    match crate::text::split_once(cs.as_slice(), chars_of("Final output:\n").as_slice()) {
        Some((header, _)) => {
            if crate::text::starts_with(header.as_slice(), chars_of("Chunk ID:").as_slice())
                || crate::text::starts_with(header.as_slice(), chars_of("Wall time:").as_slice()) {
                let lines = crate::text::lines_of(header.as_slice());
                let status = match code_in_lines(&lines) {
                    Some(c) => Some(exit_status_of(c)),
                    None => None,
                };
                let secs = durations_in_lines(&lines);
                Some((status, secs))
            } else {
                None
            }
        },
        None => None,
    }
}

/// Status and duration candidates of a tool result at nesting `depth`.
fn inspect_of(v: &Json, depth: usize) -> (r: (Option<Vec<char>>, Vec<String>))
    requires
        depth <= 17,
    ensures
        inspect(*v, depth as nat) == (
            match r.0 {
                Some(x) => Some(x@),
                None => None,
            },
            crate::history::strings(r.1@),
        ),
    decreases 17 - depth,
{
    if depth > 16 {
        return (None, Vec::new());
    }
    match v {
        Json::Str(s) => {
            match parse_json(s.as_str()) {
                Some(d) => {
                    return inspect_of(&d, depth + 1);
                },
                None => match envelope_of(s.as_str()) {
                    Some(r) => {
                        return r;
                    },
                    None => {},
                },
            }
        },
        _ => {},
    }
    let status = if crate::json::get_bool(v, "isError") == Some(true) {
        Some(chars_of("Failed"))
    } else {
        match crate::json::get_i64(v, "exit_code") {
            Some(c) => Some(exit_status_of(c)),
            None => None,
        }
    };
    let mut secs: Vec<String> = Vec::new();
    match crate::json::get(v, "wall_time_seconds") {
        Some(Json::Number(n)) => secs.push(n.text.clone()),
        _ => match crate::json::get(v, "wall_time") {
            Some(Json::Number(n)) => secs.push(n.text.clone()),
            _ => {},
        },
    };
    assert(crate::history::strings(secs@) =~= value_durations(*v));
    (status, secs)
}

/// What a tool result explicitly records about its outcome: a status only
/// for explicit error metadata, exit codes or shell envelopes, and the
/// recorded duration texts.
pub fn result_summary(value: &Json) -> (r: Summary)
    ensures
        summary_view(r) == inspect(*value, 0),
{
    let (status, durations) = inspect_of(value, 0);
    Summary {
        status: match status {
            Some(s) => Some(string_of(s.as_slice())),
            None => None,
        },
        durations,
    }
}

impl Summary {
    /// The summary line, given the duration as shown (one decimal) when it
    /// is a finite, non-negative number.
    pub fn line(&self, duration: Option<String>) -> (r: String)
        ensures
            r@ == summary_line_text(
                crate::history::opt_text(self.status),
                crate::history::opt_text(duration),
            ),
    {
        let mut out = match &self.status {
            Some(s) => s.clone(),
            None => String::from_str("Result received"),
        };
        match duration {
            Some(d) => {
                out.append(" · ");
                out.append(d.as_str());
                out.append("s");
            },
            None => {},
        }
        out
    }

    /// Whether the summary reports a failure (its line starts with `Failed`).
    pub fn failed(&self) -> (r: bool)
        ensures
            r == crate::text::starts_with_seq(
                summary_line_text(crate::history::opt_text(self.status), None),
                "Failed"@,
            ),
    {
        let line = self.line(None);
        crate::text::str_starts_with(line.as_str(), "Failed")
    }
}

} // verus!
