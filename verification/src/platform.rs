//! Files and front matter: the values that file reading and watching hand
//! to the editor, and the detection of a YAML (`---`), TOML (`+++`) or JSON
//! (`;;;`) front matter block at the start of a markdown text.
use crate::document::NewlineStyle;
use crate::markdown_lines::{skip_char_back, trailing_count, trim_end_char};
use crate::text::{
    char_len_utf8, char_vec, find_char, find_from, lemma_find_char, lemma_utf8_len_prefix,
    string_from_range,
    utf8_len,
};
use serde_json::Value;
use std::path::PathBuf;
use vstd::prelude::*;

verus! {

#[verifier::external_type_specification]
#[verifier::external_body]
pub struct ExValue(Value);

#[verifier::external_type_specification]
#[verifier::external_body]
pub struct ExTomlValue(toml::Value);

#[verifier::external_type_specification]
#[verifier::external_body]
pub struct ExIoError(std::io::Error);

#[verifier::external_type_specification]
#[verifier::external_body]
pub struct ExNotifyError(notify::Error);

/// `Value::clone`: an equal value.
pub assume_specification[ <Value as Clone>::clone ](v: &Value) -> (c: Value)
    ensures
        c == *v,
;

#[derive(Debug)]
pub enum PlatformError {
    Io { path: PathBuf, source: std::io::Error },
    Notify(notify::Error),
    FrontMatter(String),
}

#[derive(Clone, Debug, PartialEq, Eq)]
pub struct FileDocument {
    pub path: PathBuf,
    pub text: String,
    pub newline: NewlineStyle,
}

#[derive(Clone, Copy, Debug, PartialEq, Eq, Structural)]
pub enum FrontMatterKind {
    Yaml,
    Toml,
    Json,
}

#[derive(Clone, Debug, PartialEq)]
pub struct FrontMatter {
    pub kind: FrontMatterKind,
    pub value: Value,
    pub body_start_byte: usize,
}

#[derive(Clone, Copy, Debug, PartialEq, Eq, Structural)]
pub enum FileChangeKind {
    Modified,
    Removed,
    Other,
}

#[derive(Clone, Debug, PartialEq, Eq)]
pub struct FileChange {
    pub path: PathBuf,
    pub kind: FileChangeKind,
}

/// The kind of a file event: a modification, else a removal, else another kind.
pub fn change_kind(modified: bool, removed: bool) -> (k: FileChangeKind)
    ensures
        k == (if modified {
            FileChangeKind::Modified
        } else if removed {
            FileChangeKind::Removed
        } else {
            FileChangeKind::Other
        }),
{
    if modified {
        FileChangeKind::Modified
    } else if removed {
        FileChangeKind::Removed
    } else {
        FileChangeKind::Other
    }
}

// ----------------------------------------------------------------------------
// Front matter.

pub open spec fn delimiter_text(kind: FrontMatterKind) -> Seq<char> {
    match kind {
        FrontMatterKind::Yaml => seq!['-', '-', '-'],
        FrontMatterKind::Toml => seq!['+', '+', '+'],
        FrontMatterKind::Json => seq![';', ';', ';'],
    }
}

/// The kind of front matter that a first line opens.
pub open spec fn delimiter_of(line: Seq<char>) -> Option<FrontMatterKind> {
    if line == delimiter_text(FrontMatterKind::Yaml) {
        Some(FrontMatterKind::Yaml)
    } else if line == delimiter_text(FrontMatterKind::Toml) {
        Some(FrontMatterKind::Toml)
    } else if line == delimiter_text(FrontMatterKind::Json) {
        Some(FrontMatterKind::Json)
    } else {
        None
    }
}

/// The first line from position `p` that ends with `'\n'` and, without its
/// trailing CRs, equals `delim`: its start and the position of its `'\n'`.
pub open spec fn closing_line_from(t: Seq<char>, p: int, delim: Seq<char>) -> Option<(int, int)>
    decreases t.len() - p,
{
    if p < 0 || p >= t.len() {
        None
    } else {
        let q = p + find_char(t.skip(p), '\n');
        if q >= t.len() {
            None
        } else if trim_end_char(t.subrange(p, q), '\r') == delim {
            Some((p, q))
        } else {
            closing_line_from(t, q + 1, delim)
        }
    }
}

/// A front matter block: its kind, the range of its raw text, and where the
/// body starts (after the closing delimiter line).
pub open spec fn front_matter_bounds(t: Seq<char>) -> Option<(FrontMatterKind, int, int, int)> {
    let f = find_char(t, '\n') as int;
    if f >= t.len() {
        None
    } else {
        match delimiter_of(trim_end_char(t.take(f), '\r')) {
            None => None,
            Some(kind) => match closing_line_from(t, f + 1, delimiter_text(kind)) {
                None => None,
                Some((p, q)) => Some((kind, f + 1, p, q + 1)),
            },
        }
    }
}

/// What `serde_yaml_ng::from_str` gives for a text read as a JSON value:
/// the value, or the error's message.
pub uninterp spec fn yaml_parse(raw: Seq<char>) -> Result<Value, Seq<char>>;

/// What `toml::from_str` gives for a text read as a TOML value: the value,
/// or the error's message.
pub uninterp spec fn toml_parse(raw: Seq<char>) -> Result<toml::Value, Seq<char>>;

/// The JSON value that `serde_json::to_value` makes of a TOML value.
pub uninterp spec fn json_of_toml(value: toml::Value) -> Value;

/// What `serde_json::from_str` gives for a text read as a JSON value: the
/// value, or the error's message.
pub uninterp spec fn json_parse(raw: Seq<char>) -> Result<Value, Seq<char>>;

/// `serde_yaml_ng::from_str` into a JSON value; the error as its message.
/// Both depend on the text alone.
#[verifier::external_body]
fn parse_yaml(raw: &str) -> (r: Result<Value, String>)
    ensures
        match r {
            Ok(v) => yaml_parse(raw@) == Ok::<Value, Seq<char>>(v),
            Err(m) => yaml_parse(raw@) == Err::<Value, Seq<char>>(m@),
        },
{
    match serde_yaml_ng::from_str::<Value>(raw) {
        Ok(v) => Ok(v),
        Err(e) => Err(e.to_string()),
    }
}

/// `toml::from_str` into a TOML value; the error as its message.
#[verifier::external_body]
fn parse_toml(raw: &str) -> (r: Result<toml::Value, String>)
    ensures
        match r {
            Ok(v) => toml_parse(raw@) == Ok::<toml::Value, Seq<char>>(v),
            Err(m) => toml_parse(raw@) == Err::<toml::Value, Seq<char>>(m@),
        },
{
    match toml::from_str::<toml::Value>(raw) {
        Ok(v) => Ok(v),
        Err(e) => Err(e.to_string()),
    }
}

/// `serde_json::to_value` of a TOML value; the error as its message. It
/// fails only where a `Serialize` impl fails or a map has a key that is not
/// a string, and a TOML value has neither, so it succeeds.
#[verifier::external_body]
fn toml_to_json(value: toml::Value) -> (r: Result<Value, String>)
    ensures
        match r {
            Ok(j) => j == json_of_toml(value),
            Err(_) => false,
        },
{
    match serde_json::to_value(value) {
        Ok(v) => Ok(v),
        Err(e) => Err(e.to_string()),
    }
}

/// `serde_json::from_str` into a JSON value; the error as its message.
#[verifier::external_body]
fn parse_json(raw: &str) -> (r: Result<Value, String>)
    ensures
        match r {
            Ok(v) => json_parse(raw@) == Ok::<Value, Seq<char>>(v),
            Err(m) => json_parse(raw@) == Err::<Value, Seq<char>>(m@),
        },
{
    match serde_json::from_str::<Value>(raw) {
        Ok(v) => Ok(v),
        Err(e) => Err(e.to_string()),
    }
}

/// The front matter kind that opens with this (CR-trimmed) first line.
fn front_matter_delimiter(v: &Vec<char>, from: usize, to: usize) -> (r: Option<FrontMatterKind>)
    requires
        from <= to <= v.len(),
    ensures
        r == delimiter_of(v@.subrange(from as int, to as int)),
{
    let ghost line = v@.subrange(from as int, to as int);
    if to - from != 3 {
        assert(line.len() != 3);
        assert(line != delimiter_text(FrontMatterKind::Yaml));
        assert(line != delimiter_text(FrontMatterKind::Toml));
        assert(line != delimiter_text(FrontMatterKind::Json));
        return None;
    }
    let (a, b, c) = (v[from], v[from + 1], v[from + 2]);
    assert(line[0] == a && line[1] == b && line[2] == c);
    if a == '-' && b == '-' && c == '-' {
        assert(line =~= delimiter_text(FrontMatterKind::Yaml));
        Some(FrontMatterKind::Yaml)
    } else if a == '+' && b == '+' && c == '+' {
        assert(line =~= delimiter_text(FrontMatterKind::Toml));
        Some(FrontMatterKind::Toml)
    } else if a == ';' && b == ';' && c == ';' {
        assert(line =~= delimiter_text(FrontMatterKind::Json));
        Some(FrontMatterKind::Json)
    } else {
        assert(line != delimiter_text(FrontMatterKind::Yaml));
        assert(line != delimiter_text(FrontMatterKind::Toml));
        assert(line != delimiter_text(FrontMatterKind::Json));
        None
    }
}

/// Whether `v[from..to]`, without its trailing CRs, is the delimiter of `kind`.
fn is_delimiter_line(v: &Vec<char>, from: usize, to: usize, kind: FrontMatterKind) -> (b: bool)
    requires
        from <= to <= v.len(),
    ensures
        b == (trim_end_char(v@.subrange(from as int, to as int), '\r') == delimiter_text(kind)),
{
    let end = skip_char_back(v, from, to, '\r');
    assert(trim_end_char(v@.subrange(from as int, to as int), '\r') =~= v@.subrange(
        from as int,
        end as int,
    ));
    match front_matter_delimiter(v, from, end) {
        Some(k) => k == kind,
        None => false,
    }
}

/// The number of UTF-8 bytes of `v[..k]`.
fn utf8_prefix_len(v: &Vec<char>, k: usize) -> (n: usize)
    requires
        k <= v.len(),
        utf8_len(v@) <= usize::MAX,
    ensures
        n == utf8_len(v@.take(k as int)),
{
    proof {
        lemma_utf8_len_prefix(v@, k as int);
    }
    let mut n: usize = 0;
    let mut i: usize = 0;
    while i < k
        invariant
            i <= k <= v.len(),
            n == utf8_len(v@.take(i as int)),
            utf8_len(v@.take(k as int)) <= usize::MAX,
        decreases k - i,
    {
        assert(v@.take(i + 1).drop_last() =~= v@.take(i as int));
        proof {
            lemma_utf8_len_prefix(v@.take(k as int), i + 1);
            assert(v@.take(k as int).take(i + 1) =~= v@.take(i + 1));
        }
        n = n + char_len_utf8(v[i]);
        i += 1;
    }
    n
}

/// The value that the parser of a front matter kind reads from a raw block
/// (TOML as the JSON value of the TOML value), or its error message.
pub open spec fn parse_raw(kind: FrontMatterKind, raw: Seq<char>) -> Result<Value, Seq<char>> {
    match kind {
        FrontMatterKind::Yaml => yaml_parse(raw),
        FrontMatterKind::Toml => match toml_parse(raw) {
            Ok(t) => Ok(json_of_toml(t)),
            Err(m) => Err(m),
        },
        FrontMatterKind::Json => json_parse(raw),
    }
}

/// What `parse_front_matter` returns: no front matter unless the first line
/// is a delimiter closed by a later line; otherwise the raw text between the
/// delimiter lines goes to the parser of its kind, and either its error
/// comes back or a front matter of that kind holding the parsed value, whose
/// body starts (in bytes) after the closing line.
pub open spec fn front_matter_result(text: Seq<char>, r: Result<Option<FrontMatter>, PlatformError>) -> bool {
    match front_matter_bounds(text) {
        None => r matches Ok(None),
        Some((kind, a, b, body)) => match parse_raw(kind, text.subrange(a, b)) {
            Err(m) => r matches Err(PlatformError::FrontMatter(e)) && e@ == m,
            Ok(v) => r matches Ok(Some(fm)) && fm.kind == kind && fm.value == v
                && fm.body_start_byte == utf8_len(text.take(body)),
        },
    }
}

/// Detects and parses a front matter block at the start of the text.
pub fn parse_front_matter(text: &str) -> (r: Result<Option<FrontMatter>, PlatformError>)
    requires
        utf8_len(text@) <= usize::MAX,
    ensures
        front_matter_result(text@, r),
{
    let v = char_vec(text);
    let len = v.len();
    let first_line_end = find_from(&v, 0, '\n');
    assert(v@.skip(0) == v@);
    if first_line_end >= len {
        return Ok(None);
    }
    let line_end_trimmed = skip_char_back(&v, 0, first_line_end, '\r');
    assert(v@.subrange(0, first_line_end as int) == v@.take(first_line_end as int));
    assert(trim_end_char(v@.take(first_line_end as int), '\r') =~= v@.subrange(
        0,
        line_end_trimmed as int,
    ));
    let kind = match front_matter_delimiter(&v, 0, line_end_trimmed) {
        Some(k) => k,
        None => return Ok(None),
    };
    let ghost delim = delimiter_text(kind);
    let raw_start = first_line_end + 1;
    let mut search_from = raw_start;
    while search_from < len
        invariant
            raw_start <= search_from <= len == v.len(),
            v@ == text@,
            utf8_len(v@) <= usize::MAX,
            delim == delimiter_text(kind),
            front_matter_bounds(v@) == match closing_line_from(v@, raw_start as int, delim) {
                None => None,
                Some((p, q)) => Some((kind, raw_start as int, p, q + 1)),
            },
            closing_line_from(v@, search_from as int, delim) == closing_line_from(
                v@,
                raw_start as int,
                delim,
            ),
        decreases len - search_from,
    {
        let line_end = find_from(&v, search_from, '\n');
        if line_end >= len {
            assert(closing_line_from(v@, search_from as int, delim) is None);
            return Ok(None);
        }
        if is_delimiter_line(&v, search_from, line_end, kind) {
            assert(closing_line_from(v@, search_from as int, delim) == Some(
                (search_from as int, line_end as int),
            ));
            let raw = string_from_range(&v, raw_start, search_from);
            let body_start_byte = utf8_prefix_len(&v, line_end + 1);
            let value = match kind {
                FrontMatterKind::Yaml => match parse_yaml(raw.as_str()) {
                    Ok(value) => value,
                    Err(e) => return Err(PlatformError::FrontMatter(e)),
                },
                FrontMatterKind::Toml => {
                    let value = match parse_toml(raw.as_str()) {
                        Ok(value) => value,
                        Err(e) => return Err(PlatformError::FrontMatter(e)),
                    };
                    match toml_to_json(value) {
                        Ok(value) => value,
                        Err(e) => return Err(PlatformError::FrontMatter(e)),
                    }
                },
                FrontMatterKind::Json => match parse_json(raw.as_str()) {
                    Ok(value) => value,
                    Err(e) => return Err(PlatformError::FrontMatter(e)),
                },
            };
            return Ok(Some(FrontMatter { kind, value, body_start_byte }));
        }
        search_from = line_end + 1;
    }
    Ok(None)
}

// ----------------------------------------------------------------------------
// Laws of front matter.

/// The first `c` of a text is at `k` when no `c` comes before `k` and one
/// stands at `k` (or `k` is the end).
proof fn lemma_find_char_is(s: Seq<char>, c: char, k: int)
    requires
        0 <= k <= s.len(),
        forall|i: int| 0 <= i < k ==> s[i] != c,
        k < s.len() ==> s[k] == c,
    ensures
        find_char(s, c) == k,
{
    lemma_find_char(s, c);
    let f = find_char(s, c) as int;
    if f < k {
        assert(s[f] != c);
    } else if f > k {
        assert(s[k] != c);
    }
}

/// No line of `raw` (each running to its `'\n'`) is, without its trailing
/// CRs, the delimiter `delim`.
pub open spec fn no_line_closes(raw: Seq<char>, delim: Seq<char>) -> bool {
    forall|p: int|
        0 <= p < raw.len() && (p == 0 || raw[p - 1] == '\n') ==> #[trigger] trim_end_char(
            raw.subrange(p, p + find_char(raw.skip(p), '\n')),
            '\r',
        ) != delim
}

/// A delimiter line: the delimiter of a kind and its line break.
pub open spec fn delimiter_line(kind: FrontMatterKind) -> Seq<char> {
    delimiter_text(kind) + seq!['\n']
}

/// From each line start of the block, the closing line found is the
/// delimiter line right after the block.
proof fn lemma_closing_after_block(kind: FrontMatterKind, raw: Seq<char>, rest: Seq<char>, p: int)
    requires
        0 <= p <= raw.len(),
        p == 0 || raw[p - 1] == '\n',
        raw.len() == 0 || raw.last() == '\n',
        no_line_closes(raw, delimiter_text(kind)),
    ensures
        ({
            let text = delimiter_line(kind) + raw + delimiter_line(kind) + rest;
            closing_line_from(text, 4 + p, delimiter_text(kind)) == Some(
                (4 + raw.len() as int, 7 + raw.len() as int),
            )
        }),
    decreases raw.len() - p,
{
    let delim = delimiter_text(kind);
    let text = delimiter_line(kind) + raw + delimiter_line(kind) + rest;
    let l = raw.len() as int;
    let tail = text.skip(4 + p);
    if p == l {
        assert forall|i: int| 0 <= i < 3 implies tail[i] != '\n' by {
            assert(tail[i] == delim[i]);
        }
        assert(tail[3] == '\n');
        lemma_find_char_is(tail, '\n', 3);
        assert(text.subrange(4 + l, 7 + l) =~= delim);
        assert(trailing_count(delim, '\r') == 0);
        assert(trim_end_char(delim, '\r') =~= delim);
    } else {
        let r = raw.skip(p);
        lemma_find_char(r, '\n');
        let f = find_char(r, '\n') as int;
        assert(r[r.len() - 1] == '\n');
        assert(f < r.len());
        assert forall|i: int| 0 <= i < f implies tail[i] != '\n' by {
            assert(tail[i] == r[i]);
        }
        assert(tail[f] == r[f]);
        lemma_find_char_is(tail, '\n', f);
        assert(text.subrange(4 + p, 4 + p + f) =~= raw.subrange(p, p + f));
        assert(trim_end_char(raw.subrange(p, p + find_char(raw.skip(p), '\n')), '\r') != delim);
        assert(raw[p + f] == r[f]);
        lemma_closing_after_block(kind, raw, rest, p + f + 1);
    }
}

/// Front matter is the block between its delimiter lines, whole: for a text
/// that opens with a delimiter line, then a block none of whose lines is
/// that delimiter, then the delimiter line again and any rest, the parser
/// of that kind is handed the whole block, and its value or its error comes
/// back, with the body starting (in bytes) after the closing delimiter line.
pub proof fn law_front_matter_hands_over_whole_block(
    kind: FrontMatterKind,
    raw: Seq<char>,
    rest: Seq<char>,
    r: Result<Option<FrontMatter>, PlatformError>,
)
    requires
        raw.len() == 0 || raw.last() == '\n',
        no_line_closes(raw, delimiter_text(kind)),
        front_matter_result(delimiter_line(kind) + raw + delimiter_line(kind) + rest, r),
    ensures
        match parse_raw(kind, raw) {
            Ok(v) => r matches Ok(Some(fm)) && fm.kind == kind && fm.value == v
                && fm.body_start_byte == utf8_len(delimiter_line(kind) + raw + delimiter_line(kind)),
            Err(m) => r matches Err(PlatformError::FrontMatter(e)) && e@ == m,
        },
{
    let delim = delimiter_text(kind);
    let text = delimiter_line(kind) + raw + delimiter_line(kind) + rest;
    let l = raw.len() as int;
    assert forall|i: int| 0 <= i < 3 implies text[i] != '\n' by {
        assert(text[i] == delim[i]);
    }
    assert(text[3] == '\n');
    lemma_find_char_is(text, '\n', 3);
    assert(text.take(3) =~= delim);
    assert(trailing_count(delim, '\r') == 0);
    assert(trim_end_char(delim, '\r') =~= delim);
    assert(delimiter_text(FrontMatterKind::Yaml)[0] == '-');
    assert(delimiter_text(FrontMatterKind::Toml)[0] == '+');
    assert(delimiter_text(FrontMatterKind::Json)[0] == ';');
    assert(delimiter_of(delim) == Some(kind));
    lemma_closing_after_block(kind, raw, rest, 0);
    assert(front_matter_bounds(text) == Some((kind, 4int, 4 + l, 8 + l)));
    assert(text.subrange(4, 4 + l) =~= raw);
    assert(text.take(8 + l) =~= delimiter_line(kind) + raw + delimiter_line(kind));
}

} // verus!
