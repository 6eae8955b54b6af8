//! Character-level text utilities shared by the editor core, the markdown
//! scanner and the preview renderer.
//!
//! Text is modelled as a `Seq<char>` (the view of `str` and `String`).
//! Executable helpers work on `Vec<char>` copies of the text.
use vstd::prelude::*;

verus! {

/// Unicode `White_Space`, the set that `char::is_whitespace` tests.
pub open spec fn is_ws(c: char) -> bool {
    ||| c == ' ' || c == '\t' || c == '\n' || c == '\u{0B}' || c == '\u{0C}' || c == '\r'
    ||| c == '\u{85}' || c == '\u{A0}' || c == '\u{1680}'
    ||| ('\u{2000}' <= c && c <= '\u{200A}')
    ||| c == '\u{2028}' || c == '\u{2029}' || c == '\u{202F}' || c == '\u{205F}'
    ||| c == '\u{3000}'
}

/// Executable form of `is_ws`.
pub fn char_is_ws(c: char) -> (b: bool)
    ensures
        b == is_ws(c),
{
    c == ' ' || c == '\t' || c == '\n' || c == '\u{0B}' || c == '\u{0C}' || c == '\r' || c
        == '\u{85}' || c == '\u{A0}' || c == '\u{1680}' || ('\u{2000}' <= c && c <= '\u{200A}')
        || c == '\u{2028}' || c == '\u{2029}' || c == '\u{202F}' || c == '\u{205F}' || c
        == '\u{3000}'
}

/// Number of leading whitespace characters.
pub open spec fn leading_ws(s: Seq<char>) -> nat
    decreases s.len(),
{
    if s.len() > 0 && is_ws(s[0]) {
        1 + leading_ws(s.drop_first())
    } else {
        0
    }
}

/// Number of trailing whitespace characters.
pub open spec fn trailing_ws(s: Seq<char>) -> nat
    decreases s.len(),
{
    if s.len() > 0 && is_ws(s.last()) {
        1 + trailing_ws(s.drop_last())
    } else {
        0
    }
}

/// `str::trim_start`.
pub open spec fn trim_start(s: Seq<char>) -> Seq<char> {
    s.skip(leading_ws(s) as int)
}

/// `str::trim_end`.
pub open spec fn trim_end(s: Seq<char>) -> Seq<char> {
    s.take(s.len() - trailing_ws(s))
}

/// `str::trim`.
pub open spec fn trim(s: Seq<char>) -> Seq<char> {
    trim_end(trim_start(s))
}

/// `s` begins with `p`.
pub open spec fn has_prefix(s: Seq<char>, p: Seq<char>) -> bool {
    p.len() <= s.len() && s.take(p.len() as int) == p
}

/// The text holds no character other than whitespace.
pub open spec fn is_blank(s: Seq<char>) -> bool {
    forall|i: int| 0 <= i < s.len() ==> is_ws(#[trigger] s[i])
}

pub proof fn lemma_leading_ws_bound(s: Seq<char>)
    ensures
        leading_ws(s) <= s.len(),
        forall|i: int| 0 <= i < leading_ws(s) ==> is_ws(#[trigger] s[i]),
        leading_ws(s) < s.len() ==> !is_ws(s[leading_ws(s) as int]),
    decreases s.len(),
{
    if s.len() > 0 && is_ws(s[0]) {
        lemma_leading_ws_bound(s.drop_first());
        assert forall|i: int| 0 <= i < leading_ws(s) implies is_ws(#[trigger] s[i]) by {
            if i > 0 {
                assert(s[i] == s.drop_first()[i - 1]);
            }
        }
        if leading_ws(s) < s.len() {
            assert(s[leading_ws(s) as int] == s.drop_first()[leading_ws(s.drop_first()) as int]);
        }
    }
}

pub proof fn lemma_trailing_ws_bound(s: Seq<char>)
    ensures
        trailing_ws(s) <= s.len(),
        forall|i: int| s.len() - trailing_ws(s) <= i < s.len() ==> is_ws(#[trigger] s[i]),
        trailing_ws(s) < s.len() ==> !is_ws(s[s.len() - trailing_ws(s) - 1]),
    decreases s.len(),
{
    if s.len() > 0 && is_ws(s.last()) {
        lemma_trailing_ws_bound(s.drop_last());
        assert forall|i: int| s.len() - trailing_ws(s) <= i < s.len() implies is_ws(
            #[trigger] s[i],
        ) by {
            if i < s.len() - 1 {
                assert(s[i] == s.drop_last()[i]);
            }
        }
        if trailing_ws(s) < s.len() {
            assert(s[s.len() - trailing_ws(s) - 1] == s.drop_last()[s.drop_last().len()
                - trailing_ws(s.drop_last()) - 1]);
        }
    }
}

/// A string made of the characters of `v`.
pub fn string_from_chars(v: &[char]) -> (s: String)
    ensures
        s@ == v@,
{
    let mut s = String::new();
    let mut i: usize = 0;
    while i < v.len()
        invariant
            i <= v.len(),
            s@ == v@.take(i as int),
        decreases v.len() - i,
    {
        push_char(&mut s, v[i]);
        assert(v@.take(i + 1) == v@.take(i as int).push(v@[i as int]));
        i += 1;
    }
    assert(v@.take(v.len() as int) == v@);
    s
}

/// A string made of the characters `v[start..end]`.
pub fn string_from_range(v: &Vec<char>, start: usize, end: usize) -> (s: String)
    requires
        start <= end <= v.len(),
    ensures
        s@ == v@.subrange(start as int, end as int),
{
    let mut s = String::new();
    let mut i: usize = start;
    while i < end
        invariant
            start <= i <= end <= v.len(),
            s@ == v@.subrange(start as int, i as int),
        decreases end - i,
    {
        push_char(&mut s, v[i]);
        assert(v@.subrange(start as int, i + 1) == v@.subrange(start as int, i as int).push(
            v@[i as int],
        ));
        i += 1;
    }
    s
}

/// Appends one character: `String::push`.
#[verifier::external_body]
pub(crate) fn push_char(s: &mut String, c: char)
    ensures
        final(s)@ == old(s)@.push(c),
{
    s.push(c);
}

/// The characters of `s`, in order.
pub fn char_vec(s: &str) -> (v: Vec<char>)
    ensures
        v@ == s@,
{
    let mut v: Vec<char> = Vec::new();
    for c in it: s.chars()
        invariant
            v@ == it.seq().take(it.index() as int),
            it.seq() == s@,
    {
        v.push(c);
    }
    v
}

/// Appends the characters of `p` to `v`.
pub fn extend_chars(v: &mut Vec<char>, p: &[char])
    ensures
        final(v)@ == old(v)@ + p@,
{
    let mut i: usize = 0;
    while i < p.len()
        invariant
            i <= p.len(),
            v@ == old(v)@ + p@.take(i as int),
        decreases p.len() - i,
    {
        v.push(p[i]);
        assert(p@.take(i + 1) == p@.take(i as int).push(p@[i as int]));
        i += 1;
    }
    assert(p@.take(p.len() as int) == p@);
}

/// Whether `v[at..]` begins with `p`.
pub fn has_prefix_at(v: &Vec<char>, at: usize, p: &[char]) -> (b: bool)
    requires
        at <= v.len(),
    ensures
        b == has_prefix(v@.skip(at as int), p@),
{
    if p.len() > v.len() - at {
        return false;
    }
    let mut i: usize = 0;
    while i < p.len()
        invariant
            i <= p.len(),
            p.len() <= v.len() - at,
            forall|j: int| 0 <= j < i ==> v@[at + j] == p@[j],
        decreases p.len() - i,
    {
        if v[at + i] != p[i] {
            assert(v@.skip(at as int).take(p.len() as int)[i as int] != p@[i as int]);
            return false;
        }
        i += 1;
    }
    assert(v@.skip(at as int).take(p.len() as int) =~= p@);
    true
}

/// Index of the first non-whitespace character of `v[from..to]`, or `to`.
pub fn skip_ws(v: &Vec<char>, from: usize, to: usize) -> (r: usize)
    requires
        from <= to <= v.len(),
    ensures
        r == from + leading_ws(v@.subrange(from as int, to as int)),
        from <= r <= to,
{
    let ghost s = v@.subrange(from as int, to as int);
    proof {
        lemma_leading_ws_bound(s);
    }
    let mut i = from;
    while i < to && char_is_ws(v[i])
        invariant
            from <= i <= to <= v.len(),
            i - from <= leading_ws(s),
            s == v@.subrange(from as int, to as int),
            leading_ws(s) <= s.len(),
            forall|k: int| 0 <= k < leading_ws(s) ==> is_ws(#[trigger] s[k]),
            leading_ws(s) < s.len() ==> !is_ws(s[leading_ws(s) as int]),
        decreases to - i,
    {
        assert(s[i - from] == v@[i as int]);
        i += 1;
    }
    if i < to {
        assert(s[i - from] == v@[i as int]);
    }
    i
}

/// Index just past the last non-whitespace character of `v[from..to]`, or `from`.
pub fn skip_ws_back(v: &Vec<char>, from: usize, to: usize) -> (r: usize)
    requires
        from <= to <= v.len(),
    ensures
        r == to - trailing_ws(v@.subrange(from as int, to as int)),
        from <= r <= to,
{
    let ghost s = v@.subrange(from as int, to as int);
    proof {
        lemma_trailing_ws_bound(s);
    }
    let mut i = to;
    while i > from && char_is_ws(v[i - 1])
        invariant
            from <= i <= to <= v.len(),
            to - i <= trailing_ws(s),
            s == v@.subrange(from as int, to as int),
            trailing_ws(s) <= s.len(),
            forall|k: int| s.len() - trailing_ws(s) <= k < s.len() ==> is_ws(#[trigger] s[k]),
            trailing_ws(s) < s.len() ==> !is_ws(s[s.len() - trailing_ws(s) - 1]),
        decreases i - from,
    {
        assert(s[i - 1 - from] == v@[i - 1]);
        i -= 1;
    }
    if i > from {
        assert(s[i - 1 - from] == v@[i - 1]);
    }
    i
}


/// The text without its trailing `'\r'` and `'\n'` characters:
/// `str::trim_end_matches(['\r', '\n'])`.
pub open spec fn trim_line_end(s: Seq<char>) -> Seq<char>
    decreases s.len(),
{
    if s.len() > 0 && (s.last() == '\r' || s.last() == '\n') {
        trim_line_end(s.drop_last())
    } else {
        s
    }
}

pub proof fn lemma_trim_line_end(s: Seq<char>)
    ensures
        trim_line_end(s).len() <= s.len(),
        trim_line_end(s) == s.take(trim_line_end(s).len() as int),
        forall|i: int|
            trim_line_end(s).len() <= i < s.len() ==> #[trigger] s[i] == '\r' || s[i] == '\n',
        trim_line_end(s).len() > 0 ==> s[trim_line_end(s).len() - 1] != '\r' && s[trim_line_end(
            s,
        ).len() - 1] != '\n',
    decreases s.len(),
{
    if s.len() > 0 && (s.last() == '\r' || s.last() == '\n') {
        lemma_trim_line_end(s.drop_last());
        let t = trim_line_end(s.drop_last());
        assert(s.drop_last().take(t.len() as int) == s.take(t.len() as int));
        assert forall|i: int| t.len() <= i < s.len() implies #[trigger] s[i] == '\r' || s[i]
            == '\n' by {
            if i < s.len() - 1 {
                assert(s[i] == s.drop_last()[i]);
            }
        }
        if t.len() > 0 {
            assert(s[t.len() - 1] == s.drop_last()[t.len() - 1]);
        }
    } else {
        assert(s.take(s.len() as int) == s);
    }
}

/// The length of `v` without its trailing `'\r'` and `'\n'` characters.
pub fn line_end_trimmed_len(v: &Vec<char>) -> (n: usize)
    ensures
        n == trim_line_end(v@).len(),
{
    let mut n = v.len();
    assert(v@.take(n as int) == v@);
    while n > 0 && (v[n - 1] == '\r' || v[n - 1] == '\n')
        invariant
            n <= v.len(),
            trim_line_end(v@.take(n as int)) == trim_line_end(v@),
        decreases n,
    {
        assert(v@.take(n as int).drop_last() == v@.take(n - 1));
        n -= 1;
    }
    assert(trim_line_end(v@.take(n as int)) == v@.take(n as int));
    n
}


/// Whether `v` holds only whitespace (`str::trim` gives the empty string).
pub fn is_blank_chars(v: &Vec<char>) -> (b: bool)
    ensures
        b == is_blank(v@),
{
    let a = skip_ws(v, 0, v.len());
    proof {
        assert(v@.subrange(0, v.len() as int) == v@);
        lemma_leading_ws_bound(v@);
        if a < v.len() {
            assert(!is_ws(v@[a as int]));
        }
    }
    a == v.len()
}

/// The first `n` characters of `v`, as a new vector.
pub fn chars_prefix(v: &Vec<char>, n: usize) -> (r: Vec<char>)
    requires
        n <= v.len(),
    ensures
        r@ == v@.take(n as int),
{
    let mut r: Vec<char> = Vec::new();
    let mut i: usize = 0;
    while i < n
        invariant
            i <= n <= v.len(),
            r@ == v@.take(i as int),
        decreases n - i,
    {
        r.push(v[i]);
        assert(v@.take(i + 1) == v@.take(i as int).push(v@[i as int]));
        i += 1;
    }
    r
}

/// The characters `v[from..to]`, as a new vector.
pub fn chars_range(v: &Vec<char>, from: usize, to: usize) -> (r: Vec<char>)
    requires
        from <= to <= v.len(),
    ensures
        r@ == v@.subrange(from as int, to as int),
{
    let mut r: Vec<char> = Vec::new();
    let mut i: usize = from;
    while i < to
        invariant
            from <= i <= to <= v.len(),
            r@ == v@.subrange(from as int, i as int),
        decreases to - i,
    {
        r.push(v[i]);
        assert(v@.subrange(from as int, i + 1) == v@.subrange(from as int, i as int).push(
            v@[i as int],
        ));
        i += 1;
    }
    r
}

/// Index of the first `'\n'` in `s`, or `s.len()`.
pub open spec fn find_newline(s: Seq<char>) -> nat
    decreases s.len(),
{
    if s.len() == 0 {
        0
    } else if s[0] == '\n' {
        0
    } else {
        1 + find_newline(s.drop_first())
    }
}

/// The length of the first piece of `s` cut after a `'\n'`
/// (`str::split_inclusive('\n')`).
pub open spec fn piece_len(s: Seq<char>) -> int {
    if find_newline(s) < s.len() {
        find_newline(s) + 1int
    } else {
        s.len() as int
    }
}

pub proof fn lemma_find_newline(s: Seq<char>)
    ensures
        find_newline(s) <= s.len(),
        forall|i: int| 0 <= i < find_newline(s) ==> #[trigger] s[i] != '\n',
        find_newline(s) < s.len() ==> s[find_newline(s) as int] == '\n',
        s.len() > 0 ==> 0 < piece_len(s) <= s.len(),
    decreases s.len(),
{
    if s.len() > 0 && s[0] != '\n' {
        lemma_find_newline(s.drop_first());
        assert forall|i: int| 0 <= i < find_newline(s) implies #[trigger] s[i] != '\n' by {
            if i > 0 {
                assert(s[i] == s.drop_first()[i - 1]);
            }
        }
        if find_newline(s) < s.len() {
            assert(s[find_newline(s) as int] == s.drop_first()[find_newline(s.drop_first()) as int]);
        }
    }
}

/// The lines of `str::lines`: cut after each `'\n'`, which is dropped with
/// a CR right before it; no empty line after a final `'\n'`.
pub open spec fn std_lines(s: Seq<char>) -> Seq<Seq<char>>
    decreases s.len(),
{
    if s.len() == 0 {
        Seq::empty()
    } else {
        let k = piece_len(s);
        proof {
            lemma_find_newline(s);
        }
        seq![std_line(s.take(k))] + std_lines(s.skip(k))
    }
}

/// A piece of `split_inclusive('\n')` without its line ending.
pub open spec fn std_line(piece: Seq<char>) -> Seq<char> {
    if piece.len() > 0 && piece.last() == '\n' {
        let p = piece.drop_last();
        if p.len() > 0 && p.last() == '\r' {
            p.drop_last()
        } else {
            p
        }
    } else {
        piece
    }
}

/// The lines of a text, as `str::lines` gives them.
pub fn text_lines(v: &Vec<char>) -> (lines: Vec<Vec<char>>)
    ensures
        lines@.map_values(|l: Vec<char>| l@) == std_lines(v@),
{
    let len = v.len();
    let mut lines: Vec<Vec<char>> = Vec::new();
    let mut offset: usize = 0;
    assert(v@.skip(0) == v@);
    while offset < len
        invariant
            offset <= len == v.len(),
            lines@.map_values(|l: Vec<char>| l@) + std_lines(v@.skip(offset as int)) == std_lines(
                v@,
            ),
        decreases len - offset,
    {
        let ghost rest = v@.skip(offset as int);
        proof {
            lemma_find_newline(rest);
        }
        let mut e = offset;
        while e < len && v[e] != '\n'
            invariant
                offset <= e <= len == v.len(),
                rest == v@.skip(offset as int),
                e - offset <= find_newline(rest),
                find_newline(rest) <= rest.len(),
                forall|i: int| 0 <= i < find_newline(rest) ==> #[trigger] rest[i] != '\n',
                find_newline(rest) < rest.len() ==> rest[find_newline(rest) as int] == '\n',
            decreases len - e,
        {
            assert(rest[e - offset] == v@[e as int]);
            e += 1;
        }
        if e < len {
            assert(rest[e - offset] == v@[e as int]);
        }
        let end = if e < len {
            e + 1
        } else {
            len
        };
        assert(end - offset == piece_len(rest));
        let ghost piece = rest.take(piece_len(rest));
        let keep = if e < len {
            if e > offset && v[e - 1] == '\r' {
                e - 1
            } else {
                e
            }
        } else {
            len
        };
        let line = chars_range(v, offset, keep);
        proof {
            assert(piece =~= v@.subrange(offset as int, end as int));
            if e < len {
                assert(piece.last() == '\n');
                assert(piece.drop_last() =~= v@.subrange(offset as int, e as int));
            }
            assert(line@ =~= std_line(piece));
            assert(rest.skip(piece_len(rest)) =~= v@.skip(end as int));
            assert(lines@.push(line).map_values(|l: Vec<char>| l@) =~= lines@.map_values(
                |l: Vec<char>| l@,
            ).push(line@));
            assert(lines@.map_values(|l: Vec<char>| l@).push(line@) + std_lines(
                v@.skip(end as int),
            ) =~= lines@.map_values(|l: Vec<char>| l@) + std_lines(rest));
        }
        lines.push(line);
        offset = end;
    }
    assert(std_lines(v@.skip(len as int)) =~= Seq::<Seq<char>>::empty());
    assert(lines@.map_values(|l: Vec<char>| l@) + Seq::<Seq<char>>::empty() =~= lines@.map_values(
        |l: Vec<char>| l@,
    ));
    lines
}

/// Index of the first `c` in `s`, or `s.len()`.
pub open spec fn find_char(s: Seq<char>, c: char) -> nat
    decreases s.len(),
{
    if s.len() == 0 {
        0
    } else if s[0] == c {
        0
    } else {
        1 + find_char(s.drop_first(), c)
    }
}

pub proof fn lemma_find_char(s: Seq<char>, c: char)
    ensures
        find_char(s, c) <= s.len(),
        forall|i: int| 0 <= i < find_char(s, c) ==> #[trigger] s[i] != c,
        find_char(s, c) < s.len() ==> s[find_char(s, c) as int] == c,
    decreases s.len(),
{
    if s.len() > 0 && s[0] != c {
        lemma_find_char(s.drop_first(), c);
        assert forall|i: int| 0 <= i < find_char(s, c) implies #[trigger] s[i] != c by {
            if i > 0 {
                assert(s[i] == s.drop_first()[i - 1]);
            }
        }
        if find_char(s, c) < s.len() {
            assert(s[find_char(s, c) as int] == s.drop_first()[find_char(s.drop_first(), c) as int]);
        }
    }
}

/// Index of the first `c` in `v[from..]`, or `v.len()`.
pub fn find_from(v: &Vec<char>, from: usize, c: char) -> (r: usize)
    requires
        from <= v.len(),
    ensures
        r == from + find_char(v@.skip(from as int), c),
        from <= r <= v.len(),
{
    let ghost s = v@.skip(from as int);
    proof {
        lemma_find_char(s, c);
    }
    let mut j = from;
    while j < v.len() && v[j] != c
        invariant
            from <= j <= v.len(),
            s == v@.skip(from as int),
            j - from <= find_char(s, c),
            find_char(s, c) <= s.len(),
            forall|i: int| 0 <= i < find_char(s, c) ==> #[trigger] s[i] != c,
            find_char(s, c) < s.len() ==> s[find_char(s, c) as int] == c,
        decreases v.len() - j,
    {
        assert(s[j - from] == v@[j as int]);
        j += 1;
    }
    if j < v.len() {
        assert(s[j - from] == v@[j as int]);
    }
    j
}

/// The number of bytes of `c` in UTF-8 (`char::len_utf8`).
pub open spec fn char_utf8_len(c: char) -> nat {
    if (c as u32) < 0x80 {
        1
    } else if (c as u32) < 0x800 {
        2
    } else if (c as u32) < 0x10000 {
        3
    } else {
        4
    }
}

/// The number of bytes of a text in UTF-8.
pub open spec fn utf8_len(s: Seq<char>) -> nat
    decreases s.len(),
{
    if s.len() == 0 {
        0
    } else {
        utf8_len(s.drop_last()) + char_utf8_len(s.last())
    }
}

pub fn char_len_utf8(c: char) -> (n: usize)
    ensures
        n == char_utf8_len(c),
{
    let code = c as u32;
    if code < 0x80 {
        1
    } else if code < 0x800 {
        2
    } else if code < 0x10000 {
        3
    } else {
        4
    }
}

pub proof fn lemma_utf8_len_prefix(s: Seq<char>, k: int)
    requires
        0 <= k <= s.len(),
    ensures
        utf8_len(s.take(k)) <= utf8_len(s),
    decreases s.len() - k,
{
    if k < s.len() {
        lemma_utf8_len_prefix(s, k + 1);
        assert(s.take(k + 1).drop_last() =~= s.take(k));
    } else {
        assert(s.take(k) =~= s);
    }
}

/// A longer prefix takes more UTF-8 bytes.
pub proof fn lemma_utf8_len_prefix_strict(s: Seq<char>, i: int, j: int)
    requires
        0 <= i < j <= s.len(),
    ensures
        utf8_len(s.take(i)) < utf8_len(s.take(j)),
    decreases j - i,
{
    assert(s.take(j).drop_last() =~= s.take(j - 1));
    if i < j - 1 {
        lemma_utf8_len_prefix_strict(s, i, j - 1);
    }
}

/// The byte offset clamped to the text's UTF-8 length.
pub open spec fn clamp_byte(t: Seq<char>, byte: int) -> int {
    if byte < utf8_len(t) {
        byte
    } else {
        utf8_len(t) as int
    }
}

/// The character index at a byte offset that falls between characters
/// (clamped to the text's length): the number of characters before it.
pub open spec fn char_index_of_byte(t: Seq<char>, byte: int) -> int {
    choose|k: int| 0 <= k <= t.len() && utf8_len(t.take(k)) == clamp_byte(t, byte)
}

/// At most one prefix of a text takes a given number of bytes, so the
/// character index of a byte offset is the prefix length that takes it.
pub proof fn lemma_char_index_of_byte(t: Seq<char>, byte: int, k: int)
    requires
        0 <= k <= t.len(),
        utf8_len(t.take(k)) == clamp_byte(t, byte),
    ensures
        char_index_of_byte(t, byte) == k,
{
    let c = char_index_of_byte(t, byte);
    assert(0 <= c <= t.len() && utf8_len(t.take(c)) == clamp_byte(t, byte));
    if c < k {
        lemma_utf8_len_prefix_strict(t, c, k);
    } else if k < c {
        lemma_utf8_len_prefix_strict(t, k, c);
    }
}

/// The parts joined with `sep` between them.
pub open spec fn join_with(parts: Seq<Seq<char>>, sep: Seq<char>) -> Seq<char>
    decreases parts.len(),
{
    if parts.len() == 0 {
        Seq::empty()
    } else if parts.len() == 1 {
        parts[0]
    } else {
        join_with(parts.drop_last(), sep) + sep + parts.last()
    }
}

} // verus!
