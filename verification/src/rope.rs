//! The text buffer of a document: a `ropey::Rope`, together with the model
//! of its lines that ropey documents.
//!
//! Ropey treats the start of the text, and every position right after a line
//! break, as the start of a line; a line break belongs to the line it ends.
//! With its default features it recognizes LF, CRLF, CR, VT, FF, NEL, LS and
//! PS as line breaks.
use ropey::Rope;
use vstd::prelude::*;

verus! {

#[verifier::external_type_specification]
#[verifier::external_body]
pub struct ExRope(Rope);

/// The characters that a rope holds.
pub uninterp spec fn rope_chars(r: Rope) -> Seq<char>;

/// A character that ends a line on its own (CR only when no LF follows it).
pub open spec fn is_line_break(c: char) -> bool {
    c == '\n' || c == '\r' || c == '\u{0B}' || c == '\u{0C}' || c == '\u{85}' || c == '\u{2028}'
        || c == '\u{2029}'
}

/// A line starts at position `i > 0`: the character before it ends a line
/// break (a CR directly followed by LF does not end one).
pub open spec fn starts_line_at(s: Seq<char>, i: int) -> bool {
    &&& 0 < i <= s.len()
    &&& is_line_break(s[i - 1])
    &&& !(s[i - 1] == '\r' && i < s.len() && s[i] == '\n')
}

/// The number of line starts in `1..=c`: the index of the line holding `c`.
pub open spec fn breaks_upto(s: Seq<char>, c: int) -> nat
    decreases c,
{
    if c <= 0 {
        0
    } else {
        breaks_upto(s, c - 1) + if starts_line_at(s, c) {
            1nat
        } else {
            0nat
        }
    }
}

/// The number of lines: one more than the number of line breaks.
pub open spec fn line_count_of(s: Seq<char>) -> nat {
    breaks_upto(s, s.len() as int) + 1
}

/// The first line start after `p`, or the end of the text.
pub open spec fn next_line_start(s: Seq<char>, p: int) -> int
    decreases s.len() - p,
{
    if p >= s.len() {
        s.len() as int
    } else if starts_line_at(s, p + 1) {
        p + 1
    } else {
        next_line_start(s, p + 1)
    }
}

/// The position where line `l` starts (the end of the text for `l == line_count_of(s)`).
pub open spec fn line_start(s: Seq<char>, l: nat) -> int
    decreases l,
{
    if l == 0 {
        0
    } else {
        next_line_start(s, line_start(s, (l - 1) as nat))
    }
}

/// The characters of line `l`, its line break included.
pub open spec fn line_chars(s: Seq<char>, l: nat) -> Seq<char> {
    s.subrange(line_start(s, l), line_start(s, l + 1))
}

pub proof fn lemma_breaks_monotone(s: Seq<char>, a: int, b: int)
    requires
        a <= b,
    ensures
        breaks_upto(s, a) <= breaks_upto(s, b),
    decreases b - a,
{
    if a < b {
        lemma_breaks_monotone(s, a, b - 1);
    }
}

pub proof fn lemma_next_line_start(s: Seq<char>, p: int)
    requires
        0 <= p <= s.len(),
    ensures
        p < s.len() ==> p < next_line_start(s, p),
        p == s.len() ==> next_line_start(s, p) == p,
        next_line_start(s, p) <= s.len(),
        next_line_start(s, p) == s.len() || starts_line_at(s, next_line_start(s, p)),
        forall|q: int|
            p <= q < next_line_start(s, p) ==> #[trigger] breaks_upto(s, q) == breaks_upto(s, p),
        breaks_upto(s, next_line_start(s, p)) == breaks_upto(s, p) + if next_line_start(s, p) > p
            && starts_line_at(s, next_line_start(s, p)) {
            1nat
        } else {
            0nat
        },
    decreases s.len() - p,
{
    if p < s.len() && !starts_line_at(s, p + 1) {
        lemma_next_line_start(s, p + 1);
        let r = next_line_start(s, p + 1);
        assert forall|q: int| p <= q < r implies #[trigger] breaks_upto(s, q) == breaks_upto(
            s,
            p,
        ) by {
            if q > p {
                assert(breaks_upto(s, q) == breaks_upto(s, p + 1));
            }
        }
    }
}

pub proof fn lemma_line_start(s: Seq<char>, l: nat)
    requires
        l < line_count_of(s),
    ensures
        0 <= line_start(s, l) <= s.len(),
        breaks_upto(s, line_start(s, l)) == l,
        l == 0 || starts_line_at(s, line_start(s, l)),
        line_start(s, l) <= line_start(s, l + 1) <= s.len(),
    decreases l,
{
    if l > 0 {
        lemma_line_start(s, (l - 1) as nat);
        let p = line_start(s, (l - 1) as nat);
        if p == s.len() {
            assert(false);
        }
        lemma_next_line_start(s, p);
        let r = next_line_start(s, p);
        if !starts_line_at(s, r) {
            assert(r == s.len());
            assert(false);
        }
    }
    let p = line_start(s, l);
    lemma_next_line_start(s, p);
}

pub proof fn lemma_last_line_start(s: Seq<char>)
    ensures
        line_start(s, line_count_of(s)) == s.len(),
{
    let b = breaks_upto(s, s.len() as int);
    lemma_line_start(s, b);
    let p = line_start(s, b);
    lemma_next_line_start(s, p);
    let r = next_line_start(s, p);
    if r < s.len() {
        lemma_breaks_monotone(s, r, s.len() as int);
        assert(false);
    }
}

/// The line that holds position `c` starts at or before `c` and the next one after it.
pub proof fn lemma_char_line(s: Seq<char>, c: int)
    requires
        0 <= c <= s.len(),
    ensures
        breaks_upto(s, c) < line_count_of(s),
        line_start(s, breaks_upto(s, c)) <= c,
        c <= line_start(s, breaks_upto(s, c) + 1),
        c < line_start(s, breaks_upto(s, c) + 1) || breaks_upto(s, c) + 1 == line_count_of(s),
        line_start(s, breaks_upto(s, c) + 1) <= s.len(),
{
    let l = breaks_upto(s, c);
    lemma_breaks_monotone(s, c, s.len() as int);
    lemma_line_start(s, l);
    let ls = line_start(s, l);
    if ls > c {
        lemma_breaks_monotone(s, c, ls - 1);
        assert(false);
    }
    if l + 1 < line_count_of(s) {
        lemma_line_start(s, l + 1);
        let ls1 = line_start(s, l + 1);
        if ls1 <= c {
            lemma_breaks_monotone(s, ls1, c);
        }
    } else {
        lemma_last_line_start(s);
    }
}

/// `Rope::from_str`: a rope that holds the characters of `text`.
#[verifier::external_body]
pub(crate) fn rope_from_str(text: &str) -> (r: Rope)
    ensures
        rope_chars(r) == text@,
{
    Rope::from_str(text)
}

/// `Rope::clone`: a rope with the same characters.
#[verifier::external_body]
pub(crate) fn rope_clone(r: &Rope) -> (c: Rope)
    ensures
        rope_chars(c) == rope_chars(*r),
{
    r.clone()
}

/// `Rope::len_chars`: the number of characters.
#[verifier::external_body]
pub(crate) fn rope_len_chars(r: &Rope) -> (n: usize)
    ensures
        n == rope_chars(*r).len(),
{
    r.len_chars()
}

/// `Rope::len_lines`: one more than the number of line breaks.
#[verifier::external_body]
pub(crate) fn rope_len_lines(r: &Rope) -> (n: usize)
    ensures
        n == line_count_of(rope_chars(*r)),
{
    r.len_lines()
}

/// `Rope::to_string` (through `Display`): the whole text.
#[verifier::external_body]
pub(crate) fn rope_to_string(r: &Rope) -> (s: String)
    ensures
        s@ == rope_chars(*r),
{
    r.to_string()
}

/// `Rope::line`, turned into a `String`: the characters of line `line`,
/// its line break included.
#[verifier::external_body]
pub(crate) fn rope_line(r: &Rope, line: usize) -> (s: String)
    requires
        line < line_count_of(rope_chars(*r)),
    ensures
        s@ == line_chars(rope_chars(*r), line as nat),
{
    r.line(line).to_string()
}

/// `Rope::slice`, turned into a `String`: the characters `start..end`.
#[verifier::external_body]
pub(crate) fn rope_slice(r: &Rope, start: usize, end: usize) -> (s: String)
    requires
        start <= end <= rope_chars(*r).len(),
    ensures
        s@ == rope_chars(*r).subrange(start as int, end as int),
{
    r.slice(start..end).to_string()
}

/// `Rope::char_to_line`: the number of line breaks before `char_idx`.
#[verifier::external_body]
pub(crate) fn rope_char_to_line(r: &Rope, char_idx: usize) -> (line: usize)
    requires
        char_idx <= rope_chars(*r).len(),
    ensures
        line == breaks_upto(rope_chars(*r), char_idx as int),
{
    r.char_to_line(char_idx)
}

/// `Rope::line_to_char`: where line `line` starts (one past the end for
/// `line == len_lines`).
#[verifier::external_body]
pub(crate) fn rope_line_to_char(r: &Rope, line: usize) -> (c: usize)
    requires
        line <= line_count_of(rope_chars(*r)),
    ensures
        c == line_start(rope_chars(*r), line as nat),
{
    r.line_to_char(line)
}

/// `Rope::insert`: `text` goes in at `char_idx`.
#[verifier::external_body]
pub(crate) fn rope_insert(r: &mut Rope, char_idx: usize, text: &str)
    requires
        char_idx <= rope_chars(*old(r)).len(),
    ensures
        rope_chars(*final(r)) == rope_chars(*old(r)).take(char_idx as int) + text@ + rope_chars(
            *old(r),
        ).skip(char_idx as int),
{
    r.insert(char_idx, text)
}

/// `Rope::remove`: the characters `start..end` go out.
#[verifier::external_body]
pub(crate) fn rope_remove(r: &mut Rope, start: usize, end: usize)
    requires
        start <= end <= rope_chars(*old(r)).len(),
    ensures
        rope_chars(*final(r)) == rope_chars(*old(r)).take(start as int) + rope_chars(
            *old(r),
        ).skip(end as int),
{
    r.remove(start..end)
}

} // verus!
