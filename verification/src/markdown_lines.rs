//! Line predicates of the markdown block scanner: each one reads a line with
//! its leading whitespace removed (`v[from..]`).
use crate::text::{
    char_is_ws, find_char, has_prefix, has_prefix_at, is_ws, leading_ws, lemma_find_char,
    lemma_leading_ws_bound, skip_ws, skip_ws_back, trim, trim_start,
};
use vstd::prelude::*;

verus! {

/// The number of leading characters equal to `c`.
pub open spec fn leading_count(s: Seq<char>, c: char) -> nat
    decreases s.len(),
{
    if s.len() > 0 && s[0] == c {
        1 + leading_count(s.drop_first(), c)
    } else {
        0
    }
}

/// The number of trailing characters equal to `c`.
pub open spec fn trailing_count(s: Seq<char>, c: char) -> nat
    decreases s.len(),
{
    if s.len() > 0 && s.last() == c {
        1 + trailing_count(s.drop_last(), c)
    } else {
        0
    }
}

/// `str::trim_end_matches(c)`.
pub open spec fn trim_end_char(s: Seq<char>, c: char) -> Seq<char> {
    s.take(s.len() - trailing_count(s, c))
}

/// An ATX heading: one to six `#` followed by whitespace; the title is the
/// rest, trimmed, without closing `#`s, trimmed again.
pub open spec fn heading_spec(t: Seq<char>) -> Option<(u8, Seq<char>)> {
    let level = leading_count(t, '#');
    let rest = t.skip(level as int);
    if 1 <= level <= 6 && rest.len() > 0 && is_ws(rest[0]) {
        Some((level as u8, trim(trim_end_char(trim(rest), '#'))))
    } else {
        None
    }
}

pub open spec fn backtick_fence() -> Seq<char> {
    seq!['`', '`', '`']
}

pub open spec fn tilde_fence() -> Seq<char> {
    seq!['~', '~', '~']
}

/// The number of times `p` repeats at the start of `s`.
pub open spec fn prefix_repeats(s: Seq<char>, p: Seq<char>) -> nat
    decreases s.len(),
{
    if p.len() > 0 && has_prefix(s, p) {
        1 + prefix_repeats(s.skip(p.len() as int), p)
    } else {
        0
    }
}

/// The first whitespace-separated word of `s`, if any.
pub open spec fn first_word(s: Seq<char>) -> Option<Seq<char>> {
    let rest = s.skip(leading_ws(s) as int);
    if rest.len() == 0 {
        None
    } else {
        Some(rest.take(word_len(rest) as int))
    }
}

/// The number of leading non-whitespace characters.
pub open spec fn word_len(s: Seq<char>) -> nat
    decreases s.len(),
{
    if s.len() > 0 && !is_ws(s[0]) {
        1 + word_len(s.drop_first())
    } else {
        0
    }
}

/// An opening code fence (three backticks or tildes); the language is the
/// first word after the repeated fence marks.
pub open spec fn fence_spec(t: Seq<char>) -> Option<Option<Seq<char>>> {
    if has_prefix(t, backtick_fence()) {
        Some(first_word(t.skip((3 * prefix_repeats(t, backtick_fence())) as int)))
    } else if has_prefix(t, tilde_fence()) {
        Some(first_word(t.skip((3 * prefix_repeats(t, tilde_fence())) as int)))
    } else {
        None
    }
}

pub open spec fn is_closing_fence_spec(t: Seq<char>) -> bool {
    has_prefix(t, backtick_fence()) || has_prefix(t, tilde_fence())
}

/// The number of non-whitespace characters.
pub open spec fn non_ws_count(s: Seq<char>) -> nat
    decreases s.len(),
{
    if s.len() == 0 {
        0
    } else {
        non_ws_count(s.drop_last()) + if is_ws(s.last()) {
            0nat
        } else {
            1nat
        }
    }
}

/// A thematic break: at least three non-whitespace characters, all the same
/// one of `-`, `_`, `*`.
pub open spec fn is_rule_spec(t: Seq<char>) -> bool {
    let first = t[leading_ws(t) as int];
    &&& non_ws_count(t) >= 3
    &&& (first == '-' || first == '_' || first == '*')
    &&& forall|i: int| 0 <= i < t.len() && !is_ws(#[trigger] t[i]) ==> t[i] == first
}

pub open spec fn table_char(c: char) -> bool {
    c == '|' || c == '-' || c == ':' || c == ' ' || c == '\t'
}

/// A table delimiter row: only `|`, `-`, `:`, space and tab, with at least
/// one `|` and one `-`.
pub open spec fn is_table_separator_spec(t: Seq<char>) -> bool {
    &&& t.contains('|')
    &&& forall|i: int| 0 <= i < t.len() ==> table_char(#[trigger] t[i])
    &&& t.contains('-')
}

pub open spec fn task_prefix(c: char, mark: char) -> Seq<char> {
    seq![c, ' ', '[', mark, ']', ' ']
}

/// A task list item: `- [ ] `, `- [x] `, `- [X] ` or the same with `*`.
pub open spec fn is_task_list_spec(t: Seq<char>) -> bool {
    ||| has_prefix(t, task_prefix('-', ' '))
    ||| has_prefix(t, task_prefix('-', 'x'))
    ||| has_prefix(t, task_prefix('-', 'X'))
    ||| has_prefix(t, task_prefix('*', ' '))
    ||| has_prefix(t, task_prefix('*', 'x'))
    ||| has_prefix(t, task_prefix('*', 'X'))
}

pub open spec fn is_ascii_digit(c: char) -> bool {
    '0' <= c && c <= '9'
}

/// An ordered list item: digits, a `.`, then whitespace.
pub open spec fn is_ordered_item(t: Seq<char>) -> bool {
    let d = find_char(t, '.') as int;
    &&& d < t.len()
    &&& d > 0
    &&& forall|i: int| 0 <= i < d ==> is_ascii_digit(#[trigger] t[i])
    &&& d + 1 < t.len()
    &&& is_ws(t[d + 1])
}

/// A list item: `- `, `* `, `+ `, or an ordered item.
pub open spec fn is_list_spec(t: Seq<char>) -> bool {
    ||| has_prefix(t, seq!['-', ' '])
    ||| has_prefix(t, seq!['*', ' '])
    ||| has_prefix(t, seq!['+', ' '])
    ||| is_ordered_item(t)
}

/// A line that starts a block other than a paragraph or a table.
pub open spec fn starts_block_spec(t: Seq<char>) -> bool {
    ||| heading_spec(t) is Some
    ||| fence_spec(t) is Some
    ||| is_rule_spec(t)
    ||| has_prefix(t, seq!['>'])
    ||| is_task_list_spec(t)
    ||| is_list_spec(t)
    ||| has_prefix(t, seq!['<'])
}

proof fn lemma_leading_count(s: Seq<char>, c: char)
    ensures
        leading_count(s, c) <= s.len(),
        forall|i: int| 0 <= i < leading_count(s, c) ==> #[trigger] s[i] == c,
        leading_count(s, c) < s.len() ==> s[leading_count(s, c) as int] != c,
    decreases s.len(),
{
    if s.len() > 0 && s[0] == c {
        lemma_leading_count(s.drop_first(), c);
        assert forall|i: int| 0 <= i < leading_count(s, c) implies #[trigger] s[i] == c by {
            if i > 0 {
                assert(s[i] == s.drop_first()[i - 1]);
            }
        }
        if leading_count(s, c) < s.len() {
            assert(s[leading_count(s, c) as int] == s.drop_first()[leading_count(
                s.drop_first(),
                c,
            ) as int]);
        }
    }
}

proof fn lemma_trailing_count(s: Seq<char>, c: char)
    ensures
        trailing_count(s, c) <= s.len(),
        forall|i: int| s.len() - trailing_count(s, c) <= i < s.len() ==> #[trigger] s[i] == c,
        trailing_count(s, c) < s.len() ==> s[s.len() - trailing_count(s, c) - 1] != c,
    decreases s.len(),
{
    if s.len() > 0 && s.last() == c {
        lemma_trailing_count(s.drop_last(), c);
        assert forall|i: int| s.len() - trailing_count(s, c) <= i < s.len() implies #[trigger] s[i]
            == c by {
            if i < s.len() - 1 {
                assert(s[i] == s.drop_last()[i]);
            }
        }
        if trailing_count(s, c) < s.len() {
            assert(s[s.len() - trailing_count(s, c) - 1] == s.drop_last()[s.drop_last().len()
                - trailing_count(s.drop_last(), c) - 1]);
        }
    }
}

pub proof fn lemma_word_len(s: Seq<char>)
    ensures
        word_len(s) <= s.len(),
        forall|i: int| 0 <= i < word_len(s) ==> !is_ws(#[trigger] s[i]),
        word_len(s) < s.len() ==> is_ws(s[word_len(s) as int]),
    decreases s.len(),
{
    if s.len() > 0 && !is_ws(s[0]) {
        lemma_word_len(s.drop_first());
        assert forall|i: int| 0 <= i < word_len(s) implies !is_ws(#[trigger] s[i]) by {
            if i > 0 {
                assert(s[i] == s.drop_first()[i - 1]);
            }
        }
        if word_len(s) < s.len() {
            assert(s[word_len(s) as int] == s.drop_first()[word_len(s.drop_first()) as int]);
        }
    }
}

/// Index just past the run of `c` that starts at `from` in `v[..to]`.
fn skip_char(v: &Vec<char>, from: usize, to: usize, c: char) -> (r: usize)
    requires
        from <= to <= v.len(),
    ensures
        r == from + leading_count(v@.subrange(from as int, to as int), c),
        from <= r <= to,
{
    let ghost s = v@.subrange(from as int, to as int);
    proof {
        lemma_leading_count(s, c);
    }
    let mut i = from;
    while i < to && v[i] == c
        invariant
            from <= i <= to <= v.len(),
            i - from <= leading_count(s, c),
            s == v@.subrange(from as int, to as int),
            leading_count(s, c) <= s.len(),
            forall|k: int| 0 <= k < leading_count(s, c) ==> #[trigger] s[k] == c,
            leading_count(s, c) < s.len() ==> s[leading_count(s, c) as int] != c,
        decreases to - i,
    {
        assert(s[i - from] == v@[i as int]);
        i += 1;
    }
    if i < to {
        assert(s[i - from] == v@[i as int]);
    }
    i
}

/// Index where the run of `c` that ends at `to` in `v[from..]` begins.
pub fn skip_char_back(v: &Vec<char>, from: usize, to: usize, c: char) -> (r: usize)
    requires
        from <= to <= v.len(),
    ensures
        r == to - trailing_count(v@.subrange(from as int, to as int), c),
        from <= r <= to,
{
    let ghost s = v@.subrange(from as int, to as int);
    proof {
        lemma_trailing_count(s, c);
    }
    let mut i = to;
    while i > from && v[i - 1] == c
        invariant
            from <= i <= to <= v.len(),
            to - i <= trailing_count(s, c),
            s == v@.subrange(from as int, to as int),
            trailing_count(s, c) <= s.len(),
            forall|k: int| s.len() - trailing_count(s, c) <= k < s.len() ==> #[trigger] s[k] == c,
            trailing_count(s, c) < s.len() ==> s[s.len() - trailing_count(s, c) - 1] != c,
        decreases i - from,
    {
        assert(s[i - 1 - from] == v@[i - 1]);
        i -= 1;
    }
    if i > from {
        assert(s[i - 1 - from] == v@[i - 1]);
    }
    i
}


/// Whether `v[from..to]` holds `c`.
pub fn contains_char(v: &Vec<char>, from: usize, to: usize, c: char) -> (b: bool)
    requires
        from <= to <= v.len(),
    ensures
        b == v@.subrange(from as int, to as int).contains(c),
{
    let mut i = from;
    while i < to
        invariant
            from <= i <= to <= v.len(),
            forall|k: int| from <= k < i ==> v@[k] != c,
        decreases to - i,
    {
        if v[i] == c {
            assert(v@.subrange(from as int, to as int)[i - from] == c);
            return true;
        }
        i += 1;
    }
    proof {
        if v@.subrange(from as int, to as int).contains(c) {
            let k = choose|k: int|
                0 <= k < v@.subrange(from as int, to as int).len() && v@.subrange(
                    from as int,
                    to as int,
                )[k] == c;
            assert(v@[from + k] == c);
        }
    }
    false
}

/// `heading_spec` of `v[from..]`.
pub fn heading(v: &Vec<char>, from: usize) -> (r: Option<(u8, String)>)
    requires
        from <= v.len(),
    ensures
        r is None ==> heading_spec(v@.skip(from as int)) is None,
        r matches Some((level, title)) ==> heading_spec(v@.skip(from as int)) == Some(
            (level, title@),
        ),
{
    let len = v.len();
    let ghost t = v@.skip(from as int);
    assert(v@.subrange(from as int, len as int) == t);
    let level_end = skip_char(v, from, len, '#');
    let level = level_end - from;
    if !(1 <= level && level <= 6) {
        return None;
    }
    let ghost rest = t.skip(level as int);
    assert(rest =~= v@.subrange(level_end as int, len as int));
    if !(level_end < len && char_is_ws(v[level_end])) {
        return None;
    }
    let a = skip_ws(v, level_end, len);
    assert(trim_start(rest) =~= v@.subrange(a as int, len as int));
    let b = skip_ws_back(v, a, len);
    assert(trim(rest) =~= v@.subrange(a as int, b as int));
    let c = skip_char_back(v, a, b, '#');
    assert(trim_end_char(trim(rest), '#') =~= v@.subrange(a as int, c as int));
    let a2 = skip_ws(v, a, c);
    let b2 = skip_ws_back(v, a2, c);
    assert(trim_start(trim_end_char(trim(rest), '#')) =~= v@.subrange(a2 as int, c as int));
    assert(trim(trim_end_char(trim(rest), '#')) =~= v@.subrange(a2 as int, b2 as int));
    let title = crate::text::string_from_range(v, a2, b2);
    Some((level as u8, title))
}

/// `first_word` of `v[from..]`, as a string.
fn first_word_at(v: &Vec<char>, from: usize) -> (r: Option<String>)
    requires
        from <= v.len(),
    ensures
        r is None ==> first_word(v@.skip(from as int)) is None,
        r matches Some(w) ==> first_word(v@.skip(from as int)) == Some(w@),
{
    let len = v.len();
    let ghost s = v@.skip(from as int);
    assert(v@.subrange(from as int, len as int) == s);
    let a = skip_ws(v, from, len);
    if a == len {
        return None;
    }
    let ghost rest = v@.subrange(a as int, len as int);
    assert(s.skip(leading_ws(s) as int) =~= rest);
    proof {
        lemma_word_len(rest);
    }
    let mut e = a;
    while e < len && !char_is_ws(v[e])
        invariant
            a <= e <= len == v.len(),
            e - a <= word_len(rest),
            rest == v@.subrange(a as int, len as int),
            word_len(rest) <= rest.len(),
            forall|i: int| 0 <= i < word_len(rest) ==> !is_ws(#[trigger] rest[i]),
            word_len(rest) < rest.len() ==> is_ws(rest[word_len(rest) as int]),
        decreases len - e,
    {
        assert(rest[e - a] == v@[e as int]);
        e += 1;
    }
    if e < len {
        assert(rest[e - a] == v@[e as int]);
    }
    assert(rest.take(word_len(rest) as int) =~= v@.subrange(a as int, e as int));
    Some(crate::text::string_from_range(v, a, e))
}

/// Index past the repeats of the three-character fence `p` from `from`.
fn skip_fences(v: &Vec<char>, from: usize, p: &[char]) -> (r: usize)
    requires
        from <= v.len(),
        p@.len() == 3,
    ensures
        from <= r <= v.len(),
        r == from + 3 * prefix_repeats(v@.skip(from as int), p@),
{
    let mut j = from;
    while has_prefix_at(v, j, p)
        invariant
            from <= j <= v.len(),
            p@.len() == 3,
            prefix_repeats(v@.skip(from as int), p@) == (j - from) / 3 + prefix_repeats(
                v@.skip(j as int),
                p@,
            ),
            (j - from) % 3 == 0,
        decreases v.len() - j,
    {
        assert(v@.skip(j as int).skip(3) =~= v@.skip(j + 3));
        j += 3;
    }
    j
}

/// `fence_spec` of `v[from..]`.
pub fn fence_language(v: &Vec<char>, from: usize) -> (r: Option<Option<String>>)
    requires
        from <= v.len(),
    ensures
        r is None ==> fence_spec(v@.skip(from as int)) is None,
        r matches Some(None) ==> fence_spec(v@.skip(from as int)) == Some(None::<Seq<char>>),
        r matches Some(Some(w)) ==> fence_spec(v@.skip(from as int)) == Some(Some(w@)),
{
    let backticks: [char; 3] = ['`', '`', '`'];
    let tildes: [char; 3] = ['~', '~', '~'];
    assert(backticks@ == backtick_fence());
    assert(tildes@ == tilde_fence());
    let fence: &[char] = if has_prefix_at(v, from, &backticks) {
        &backticks
    } else if has_prefix_at(v, from, &tildes) {
        &tildes
    } else {
        return None;
    };
    let j = skip_fences(v, from, fence);
    assert(v@.skip(from as int).skip(j - from) =~= v@.skip(j as int));
    Some(first_word_at(v, j))
}

/// `is_closing_fence_spec` of `v[from..]`.
pub fn is_closing_fence(v: &Vec<char>, from: usize) -> (b: bool)
    requires
        from <= v.len(),
    ensures
        b == is_closing_fence_spec(v@.skip(from as int)),
{
    let backticks: [char; 3] = ['`', '`', '`'];
    let tildes: [char; 3] = ['~', '~', '~'];
    assert(backticks@ == backtick_fence());
    assert(tildes@ == tilde_fence());
    has_prefix_at(v, from, &backticks) || has_prefix_at(v, from, &tildes)
}

/// `is_rule_spec` of `v[from..]`.
pub fn is_rule(v: &Vec<char>, from: usize) -> (b: bool)
    requires
        from <= v.len(),
    ensures
        b == is_rule_spec(v@.skip(from as int)),
{
    let len = v.len();
    let ghost t = v@.skip(from as int);
    assert(v@.subrange(from as int, len as int) == t);
    proof {
        lemma_leading_ws_bound(t);
    }
    let a = skip_ws(v, from, len);
    if a == len {
        proof {
            lemma_non_ws_count_zero(t);
        }
        return false;
    }
    let first = v[a];
    assert(first == t[leading_ws(t) as int]);
    let mut count: usize = 0;
    let mut same = true;
    let mut i = from;
    while i < len
        invariant
            from <= i <= len == v.len(),
            t == v@.skip(from as int),
            count == non_ws_count(t.take(i - from)),
            count <= i - from,
            same == (forall|k: int| 0 <= k < i - from && !is_ws(#[trigger] t[k]) ==> t[k] == first),
        decreases len - i,
    {
        assert(t.take(i - from + 1).drop_last() =~= t.take(i - from));
        assert(t[i - from] == v@[i as int]);
        if !char_is_ws(v[i]) {
            count += 1;
            if v[i] != first {
                same = false;
            }
        }
        i += 1;
    }
    assert(t.take(len - from) =~= t);
    count >= 3 && (first == '-' || first == '_' || first == '*') && same
}

proof fn lemma_non_ws_count_zero(t: Seq<char>)
    requires
        forall|i: int| 0 <= i < t.len() ==> is_ws(#[trigger] t[i]),
    ensures
        non_ws_count(t) == 0,
    decreases t.len(),
{
    if t.len() > 0 {
        assert forall|i: int| 0 <= i < t.drop_last().len() implies is_ws(
            #[trigger] t.drop_last()[i],
        ) by {
            assert(t.drop_last()[i] == t[i]);
        }
        lemma_non_ws_count_zero(t.drop_last());
        assert(is_ws(t[t.len() - 1]));
    }
}

/// `is_table_separator_spec` of `v[from..to]`.
pub fn is_table_separator(v: &Vec<char>, from: usize, to: usize) -> (b: bool)
    requires
        from <= to <= v.len(),
    ensures
        b == is_table_separator_spec(v@.subrange(from as int, to as int)),
{
    let ghost t = v@.subrange(from as int, to as int);
    if !contains_char(v, from, to, '|') {
        return false;
    }
    let mut i = from;
    while i < to
        invariant
            from <= i <= to <= v.len(),
            t == v@.subrange(from as int, to as int),
            forall|k: int| 0 <= k < i - from ==> table_char(#[trigger] t[k]),
        decreases to - i,
    {
        let c = v[i];
        assert(t[i - from] == c);
        if !(c == '|' || c == '-' || c == ':' || c == ' ' || c == '\t') {
            return false;
        }
        i += 1;
    }
    contains_char(v, from, to, '-')
}

/// `is_task_list_spec` of `v[from..]`.
pub fn is_task_list(v: &Vec<char>, from: usize) -> (b: bool)
    requires
        from <= v.len(),
    ensures
        b == is_task_list_spec(v@.skip(from as int)),
{
    let p1: [char; 6] = ['-', ' ', '[', ' ', ']', ' '];
    let p2: [char; 6] = ['-', ' ', '[', 'x', ']', ' '];
    let p3: [char; 6] = ['-', ' ', '[', 'X', ']', ' '];
    let p4: [char; 6] = ['*', ' ', '[', ' ', ']', ' '];
    let p5: [char; 6] = ['*', ' ', '[', 'x', ']', ' '];
    let p6: [char; 6] = ['*', ' ', '[', 'X', ']', ' '];
    assert(p1@ == task_prefix('-', ' '));
    assert(p2@ == task_prefix('-', 'x'));
    assert(p3@ == task_prefix('-', 'X'));
    assert(p4@ == task_prefix('*', ' '));
    assert(p5@ == task_prefix('*', 'x'));
    assert(p6@ == task_prefix('*', 'X'));
    has_prefix_at(v, from, &p1) || has_prefix_at(v, from, &p2) || has_prefix_at(v, from, &p3)
        || has_prefix_at(v, from, &p4) || has_prefix_at(v, from, &p5) || has_prefix_at(
        v,
        from,
        &p6,
    )
}

/// `is_list_spec` of `v[from..]`.
pub fn is_list(v: &Vec<char>, from: usize) -> (b: bool)
    requires
        from <= v.len(),
    ensures
        b == is_list_spec(v@.skip(from as int)),
{
    let dash: [char; 2] = ['-', ' '];
    let star: [char; 2] = ['*', ' '];
    let plus: [char; 2] = ['+', ' '];
    assert(dash@ == seq!['-', ' ']);
    assert(star@ == seq!['*', ' ']);
    assert(plus@ == seq!['+', ' ']);
    if has_prefix_at(v, from, &dash) || has_prefix_at(v, from, &star) || has_prefix_at(
        v,
        from,
        &plus,
    ) {
        return true;
    }
    let len = v.len();
    let ghost t = v@.skip(from as int);
    proof {
        lemma_find_char(t, '.');
    }
    let mut d = from;
    let mut digits = true;
    while d < len && v[d] != '.'
        invariant
            from <= d <= len == v.len(),
            t == v@.skip(from as int),
            d - from <= find_char(t, '.'),
            find_char(t, '.') <= t.len(),
            forall|k: int| 0 <= k < find_char(t, '.') ==> #[trigger] t[k] != '.',
            find_char(t, '.') < t.len() ==> t[find_char(t, '.') as int] == '.',
            digits == (forall|k: int| 0 <= k < d - from ==> is_ascii_digit(#[trigger] t[k])),
        decreases len - d,
    {
        assert(t[d - from] == v@[d as int]);
        if !('0' <= v[d] && v[d] <= '9') {
            digits = false;
        }
        d += 1;
    }
    if d < len {
        assert(t[d - from] == v@[d as int]);
    }
    if d == len {
        return false;
    }
    d > from && digits && d + 1 < len && char_is_ws(v[d + 1])
}

/// `starts_block_spec` of `v[from..]`.
pub fn starts_block(v: &Vec<char>, from: usize) -> (b: bool)
    requires
        from <= v.len(),
    ensures
        b == starts_block_spec(v@.skip(from as int)),
{
    let quote: [char; 1] = ['>'];
    let angle: [char; 1] = ['<'];
    assert(quote@ == seq!['>']);
    assert(angle@ == seq!['<']);
    heading(v, from).is_some() || fence_language(v, from).is_some() || is_rule(v, from)
        || has_prefix_at(v, from, &quote) || is_task_list(v, from) || is_list(v, from)
        || has_prefix_at(v, from, &angle)
}

/// A line that starts with `- `, `* ` or `+ ` is a list item, and so is one
/// that starts with digits, a `.` and whitespace.
pub proof fn law_list_markers(t: Seq<char>)
    ensures
        has_prefix(t, seq!['-', ' ']) ==> is_list_spec(t),
        has_prefix(t, seq!['*', ' ']) ==> is_list_spec(t),
        has_prefix(t, seq!['+', ' ']) ==> is_list_spec(t),
        is_ordered_item(t) ==> is_list_spec(t),
{
}

/// The count of leading `c`s is `n` when `n` of them lead and the next
/// character (if any) is another.
proof fn lemma_leading_count_is(s: Seq<char>, c: char, n: int)
    requires
        0 <= n <= s.len(),
        forall|i: int| 0 <= i < n ==> s[i] == c,
        n < s.len() ==> s[n] != c,
    ensures
        leading_count(s, c) == n,
{
    lemma_leading_count(s, c);
    let k = leading_count(s, c) as int;
    if k < n {
        assert(s[k] == c);
    } else if k > n {
        assert(s[n] == c);
    }
}

/// One to six `#`s followed by whitespace open a heading of that level;
/// seven or more `#`s, or `#`s followed by anything but whitespace, do not.
pub proof fn law_heading_levels(t: Seq<char>, n: int)
    requires
        0 <= n <= t.len(),
        forall|i: int| 0 <= i < n ==> t[i] == '#',
        n < t.len() ==> t[n] != '#',
    ensures
        1 <= n <= 6 && n < t.len() && is_ws(t[n]) ==> (heading_spec(t) matches Some((level, _))
            && level == n),
        n > 6 || n == 0 || n == t.len() || !is_ws(t[n]) ==> heading_spec(t) is None,
{
    lemma_leading_count_is(t, '#', n);
    if n < t.len() {
        assert(t.skip(n)[0] == t[n]);
    }
}

/// A line that starts with `- ` or `* ` and then `[ ]`, `[x]` or `[X]` and a
/// space is a task list item.
pub proof fn law_task_markers(t: Seq<char>, marker: char, mark: char)
    requires
        marker == '-' || marker == '*',
        mark == ' ' || mark == 'x' || mark == 'X',
        has_prefix(t, task_prefix(marker, mark)),
    ensures
        is_task_list_spec(t),
{
}

/// Three backticks or three tildes open a code fence, whose language is the
/// first word after the fence marks.
pub proof fn law_fence_markers(t: Seq<char>)
    ensures
        has_prefix(t, backtick_fence()) ==> fence_spec(t) is Some,
        has_prefix(t, tilde_fence()) ==> fence_spec(t) is Some,
        !has_prefix(t, backtick_fence()) && !has_prefix(t, tilde_fence()) ==> fence_spec(t) is None,
{
}

} // verus!
