//! Text as a sequence of characters: searching and trimming.

use vstd::prelude::*;

verus! {

/// `pattern` stands in `text` at position `at`.
pub open spec fn occurs_at(text: Seq<char>, pattern: Seq<char>, at: int) -> bool {
    &&& 0 <= at
    &&& at + pattern.len() <= text.len()
    &&& text.subrange(at, at + pattern.len()) == pattern
}

/// `at` is the first position, from `from` on, at which `pattern` stands in `text`.
pub open spec fn first_at(text: Seq<char>, pattern: Seq<char>, from: int, at: int) -> bool {
    &&& from <= at
    &&& occurs_at(text, pattern, at)
    &&& forall|i: int| from <= i < at ==> !occurs_at(text, pattern, i)
}

/// The first position, from `from` on, at which `pattern` stands in `text`.
pub open spec fn find_from(text: Seq<char>, pattern: Seq<char>, from: int) -> Option<int> {
    if exists|at: int| first_at(text, pattern, from, at) {
        Some(choose|at: int| first_at(text, pattern, from, at))
    } else {
        None
    }
}

/// The last position up to `at` at which `pattern` stands in `text`, or `from` where it stands
/// at none behind `from`.
pub open spec fn last_from(text: Seq<char>, pattern: Seq<char>, from: int, at: int) -> int
    decreases at - from,
{
    if at <= from || occurs_at(text, pattern, at) {
        at
    } else {
        last_from(text, pattern, from, at - 1)
    }
}

/// `last` is the last position from `from` up to `at` at which `pattern` stands in `text`.
pub open spec fn last_at(
    text: Seq<char>,
    pattern: Seq<char>,
    from: int,
    at: int,
    last: int,
) -> bool {
    &&& from <= last <= at
    &&& occurs_at(text, pattern, last)
    &&& forall|i: int| last < i <= at ==> !occurs_at(text, pattern, i)
}

/// Where the pattern stands at `from`, `last_from` gives the last occurrence.
pub(crate) proof fn lemma_last_from(text: Seq<char>, pattern: Seq<char>, from: int, at: int)
    requires
        from <= at,
        occurs_at(text, pattern, from),
    ensures
        last_at(text, pattern, from, at, last_from(text, pattern, from, at)),
    decreases at - from,
{
    if at > from && !occurs_at(text, pattern, at) {
        lemma_last_from(text, pattern, from, at - 1);
    }
}

/// A first occurrence is what `find_from` gives.
pub(crate) proof fn lemma_find_from_is(text: Seq<char>, pattern: Seq<char>, from: int, at: int)
    requires
        first_at(text, pattern, from, at),
    ensures
        find_from(text, pattern, from) == Some(at),
{
    let found = choose|i: int| first_at(text, pattern, from, i);
    if found < at {
        assert(!occurs_at(text, pattern, found));
    } else if at < found {
        assert(!occurs_at(text, pattern, at));
    }
}

/// `find_from` gives `None` exactly where the pattern stands nowhere from `from` on.
pub(crate) proof fn lemma_find_from_none(text: Seq<char>, pattern: Seq<char>, from: int)
    ensures
        find_from(text, pattern, from) is None <==> forall|i: int|
            from <= i ==> !occurs_at(text, pattern, i),
{
    if exists|i: int| from <= i && occurs_at(text, pattern, i) {
        let i = choose|i: int| from <= i && occurs_at(text, pattern, i);
        let at = lemma_first_exists(text, pattern, from, i);
        assert(first_at(text, pattern, from, at));
    }
}

/// Where a pattern stands at all, there is a first place at which it stands.
proof fn lemma_first_exists(text: Seq<char>, pattern: Seq<char>, from: int, i: int) -> (at: int)
    requires
        from <= i,
        occurs_at(text, pattern, i),
    ensures
        first_at(text, pattern, from, at),
        at <= i,
    decreases i - from,
{
    if exists|j: int| from <= j < i && occurs_at(text, pattern, j) {
        let j = choose|j: int| from <= j < i && occurs_at(text, pattern, j);
        lemma_first_exists(text, pattern, from, j)
    } else {
        i
    }
}

/// The characters with the Unicode property `White_Space`.
pub open spec fn white_space(c: char) -> bool {
    let code = c as u32;
    ||| 0x9 <= code <= 0xd
    ||| code == 0x20
    ||| code == 0x85
    ||| code == 0xa0
    ||| code == 0x1680
    ||| 0x2000 <= code <= 0x200a
    ||| code == 0x2028
    ||| code == 0x2029
    ||| code == 0x202f
    ||| code == 0x205f
    ||| code == 0x3000
}

/// `text` without the white space at its start.
pub open spec fn trimmed_start(text: Seq<char>) -> Seq<char>
    decreases text.len(),
{
    if text.len() > 0 && white_space(text[0]) {
        trimmed_start(text.drop_first())
    } else {
        text
    }
}

/// `text` without the white space at its end.
pub open spec fn trimmed_end(text: Seq<char>) -> Seq<char>
    decreases text.len(),
{
    if text.len() > 0 && white_space(text.last()) {
        trimmed_end(text.drop_last())
    } else {
        text
    }
}

/// `text` without the white space at either end.
pub open spec fn trimmed(text: Seq<char>) -> Seq<char> {
    trimmed_end(trimmed_start(text))
}

/// `text` without the line ends that close it.
pub open spec fn without_final_newlines(text: Seq<char>) -> Seq<char>
    decreases text.len(),
{
    if text.len() > 0 && text.last() == '\n' {
        without_final_newlines(text.drop_last())
    } else {
        text
    }
}

/// `text` without the line end that opens it, if one does.
pub open spec fn without_first_newline(text: Seq<char>) -> Seq<char> {
    if text.len() > 0 && text[0] == '\n' {
        text.drop_first()
    } else {
        text
    }
}

/// The characters of a string.
pub(crate) fn to_chars(s: &str) -> (chars: Vec<char>)
    ensures
        chars@ == s@,
{
    let mut chars: Vec<char> = Vec::new();
    for c in it: s.chars()
        invariant
            chars@ == s@.take(it.index()),
            it.seq() == s@,
    {
        assert(s@.take(it.index() + 1) == s@.take(it.index()).push(c));
        chars.push(c);
    }
    assert(s@.take(s@.len() as int) == s@);
    chars
}

/// Whether `pattern` stands in `text` at position `at`.
pub(crate) fn stands_at(text: &Vec<char>, pattern: &Vec<char>, at: usize) -> (r: bool)
    ensures
        r == occurs_at(text@, pattern@, at as int),
{
    if at > text.len() || pattern.len() > text.len() - at {
        return false;
    }
    let mut i: usize = 0;
    while i < pattern.len()
        invariant
            i <= pattern@.len(),
            at + pattern@.len() <= text.len(),
            forall|j: int| 0 <= j < i ==> text@[at + j] == pattern@[j],
        decreases pattern@.len() - i,
    {
        if text[at + i] != pattern[i] {
            assert(text@.subrange(at as int, at + pattern@.len())[i as int] != pattern@[i as int]);
            return false;
        }
        i += 1;
    }
    assert(text@.subrange(at as int, at + pattern@.len()) =~= pattern@);
    true
}

/// The first position, from `from` on, at which `pattern` stands in `text`.
pub(crate) fn find(text: &Vec<char>, pattern: &Vec<char>, from: usize) -> (r: Option<usize>)
    ensures
        match r {
            Some(at) => find_from(text@, pattern@, from as int) == Some(at as int) && first_at(
                text@,
                pattern@,
                from as int,
                at as int,
            ),
            None => find_from(text@, pattern@, from as int) is None,
        },
{
    if pattern.len() > text.len() {
        return None;
    }
    let last: usize = text.len() - pattern.len();
    let mut at: usize = from;
    while at <= last
        invariant
            last == text@.len() - pattern@.len(),
            from <= at,
            forall|i: int| from <= i < at ==> !occurs_at(text@, pattern@, i),
        decreases last + 1 - at,
    {
        if stands_at(text, pattern, at) {
            proof {
                lemma_find_from_is(text@, pattern@, from as int, at as int);
            }
            return Some(at);
        }
        if at == last {
            return None;
        }
        at += 1;
    }
    None
}

/// The last position from `from` up to `at` at which `pattern` stands in `text`.
pub(crate) fn find_last(
    text: &Vec<char>,
    pattern: &Vec<char>,
    from: usize,
    at: usize,
) -> (r: usize)
    requires
        from <= at,
    ensures
        r == last_from(text@, pattern@, from as int, at as int),
        from <= r <= at,
{
    let mut last: usize = at;
    while last > from && !stands_at(text, pattern, last)
        invariant
            from <= last <= at,
            last_from(text@, pattern@, from as int, at as int) == last_from(
                text@,
                pattern@,
                from as int,
                last as int,
            ),
        decreases last,
    {
        last -= 1;
    }
    last
}

/// Whether a character has the Unicode property `White_Space`.
pub fn is_white_space(c: char) -> (r: bool)
    ensures
        r == white_space(c),
{
    let code: u32 = c as u32;
    (0x9 <= code && code <= 0xd) || code == 0x20 || code == 0x85 || code == 0xa0 || code == 0x1680
        || (0x2000 <= code && code <= 0x200a) || code == 0x2028 || code == 0x2029 || code == 0x202f
        || code == 0x205f || code == 0x3000
}

/// `s` without the white space at either end.
pub fn trim(s: &str) -> (r: &str)
    ensures
        r@ == trimmed(s@),
{
    let chars = to_chars(s);
    let mut start: usize = 0;
    assert(s@.skip(0) == s@);
    while start < chars.len() && is_white_space(chars[start])
        invariant
            chars@ == s@,
            start <= s@.len(),
            trimmed_start(s@) == trimmed_start(s@.skip(start as int)),
        decreases s@.len() - start,
    {
        assert(s@.skip(start as int).drop_first() == s@.skip(start + 1));
        start += 1;
    }
    let ghost body = s@.skip(start as int);
    assert(trimmed_start(s@) == body);
    let mut end: usize = chars.len();
    assert(body == s@.subrange(start as int, end as int));
    while end > start && is_white_space(chars[end - 1])
        invariant
            chars@ == s@,
            start <= end <= s@.len(),
            trimmed_end(body) == trimmed_end(s@.subrange(start as int, end as int)),
        decreases end,
    {
        assert(s@.subrange(start as int, end as int).drop_last() == s@.subrange(
            start as int,
            end - 1,
        ));
        end -= 1;
    }
    s.substring_char(start, end)
}

/// `s` without the line ends that close it.
pub(crate) fn trim_final_newlines(s: &str) -> (r: &str)
    ensures
        r@ == without_final_newlines(s@),
{
    let chars = to_chars(s);
    let mut end: usize = chars.len();
    assert(s@.take(end as int) == s@);
    while end > 0 && chars[end - 1] == '\n'
        invariant
            chars@ == s@,
            end <= s@.len(),
            without_final_newlines(s@) == without_final_newlines(s@.take(end as int)),
        decreases end,
    {
        assert(s@.take(end as int).drop_last() == s@.take(end - 1));
        end -= 1;
    }
    assert(s@.subrange(0, end as int) == s@.take(end as int));
    s.substring_char(0, end)
}

} // verus!
