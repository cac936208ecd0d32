//! What searching and trimming give, said by the characters of the text.

use crate::text::{
    find_from, first_at, last_from, lemma_find_from_none, lemma_last_from, occurs_at, trimmed,
    trimmed_end, trimmed_start, white_space, without_final_newlines, without_first_newline,
};
use vstd::prelude::*;

verus! {

/// A pattern stands in a text at the positions from which on the text opens with the pattern.
pub(crate) proof fn lemma_occurs(text: Seq<char>, pattern: Seq<char>, at: int)
    ensures
        occurs_at(text, pattern, at) <==> 0 <= at <= text.len() && pattern.is_prefix_of(
            text.skip(at),
        ),
{
    if 0 <= at && at + pattern.len() <= text.len() {
        assert(text.skip(at).subrange(0, pattern.len() as int) == text.subrange(
            at,
            at + pattern.len(),
        ));
    }
}

/// A search gives the first position, from `from` on, from which on the text opens with the
/// pattern, and nothing exactly where there is no such position.
pub proof fn law_search_finds_the_first(text: Seq<char>, pattern: Seq<char>, from: int)
    requires
        0 <= from,
    ensures
        match find_from(text, pattern, from) {
            Some(at) => {
                &&& from <= at <= text.len()
                &&& pattern.is_prefix_of(text.skip(at))
                &&& forall|i: int|
                    from <= i < at ==> !pattern.is_prefix_of(#[trigger] text.skip(i))
            },
            None => forall|i: int|
                from <= i <= text.len() ==> !pattern.is_prefix_of(#[trigger] text.skip(i)),
        },
{
    lemma_find_from_none(text, pattern, from);
    assert forall|i: int| #![trigger text.skip(i)] occurs_at(text, pattern, i) <==> 0 <= i
        <= text.len() && pattern.is_prefix_of(text.skip(i)) by {
        lemma_occurs(text, pattern, i);
    }
    if let Some(at) = find_from(text, pattern, from) {
        assert(first_at(text, pattern, from, at));
        lemma_occurs(text, pattern, at);
    }
}

/// A search backwards gives the last position up to `at` from which on the text opens with the
/// pattern.
pub proof fn law_search_back_finds_the_last(
    text: Seq<char>,
    pattern: Seq<char>,
    from: int,
    at: int,
)
    requires
        0 <= from <= at <= text.len(),
        pattern.is_prefix_of(text.skip(from)),
    ensures
        ({
            let last = last_from(text, pattern, from, at);
            &&& from <= last <= at
            &&& pattern.is_prefix_of(text.skip(last))
            &&& forall|i: int| last < i <= at ==> !pattern.is_prefix_of(#[trigger] text.skip(i))
        }),
{
    lemma_occurs(text, pattern, from);
    lemma_last_from(text, pattern, from, at);
    let last = last_from(text, pattern, from, at);
    lemma_occurs(text, pattern, last);
    assert forall|i: int| last < i <= at implies !pattern.is_prefix_of(#[trigger] text.skip(i)) by {
        lemma_occurs(text, pattern, i);
    }
}

proof fn lemma_trimmed_start(text: Seq<char>) -> (from: int)
    ensures
        0 <= from <= text.len(),
        trimmed_start(text) == text.skip(from),
        forall|i: int| 0 <= i < from ==> white_space(#[trigger] text[i]),
        from < text.len() ==> !white_space(text[from]),
    decreases text.len(),
{
    if text.len() > 0 && white_space(text[0]) {
        let rest = text.drop_first();
        let from = lemma_trimmed_start(rest);
        assert(rest.skip(from) == text.skip(from + 1));
        assert forall|i: int| 0 <= i < from + 1 implies white_space(#[trigger] text[i]) by {
            if i > 0 {
                assert(text[i] == rest[i - 1]);
            }
        }
        from + 1
    } else {
        assert(text.skip(0) == text);
        0
    }
}

proof fn lemma_trimmed_end(text: Seq<char>) -> (end: int)
    ensures
        0 <= end <= text.len(),
        trimmed_end(text) == text.take(end),
        forall|i: int| end <= i < text.len() ==> white_space(#[trigger] text[i]),
        end > 0 ==> !white_space(text[end - 1]),
    decreases text.len(),
{
    if text.len() > 0 && white_space(text.last()) {
        let rest = text.drop_last();
        let end = lemma_trimmed_end(rest);
        assert(rest.take(end) == text.take(end));
        assert forall|i: int| end <= i < text.len() implies white_space(#[trigger] text[i]) by {
            if i < text.len() - 1 {
                assert(text[i] == rest[i]);
            }
        }
        end
    } else {
        assert(text.take(text.len() as int) == text);
        text.len() as int
    }
}

/// Where what is left of a text without the white space at its ends stands in the text.
pub(crate) proof fn lemma_trimmed(text: Seq<char>) -> (kept: (int, int))
    ensures
        0 <= kept.0 <= kept.1 <= text.len(),
        trimmed(text) == text.subrange(kept.0, kept.1),
        forall|i: int|
            0 <= i < text.len() && !(kept.0 <= i < kept.1) ==> white_space(#[trigger] text[i]),
        kept.0 < kept.1 ==> !white_space(text[kept.0]) && !white_space(text[kept.1 - 1]),
{
    let from = lemma_trimmed_start(text);
    let rest = text.skip(from);
    let end = lemma_trimmed_end(rest);
    assert(rest.take(end) == text.subrange(from, from + end));
    assert forall|i: int| 0 <= i < text.len() && !(from <= i < from + end) implies white_space(
        #[trigger] text[i],
    ) by {
        if i >= from {
            assert(text[i] == rest[i - from]);
        }
    }
    if end > 0 {
        assert(text[from + end - 1] == rest[end - 1]);
        assert(text[from] == rest[0]);
    }
    (from, from + end)
}

/// Trimming keeps one stretch of the text: all that it takes away is white space, and the
/// stretch neither opens nor closes with any.
pub proof fn law_trim_takes_only_white_space(text: Seq<char>)
    ensures
        exists|from: int, end: int|
            {
                &&& 0 <= from <= end <= text.len()
                &&& trimmed(text) == #[trigger] text.subrange(from, end)
                &&& forall|i: int| 0 <= i < from ==> white_space(#[trigger] text[i])
                &&& forall|i: int| end <= i < text.len() ==> white_space(#[trigger] text[i])
                &&& from < end ==> !white_space(text[from]) && !white_space(text[end - 1])
            },
{
    let (from, end) = lemma_trimmed(text);
    assert(trimmed(text) == text.subrange(from, end));
}

/// Of a text without its final line ends nothing is lost but line ends, and no line end closes
/// it.
pub proof fn law_only_final_newlines_go(text: Seq<char>)
    ensures
        ({
            let kept = without_final_newlines(text);
            &&& kept.is_prefix_of(text)
            &&& forall|i: int| kept.len() <= i < text.len() ==> #[trigger] text[i] == '\n'
            &&& kept.len() > 0 ==> kept.last() != '\n'
        }),
    decreases text.len(),
{
    if text.len() > 0 && text.last() == '\n' {
        let rest = text.drop_last();
        law_only_final_newlines_go(rest);
        assert(without_final_newlines(text) == text.subrange(
            0,
            without_final_newlines(text).len() as int,
        ));
        assert forall|i: int|
            without_final_newlines(text).len() <= i < text.len() implies #[trigger] text[i]
            == '\n' by {
            if i < text.len() - 1 {
                assert(text[i] == rest[i]);
            }
        }
    } else {
        assert(text == text.subrange(0, text.len() as int));
    }
}

/// A text loses at most one line end at its start.
pub proof fn law_one_first_newline_goes(text: Seq<char>)
    ensures
        text.len() > 0 && text[0] == '\n' ==> without_first_newline(text) == text.skip(1),
        text.len() == 0 || text[0] != '\n' ==> without_first_newline(text) == text,
{
}

} // verus!
