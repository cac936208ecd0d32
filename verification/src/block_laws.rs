//! What the marked block is and where it is found, said by the characters of the file.

use crate::block::{
    after_span, block_text, end_marker, marked_span, start_marker, with_block_replaced,
};
use crate::text::{
    find_from, first_at, last_from, lemma_find_from_none, lemma_last_from, occurs_at,
    without_final_newlines,
};
use crate::text_laws::{law_only_final_newlines_go, lemma_occurs};
use vstd::prelude::*;

verus! {

/// A marker holds the whole name of its hook, between two fixed texts.
pub proof fn law_markers_hold_the_name(hook: Seq<char>)
    ensures
        start_marker(hook).len() == hook.len() + 18,
        start_marker(hook).take(14) == "# >>> hookmgr "@,
        start_marker(hook).subrange(14, 14int + hook.len()) == hook,
        start_marker(hook).skip(14int + hook.len()) == " >>>"@,
        end_marker(hook).len() == hook.len() + 18,
        end_marker(hook).take(14) == "# <<< hookmgr "@,
        end_marker(hook).subrange(14, 14int + hook.len()) == hook,
        end_marker(hook).skip(14int + hook.len()) == " <<<"@,
{
    reveal_strlit("# >>> hookmgr ");
    reveal_strlit("# <<< hookmgr ");
    reveal_strlit(" >>>");
    reveal_strlit(" <<<");
}

/// A block opens with its start marker on a line of its own and closes with its end marker on a
/// line of its own. Between them it runs the hook by its name with git's arguments, and where
/// `hookmgr` is missing says so and lets the hook pass.
pub proof fn law_block_runs_its_hook(hook: Seq<char>)
    ensures
        block_text(hook) == ("# >>> hookmgr "@ + hook + " >>>"@)
            + "\n# Installed by `hookmgr install`. Safe to re-run to update this block in\n# place; do not hand-edit between the markers. The commands that actually\n# run live in "@
            + ".hookmgr.toml"@
            + ", not here.\nif command -v hookmgr >/dev/null 2>&1; then\nhookmgr run "@ + hook
            + " -- \"$@\"\nelse\necho \"hookmgr: not found on PATH, skipping "@ + hook
            + " checks\" >&2\nfi\n"@ + ("# <<< hookmgr "@ + hook + " <<<"@) + "\n"@,
{
}

/// The block that is found reaches from a start marker to the end of an end marker. No start
/// marker stands further down before that end marker, and no end marker further up has a start
/// marker before it. Where none is found, no end marker has a start marker before it.
pub proof fn law_block_is_the_first_that_is_closed(contents: Seq<char>, hook: Seq<char>)
    ensures
        ({
            let begin = "# >>> hookmgr "@ + hook + " >>>"@;
            let end = "# <<< hookmgr "@ + hook + " <<<"@;
            match marked_span(contents, hook) {
                Some(span) => {
                    let at = span.1 - end.len();
                    &&& 0 <= span.0 <= at
                    &&& span.1 <= contents.len()
                    &&& begin.is_prefix_of(contents.skip(span.0))
                    &&& end.is_prefix_of(contents.skip(at))
                    &&& forall|i: int|
                        span.0 < i <= at ==> !begin.is_prefix_of(#[trigger] contents.skip(i))
                    &&& forall|i: int, j: int|
                        0 <= i <= j < at && begin.is_prefix_of(#[trigger] contents.skip(i))
                            ==> !end.is_prefix_of(#[trigger] contents.skip(j))
                },
                None => forall|i: int, j: int|
                    0 <= i <= j <= contents.len() && begin.is_prefix_of(
                        #[trigger] contents.skip(i),
                    ) ==> !end.is_prefix_of(#[trigger] contents.skip(j)),
            }
        }),
{
    let begin = start_marker(hook);
    let end = end_marker(hook);
    assert forall|i: int| #![trigger contents.skip(i)] occurs_at(contents, begin, i) == (0 <= i
        <= contents.len() && begin.is_prefix_of(contents.skip(i))) && occurs_at(contents, end, i)
        == (0 <= i <= contents.len() && end.is_prefix_of(contents.skip(i))) by {
        lemma_occurs(contents, begin, i);
        lemma_occurs(contents, end, i);
    }
    lemma_find_from_none(contents, begin, 0);
    if let Some(first) = find_from(contents, begin, 0) {
        assert(first_at(contents, begin, 0, first));
        lemma_find_from_none(contents, end, first);
        if let Some(at) = find_from(contents, end, first) {
            assert(first_at(contents, end, first, at));
            lemma_last_from(contents, begin, first, at);
            let start = last_from(contents, begin, first, at);
            assert(occurs_at(contents, begin, start));
            assert(begin.is_prefix_of(contents.skip(start)));
            assert(end.is_prefix_of(contents.skip(at)));
        }
    }
}

/// What stands after a block: the rest of the file, without the line end that closes the line of
/// the end marker.
pub proof fn law_one_line_end_goes_with_the_block(contents: Seq<char>, span: (int, int))
    requires
        0 <= span.0 <= span.1 <= contents.len(),
    ensures
        after_span(contents, span) == if span.1 < contents.len() && contents[span.1] == '\n' {
            contents.skip(span.1 + 1)
        } else {
            contents.skip(span.1)
        },
{
    let rest = contents.skip(span.1);
    if rest.len() > 0 {
        assert(rest[0] == contents[span.1]);
        assert(rest.drop_first() == contents.skip(span.1 + 1));
    }
}

/// Where a block is swapped for another, what stands before it and after it stays. The new block
/// stands in its place whole, but for the line ends that close it, of which there is then one.
pub proof fn law_new_block_takes_the_place_of_the_old(
    contents: Seq<char>,
    hook: Seq<char>,
    new_block: Seq<char>,
)
    requires
        marked_span(contents, hook) is Some,
    ensures
        ({
            let (start, end) = marked_span(contents, hook).unwrap();
            let tail = if end < contents.len() && contents[end] == '\n' {
                contents.skip(end + 1)
            } else {
                contents.skip(end)
            };
            exists|kept: Seq<char>|
                {
                    &&& #[trigger] kept.is_prefix_of(new_block)
                    &&& forall|i: int|
                        kept.len() <= i < new_block.len() ==> #[trigger] new_block[i] == '\n'
                    &&& kept.len() > 0 ==> kept.last() != '\n'
                    &&& with_block_replaced(contents, (start, end), new_block) == contents.take(
                        start,
                    ) + kept + "\n"@ + tail
                }
        }),
{
    let (start, end) = marked_span(contents, hook).unwrap();
    law_block_is_the_first_that_is_closed(contents, hook);
    law_one_line_end_goes_with_the_block(contents, (start, end));
    law_only_final_newlines_go(new_block);
    let kept = without_final_newlines(new_block);
    assert(kept.is_prefix_of(new_block));
}

} // verus!
