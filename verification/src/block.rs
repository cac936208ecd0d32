//! The marked block that a dispatcher occupies in a hook file.

use crate::config::CONFIG_FILENAME;
use crate::text::{
    find, find_from, find_last, last_from, to_chars, trim_final_newlines, without_final_newlines,
    without_first_newline,
};
use vstd::prelude::*;

verus! {

/// The line that opens the block of a hook.
pub open spec fn start_marker(hook: Seq<char>) -> Seq<char> {
    "# >>> hookmgr "@ + hook + " >>>"@
}

/// The line that closes the block of a hook.
pub open spec fn end_marker(hook: Seq<char>) -> Seq<char> {
    "# <<< hookmgr "@ + hook + " <<<"@
}

/// The whole block of a hook, both markers and the final line end with it.
pub open spec fn block_text(hook: Seq<char>) -> Seq<char> {
    start_marker(hook)
        + "\n# Installed by `hookmgr install`. Safe to re-run to update this block in\n# place; do not hand-edit between the markers. The commands that actually\n# run live in "@
        + CONFIG_FILENAME@
        + ", not here.\nif command -v hookmgr >/dev/null 2>&1; then\nhookmgr run "@ + hook
        + " -- \"$@\"\nelse\necho \"hookmgr: not found on PATH, skipping "@ + hook
        + " checks\" >&2\nfi\n"@ + end_marker(hook) + "\n"@
}

/// Where the block of a hook stands in a hook file: up to the end of the first end marker that
/// has a start marker before it, from the last such start marker on. A start marker further up
/// has no end marker of its own, and is other content. `None` where there is no such end marker.
pub open spec fn marked_span(contents: Seq<char>, hook: Seq<char>) -> Option<(int, int)> {
    match find_from(contents, start_marker(hook), 0) {
        Some(first) => match find_from(contents, end_marker(hook), first) {
            Some(at) => Some(
                (
                    last_from(contents, start_marker(hook), first, at),
                    (at + end_marker(hook).len()) as int,
                ),
            ),
            None => None,
        },
        None => None,
    }
}

/// What stands before the marked block.
pub open spec fn before_span(contents: Seq<char>, span: (int, int)) -> Seq<char> {
    contents.take(span.0)
}

/// What stands after the marked block and the line end that closes its last line.
pub open spec fn after_span(contents: Seq<char>, span: (int, int)) -> Seq<char> {
    without_first_newline(contents.skip(span.1))
}

/// `contents` with the marked block at `span` swapped for `new_block`, which is closed by
/// exactly one line end.
pub open spec fn with_block_replaced(
    contents: Seq<char>,
    span: (int, int),
    new_block: Seq<char>,
) -> Seq<char> {
    before_span(contents, span) + without_final_newlines(new_block) + "\n"@ + after_span(
        contents,
        span,
    )
}

/// The lines that open and close the block of a hook.
pub fn markers(hook_name: &str) -> (r: (String, String))
    ensures
        r.0@ == start_marker(hook_name@),
        r.1@ == end_marker(hook_name@),
        r.0@ == "# >>> hookmgr "@ + hook_name@ + " >>>"@,
        r.1@ == "# <<< hookmgr "@ + hook_name@ + " <<<"@,
{
    let mut start = "# >>> hookmgr ".to_string();
    start.append(hook_name);
    start.append(" >>>");
    let mut end = "# <<< hookmgr ".to_string();
    end.append(hook_name);
    end.append(" <<<");
    (start, end)
}

/// The dispatcher of a hook: a marked block of shell that hands git's arguments to
/// `hookmgr run`, and lets the hook pass with a note where `hookmgr` is not on the `PATH`.
pub fn hook_block(hook_name: &str) -> (r: String)
    ensures
        r@ == block_text(hook_name@),
        start_marker(hook_name@).is_prefix_of(r@),
        (end_marker(hook_name@) + "\n"@).is_suffix_of(r@),
{
    let (start, end) = markers(hook_name);
    let mut out = start;
    out.append(
        "\n# Installed by `hookmgr install`. Safe to re-run to update this block in\n# place; do not hand-edit between the markers. The commands that actually\n# run live in ",
    );
    out.append(CONFIG_FILENAME);
    out.append(", not here.\nif command -v hookmgr >/dev/null 2>&1; then\nhookmgr run ");
    out.append(hook_name);
    out.append(" -- \"$@\"\nelse\necho \"hookmgr: not found on PATH, skipping ");
    out.append(hook_name);
    out.append(" checks\" >&2\nfi\n");
    out.append(end.as_str());
    out.append("\n");
    proof {
        let closing = end_marker(hook_name@) + "\n"@;
        let opening = start_marker(hook_name@);
        assert(opening =~= out@.subrange(0, opening.len() as int));
        assert(closing =~= out@.subrange(out@.len() - closing.len(), out@.len() as int));
    }
    out
}

/// Where the block of a hook stands in a hook file, in characters.
pub(crate) fn find_block(contents: &str, hook_name: &str) -> (r: Option<(usize, usize)>)
    ensures
        match r {
            Some((start, end)) => marked_span(contents@, hook_name@) == Some(
                (start as int, end as int),
            ) && start <= end <= contents@.len(),
            None => marked_span(contents@, hook_name@) is None,
        },
{
    let (start_marker, end_marker) = markers(hook_name);
    let chars = to_chars(contents);
    let start_pattern = to_chars(start_marker.as_str());
    let end_pattern = to_chars(end_marker.as_str());
    match find(&chars, &start_pattern, 0) {
        None => None,
        Some(first) => match find(&chars, &end_pattern, first) {
            None => None,
            Some(at) => {
                assert(at + end_pattern@.len() <= chars.len());
                let start = find_last(&chars, &start_pattern, first, at);
                Some((start, at + end_pattern.len()))
            },
        },
    }
}

/// What stands in `contents` from position `end` on, without the line end that opens it.
pub(crate) fn tail_after(contents: &str, end: usize) -> (r: &str)
    requires
        end <= contents@.len(),
    ensures
        r@ == without_first_newline(contents@.skip(end as int)),
{
    let length = contents.unicode_len();
    let ghost rest = contents@.skip(end as int);
    if end < length && contents.get_char(end) == '\n' {
        assert(rest.drop_first() == contents@.subrange(end + 1, length as int));
        contents.substring_char(end + 1, length)
    } else {
        assert(rest == contents@.subrange(end as int, length as int));
        contents.substring_char(end, length)
    }
}

/// If `existing` already holds a block for this hook, gives `existing` with that block swapped
/// for `new_block` in place.
pub fn replace_marked_block(existing: &str, hook_name: &str, new_block: &str) -> (r: Option<String>)
    ensures
        match (marked_span(existing@, hook_name@), r) {
            (Some(span), Some(out)) => out@ == with_block_replaced(existing@, span, new_block@),
            (None, None) => true,
            _ => false,
        },
{
    match find_block(existing, hook_name) {
        None => None,
        Some((start, end)) => {
            assert(existing@.subrange(0, start as int) == existing@.take(start as int));
            let mut out = existing.substring_char(0, start).to_string();
            out.append(trim_final_newlines(new_block));
            out.append("\n");
            out.append(tail_after(existing, end));
            Some(out)
        },
    }
}

} // verus!
