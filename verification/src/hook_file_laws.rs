//! What holds of installing and uninstalling together.

use crate::block::{
    after_span, before_span, block_text, end_marker, marked_span, start_marker,
};
use crate::block_proof::{lemma_end_marker_closes_block, lemma_start_marker_opens_block};
use crate::hook_file::{
    has_shebang, hooks_dir_parts, host_text, installed, is_bare, uninstall_outcome, uninstalled,
    with_shebang, UninstallOutcome,
};
use crate::install_laws::lemma_shebang;
use crate::text::{
    first_at, last_from, lemma_find_from_is, lemma_find_from_none, lemma_last_from, occurs_at,
    trimmed, trimmed_end, trimmed_start, white_space, without_final_newlines,
};
use crate::uninstall_laws::lemma_shebang_alone;
use vstd::prelude::*;

verus! {

/// No end marker of the hook runs from `existing` into what an install appends to it.
pub open spec fn no_end_marker_crosses(existing: Seq<char>, hook: Seq<char>) -> bool {
    forall|i: int|
        i < host_text(existing).len() && #[trigger] occurs_at(
            host_text(existing) + block_text(hook),
            end_marker(hook),
            i,
        ) ==> i + end_marker(hook).len() <= with_shebang(existing).len()
}

/// What an install writes does not make an end marker together with what was there. Where the
/// hook's name has no line end in it, as no name that git calls has, it never does.
pub open spec fn joins_cleanly(file: Option<Seq<char>>, hook: Seq<char>) -> bool {
    ||| !hook.contains('\n')
    ||| file is None
    ||| marked_span(file.unwrap(), hook) is Some
    ||| no_end_marker_crosses(file.unwrap(), hook)
}

/// The two markers of a hook are equally long, and differ in their third character.
proof fn lemma_marker_shapes(hook: Seq<char>)
    ensures
        start_marker(hook).len() == hook.len() + 18,
        end_marker(hook).len() == hook.len() + 18,
        start_marker(hook)[0] == '#',
        start_marker(hook)[1] == ' ',
        start_marker(hook)[2] == '>',
        end_marker(hook)[2] == '<',
{
    reveal_strlit("# >>> hookmgr ");
    reveal_strlit("# <<< hookmgr ");
    reveal_strlit(" >>>");
    reveal_strlit(" <<<");
}

/// Where an end marker stands behind a start marker, there is a block.
proof fn lemma_marked(contents: Seq<char>, hook: Seq<char>, i: int, j: int)
    requires
        0 <= i <= j,
        occurs_at(contents, start_marker(hook), i),
        occurs_at(contents, end_marker(hook), j),
    ensures
        marked_span(contents, hook) is Some,
{
    lemma_find_from_none(contents, start_marker(hook), 0);
    let first = choose|at: int| first_at(contents, start_marker(hook), 0, at);
    assert(first_at(contents, start_marker(hook), 0, first));
    assert(first <= i);
    lemma_find_from_none(contents, end_marker(hook), first);
}

/// Where the markers of a block that is found stand.
proof fn lemma_span(contents: Seq<char>, hook: Seq<char>)
    requires
        marked_span(contents, hook) is Some,
    ensures
        ({
            let (start, end) = marked_span(contents, hook).unwrap();
            let at = end - end_marker(hook).len();
            &&& 0 <= start <= at
            &&& occurs_at(contents, start_marker(hook), start)
            &&& occurs_at(contents, end_marker(hook), at)
        }),
{
    let first = choose|at: int| first_at(contents, start_marker(hook), 0, at);
    let at = choose|at: int| first_at(contents, end_marker(hook), first, at);
    assert(first_at(contents, start_marker(hook), 0, first));
    assert(first_at(contents, end_marker(hook), first, at));
    lemma_last_from(contents, start_marker(hook), first, at);
}

/// No end marker before the block that is found has a start marker before it.
proof fn lemma_no_block_before_span(contents: Seq<char>, hook: Seq<char>, i: int, j: int)
    requires
        marked_span(contents, hook) is Some,
        0 <= i <= j < marked_span(contents, hook).unwrap().0,
        occurs_at(contents, start_marker(hook), i),
    ensures
        !occurs_at(contents, end_marker(hook), j),
{
    let first = choose|at: int| first_at(contents, start_marker(hook), 0, at);
    let at = choose|at: int| first_at(contents, end_marker(hook), first, at);
    assert(first_at(contents, start_marker(hook), 0, first));
    assert(first_at(contents, end_marker(hook), first, at));
    lemma_last_from(contents, start_marker(hook), first, at);
}

/// Where the markers at `start` and at `at` have no start marker and no end marker between them,
/// and no end marker before them has a start marker before it, they are those that are found.
proof fn lemma_span_is(contents: Seq<char>, hook: Seq<char>, start: int, at: int)
    requires
        0 <= start <= at,
        occurs_at(contents, start_marker(hook), start),
        occurs_at(contents, end_marker(hook), at),
        forall|i: int| start < i <= at ==> !occurs_at(contents, start_marker(hook), i),
        forall|j: int| start <= j < at ==> !occurs_at(contents, end_marker(hook), j),
        forall|i: int, j: int|
            0 <= i <= j < start && #[trigger] occurs_at(contents, start_marker(hook), i)
                ==> !#[trigger] occurs_at(contents, end_marker(hook), j),
    ensures
        marked_span(contents, hook) == Some((start, (at + end_marker(hook).len()) as int)),
{
    let begin = start_marker(hook);
    let end = end_marker(hook);
    lemma_find_from_none(contents, begin, 0);
    let first = choose|i: int| first_at(contents, begin, 0, i);
    assert(first_at(contents, begin, 0, first));
    lemma_find_from_is(contents, begin, 0, first);
    assert(first_at(contents, end, first, at));
    lemma_find_from_is(contents, end, first, at);
    lemma_last_from(contents, begin, first, at);
    assert(last_from(contents, begin, first, at) == start);
}

/// Where a block stands between `before` and `after`, and no end marker before it has a start
/// marker before it, that block is the one that is found.
proof fn lemma_block_found(before: Seq<char>, hook: Seq<char>, after: Seq<char>)
    requires
        forall|i: int, j: int|
            0 <= i <= j < before.len() && #[trigger] occurs_at(
                before + block_text(hook) + after,
                start_marker(hook),
                i,
            ) ==> !#[trigger] occurs_at(before + block_text(hook) + after, end_marker(hook), j),
    ensures
        ({
            let contents = before + block_text(hook) + after;
            let span = (before.len() as int, before.len() + block_text(hook).len() - 1);
            &&& marked_span(contents, hook) == Some(span)
            &&& before_span(contents, span) == before
            &&& after_span(contents, span) == after
        }),
{
    let block = block_text(hook);
    let end = end_marker(hook);
    let contents = before + block + after;
    let start = before.len() as int;
    let at = start + block.len() - end.len() - 1;
    lemma_block_in_place(before, hook, after);
    lemma_span_is(contents, hook, start, at);
    assert(contents.take(start) == before);
    let rest = contents.skip(at + end.len());
    assert(rest == "\n"@ + after) by {
        reveal_strlit("\n");
        assert(block.last() == '\n');
    }
    assert(rest.drop_first() == after && rest[0] == '\n') by {
        reveal_strlit("\n");
    }
}

/// A block between `before` and `after` has its start marker only at its start, and its end
/// marker only at its end.
proof fn lemma_block_in_place(before: Seq<char>, hook: Seq<char>, after: Seq<char>)
    ensures
        ({
            let contents = before + block_text(hook) + after;
            let start = before.len() as int;
            let at = start + block_text(hook).len() - end_marker(hook).len() - 1;
            &&& start <= at
            &&& occurs_at(contents, start_marker(hook), start)
            &&& occurs_at(contents, end_marker(hook), at)
            &&& forall|i: int| start < i <= at ==> !occurs_at(contents, start_marker(hook), i)
            &&& forall|j: int| start <= j < at ==> !occurs_at(contents, end_marker(hook), j)
        }),
{
    let block = block_text(hook);
    let begin = start_marker(hook);
    let end = end_marker(hook);
    let contents = before + block + after;
    let start = before.len() as int;
    let at = start + block.len() - end.len() - 1;
    lemma_marker_shapes(hook);
    lemma_end_marker_closes_block(hook);
    lemma_start_marker_opens_block(hook);
    assert forall|i: int| start <= i <= at implies occurs_at(contents, end, i) == occurs_at(
        block,
        end,
        i - start,
    ) && occurs_at(contents, begin, i) == occurs_at(block, begin, i - start) by {
        assert(contents.subrange(i, i + end.len()) == block.subrange(
            i - start,
            i - start + end.len(),
        ));
    }
}

/// A block is closed by exactly one line end.
proof fn lemma_block_ends_once(hook: Seq<char>)
    ensures
        without_final_newlines(block_text(hook)) + "\n"@ == block_text(hook),
{
    let block = block_text(hook);
    reveal_strlit("\n");
    reveal_strlit(" <<<");
    assert(block.last() == '\n');
    assert(block.drop_last().last() == '<');
    reveal_with_fuel(without_final_newlines, 2);
    assert(block.drop_last() + "\n"@ == block);
}

/// What an install leaves before and after the block.
pub open spec fn kept_around(file: Option<Seq<char>>, hook: Seq<char>) -> (Seq<char>, Seq<char>) {
    match file {
        None => ("#!/bin/sh\n"@, Seq::empty()),
        Some(existing) => match marked_span(existing, hook) {
            Some(span) => (before_span(existing, span), after_span(existing, span)),
            None => (host_text(existing), Seq::empty()),
        },
    }
}

/// An install writes the block, and leaves the rest of the file as it was: what stood around a
/// block that was already there, or the other content with its shebang and line ends.
pub proof fn law_install_changes_only_the_block(file: Option<Seq<char>>, hook: Seq<char>)
    ensures
        installed(file, hook) == kept_around(file, hook).0 + block_text(hook) + kept_around(
            file,
            hook,
        ).1,
{
    lemma_block_ends_once(hook);
    assert(installed(file, hook) == kept_around(file, hook).0 + block_text(hook) + kept_around(
        file,
        hook,
    ).1) by {
        if let Some(existing) = file {
            if let Some(span) = marked_span(existing, hook) {
                let before = before_span(existing, span);
                let after = after_span(existing, span);
                let body = without_final_newlines(block_text(hook));
                assert(before + body + "\n"@ + after == before + (body + "\n"@) + after);
            }
        }
    }
}

/// A text from one marker to the end of another opens with the one and closes with the other.
proof fn lemma_stretch(text: Seq<char>, begin: Seq<char>, end: Seq<char>, from: int, at: int)
    requires
        0 <= from <= at,
        begin.len() == end.len(),
        occurs_at(text, begin, from),
        occurs_at(text, end, at),
    ensures
        ({
            let to = at + end.len();
            let part = text.subrange(from, to);
            &&& to <= text.len()
            &&& begin.is_prefix_of(part)
            &&& end.is_suffix_of(part)
        }),
{
    let to = at + end.len();
    let part = text.subrange(from, to);
    assert(part.subrange(0, begin.len() as int) == text.subrange(from, from + begin.len()));
    assert(part.subrange(part.len() - end.len(), part.len() as int) == text.subrange(at, to));
}

/// A file is what stands before a span of it, that span, at most one line end, and what stands
/// after it.
proof fn lemma_around_span(contents: Seq<char>, span: (int, int))
    requires
        0 <= span.0 <= span.1 <= contents.len(),
    ensures
        ({
            let part = contents.subrange(span.0, span.1);
            let before = before_span(contents, span);
            let after = after_span(contents, span);
            contents == before + part + after || contents == before + part + "\n"@ + after
        }),
{
    reveal_strlit("\n");
    let part = contents.subrange(span.0, span.1);
    let before = before_span(contents, span);
    let after = after_span(contents, span);
    let rest = contents.skip(span.1);
    if rest.len() > 0 && rest[0] == '\n' {
        assert(rest == "\n"@ + after);
        assert(contents == before + part + "\n"@ + after);
    } else {
        assert(contents == before + part + after);
    }
}

/// An uninstall takes out what stands from the start marker to the end marker, and at most the
/// line end behind it. All else is left as it was, unless nothing but the shebang is left.
pub proof fn law_uninstall_removes_only_the_block(contents: Seq<char>, hook: Seq<char>)
    requires
        marked_span(contents, hook) is Some,
    ensures
        ({
            let span = marked_span(contents, hook).unwrap();
            let block = contents.subrange(span.0, span.1);
            let before = before_span(contents, span);
            let after = after_span(contents, span);
            &&& contents == before + block + after || contents == before + block + "\n"@ + after
            &&& start_marker(hook).is_prefix_of(block)
            &&& end_marker(hook).is_suffix_of(block)
            &&& uninstalled(Some(contents), hook) == if is_bare(before, after) {
                None
            } else {
                Some(before + after)
            }
        }),
{
    lemma_span(contents, hook);
    lemma_marker_shapes(hook);
    let span = marked_span(contents, hook).unwrap();
    lemma_stretch(
        contents,
        start_marker(hook),
        end_marker(hook),
        span.0,
        span.1 - end_marker(hook).len(),
    );
    lemma_around_span(contents, span);
}

/// Where the name has no line end in it, neither has an end marker, and so none crosses the line
/// end that closes what was there.
proof fn lemma_plain_name_crosses_nothing(existing: Seq<char>, hook: Seq<char>)
    requires
        !hook.contains('\n'),
    ensures
        no_end_marker_crosses(existing, hook),
{
    reveal_strlit("# <<< hookmgr ");
    reveal_strlit(" <<<");
    reveal_strlit("\n");
    let host = host_text(existing);
    let own = with_shebang(existing).len();
    let end = end_marker(hook);
    let contents = host + block_text(hook);
    assert forall|i: int| 0 <= i < end.len() implies end[i] != '\n' by {
        if 14 <= i < 14 + hook.len() {
            assert(end[i] == hook[i - 14]);
        }
    }
    assert forall|i: int| i < host.len() && #[trigger] occurs_at(contents, end, i) implies i
        + end.len() <= own by {
        assert forall|j: int| i <= j < i + end.len() implies contents[j] != '\n' by {
            assert(contents.subrange(i, i + end.len())[j - i] == end[j - i]);
        }
        assert(contents[host.len() - 1] == '\n');
        assert(host.len() == own + 1 || (host.len() == own + 2 && contents[host.len() - 2]
            == '\n'));
    }
}

/// In a file without a block, and in what an install puts around it, no end marker has a start
/// marker before it.
proof fn lemma_no_block_in_host(existing: Seq<char>, hook: Seq<char>, i: int, j: int)
    requires
        marked_span(existing, hook) is None,
        no_end_marker_crosses(existing, hook),
        0 <= i <= j < host_text(existing).len(),
        occurs_at(host_text(existing) + block_text(hook), start_marker(hook), i),
    ensures
        !occurs_at(host_text(existing) + block_text(hook), end_marker(hook), j),
{
    let contents = host_text(existing) + block_text(hook);
    let begin = start_marker(hook);
    let end = end_marker(hook);
    if occurs_at(contents, end, j) {
        lemma_marker_shapes(hook);
        reveal_strlit("#!/bin/sh\n");
        let shift: int = if has_shebang(existing) {
            0
        } else {
            10
        };
        assert(contents.subrange(i, i + begin.len())[0] == contents[i]);
        assert(contents.subrange(i, i + begin.len())[1] == contents[i + 1]);
        assert(contents.subrange(i, i + begin.len())[2] == contents[i + 2]);
        assert(contents.subrange(j, j + end.len())[2] == contents[j + 2]);
        assert(i < j);
        assert(forall|k: int| 0 <= k < shift ==> contents[k] == "#!/bin/sh\n"@[k]);
        assert(shift <= i);
        assert(existing.subrange(i - shift, i - shift + begin.len()) == contents.subrange(
            i,
            i + begin.len(),
        ));
        assert(existing.subrange(j - shift, j - shift + end.len()) == contents.subrange(
            j,
            j + end.len(),
        ));
        lemma_marked(existing, hook, i - shift, j - shift);
    }
}

/// The block that an install writes is the one that is found in the new file.
pub(crate) proof fn lemma_installed_block_found(file: Option<Seq<char>>, hook: Seq<char>)
    requires
        joins_cleanly(file, hook),
    ensures
        ({
            let contents = installed(file, hook);
            let (before, after) = kept_around(file, hook);
            let span = (before.len() as int, before.len() + block_text(hook).len() - 1);
            &&& marked_span(contents, hook) == Some(span)
            &&& before_span(contents, span) == before
            &&& after_span(contents, span) == after
        }),
{
    law_install_changes_only_the_block(file, hook);
    lemma_marker_shapes(hook);
    let (before, after) = kept_around(file, hook);
    let begin = start_marker(hook);
    let end = end_marker(hook);
    let contents = installed(file, hook);
    assert forall|i: int, j: int| 0 <= i <= j < before.len() && #[trigger] occurs_at(
        contents,
        begin,
        i,
    ) implies !#[trigger] occurs_at(contents, end, j) by {
        match file {
            None => {
                reveal_strlit("#!/bin/sh\n");
                assert(contents.subrange(i, i + begin.len())[0] == contents[i]);
                assert(contents.subrange(i, i + begin.len())[1] == contents[i + 1]);
                assert(contents[i] == before[i]);
                assert(i == 0);
                assert(contents[1] == before[1]);
            },
            Some(existing) => {
                if marked_span(existing, hook) is Some {
                    lemma_span(existing, hook);
                    let start = before.len() as int;
                    let reach = start + begin.len();
                    assert(contents.subrange(start, reach) == begin);
                    assert(contents.take(reach) == existing.take(reach)) by {
                        assert(existing.take(reach) == before + existing.subrange(start, reach));
                        assert(contents.take(reach) == before + contents.subrange(start, reach));
                    }
                    assert(contents.subrange(i, i + begin.len()) == contents.take(reach).subrange(
                        i,
                        i + begin.len(),
                    ));
                    assert(existing.subrange(i, i + begin.len()) == existing.take(reach).subrange(
                        i,
                        i + begin.len(),
                    ));
                    assert(contents.subrange(j, j + end.len()) == contents.take(reach).subrange(
                        j,
                        j + end.len(),
                    ));
                    assert(existing.subrange(j, j + end.len()) == existing.take(reach).subrange(
                        j,
                        j + end.len(),
                    ));
                    lemma_no_block_before_span(existing, hook, i, j);
                } else {
                    if !hook.contains('\n') {
                        lemma_plain_name_crosses_nothing(existing, hook);
                    }
                    assert(contents == host_text(existing) + block_text(hook));
                    lemma_no_block_in_host(existing, hook, i, j);
                }
            },
        }
    }
    lemma_block_found(before, hook, after);
}

/// After an install the file holds a block for the hook, so an uninstall finds one.
pub proof fn law_installed_block_is_found(file: Option<Seq<char>>, hook: Seq<char>)
    ensures
        marked_span(installed(file, hook), hook) is Some,
        uninstall_outcome(Some(installed(file, hook)), hook) != UninstallOutcome::NotInstalled,
{
    law_install_changes_only_the_block(file, hook);
    let (before, after) = kept_around(file, hook);
    let start = before.len() as int;
    let at = start + block_text(hook).len() - end_marker(hook).len() - 1;
    lemma_block_in_place(before, hook, after);
    lemma_marked(installed(file, hook), hook, start, at);
}

/// A second install changes nothing: the block is neither duplicated nor moved.
pub proof fn law_install_is_idempotent(file: Option<Seq<char>>, hook: Seq<char>)
    requires
        joins_cleanly(file, hook),
    ensures
        installed(Some(installed(file, hook)), hook) == installed(file, hook),
{
    law_install_changes_only_the_block(file, hook);
    lemma_installed_block_found(file, hook);
    law_install_changes_only_the_block(Some(installed(file, hook)), hook);
}

/// Whatever the file held at first, from the second install on nothing changes any more.
pub proof fn law_repeated_installs_settle(file: Option<Seq<char>>, hook: Seq<char>)
    ensures
        ({
            let twice = installed(Some(installed(file, hook)), hook);
            installed(Some(twice), hook) == twice
        }),
{
    law_installed_block_is_found(file, hook);
    law_install_is_idempotent(Some(installed(file, hook)), hook);
}

/// An uninstall takes out what the install before it put in: what is left is what the install
/// kept around the block, and the file goes where nothing but the shebang is left.
pub proof fn law_uninstall_leaves_what_install_kept(file: Option<Seq<char>>, hook: Seq<char>)
    requires
        joins_cleanly(file, hook),
    ensures
        ({
            let now = Some(installed(file, hook));
            let (before, after) = kept_around(file, hook);
            if is_bare(before, after) {
                &&& uninstall_outcome(now, hook) == UninstallOutcome::FileDeleted
                &&& uninstalled(now, hook) is None
            } else {
                &&& uninstall_outcome(now, hook) == UninstallOutcome::BlockRemoved
                &&& uninstalled(now, hook) == Some(before + after)
            }
        }),
{
    lemma_installed_block_found(file, hook);
}

/// An install where there was no file, and an uninstall after it, leave no file.
pub proof fn law_uninstall_undoes_fresh_install(hook: Seq<char>)
    ensures
        uninstall_outcome(Some(installed(None, hook)), hook) == UninstallOutcome::FileDeleted,
        uninstalled(Some(installed(None, hook)), hook) is None,
{
    law_uninstall_leaves_what_install_kept(None, hook);
    let shebang = "#!/bin/sh\n"@;
    assert(shebang + Seq::<char>::empty() == shebang);
    reveal_strlit("#!/bin/sh\n");
    reveal_strlit("#!/bin/sh");
    assert(shebang.drop_last() == "#!/bin/sh"@);
    reveal_with_fuel(trimmed_start, 2);
    reveal_with_fuel(trimmed_end, 2);
    assert(trimmed(shebang) == "#!/bin/sh"@);
}

/// Where a file holds nothing but a shebang, whichever that is, an install and an uninstall
/// leave no file: the block was its only real content.
pub proof fn law_shebang_alone_goes_with_the_block(existing: Seq<char>, hook: Seq<char>)
    requires
        existing.len() >= 2,
        existing[0] == '#',
        existing[1] == '!',
        forall|i: int, j: int|
            0 <= i < j < existing.len() && #[trigger] existing[i] == '\n' ==> white_space(
                #[trigger] existing[j],
            ),
        marked_span(existing, hook) is None,
        joins_cleanly(Some(existing), hook),
    ensures
        uninstall_outcome(
            Some(installed(Some(existing), hook)),
            hook,
        ) == UninstallOutcome::FileDeleted,
        uninstalled(Some(installed(Some(existing), hook)), hook) is None,
{
    law_uninstall_leaves_what_install_kept(Some(existing), hook);
    lemma_shebang_alone(existing);
    reveal_strlit("#!");
    reveal_strlit("\n");
    let host = host_text(existing);
    let line = "\n"@;
    assert(existing.subrange(0, 2)[0] == '#');
    assert(host.subrange(0, 2) == existing.subrange(0, 2));
    assert(host.drop_last() == existing || host.drop_last() == existing + line);
    assert((existing + line).drop_last() == existing);
    assert(trimmed_end(host) == trimmed_end(host.drop_last()));
    assert(trimmed_end(existing + line) == trimmed_end(existing));
    assert(trimmed(host) == trimmed(existing));
}

/// Where a file already holds a block, an install before the uninstall makes no difference.
pub proof fn law_reinstall_does_not_change_uninstall(existing: Seq<char>, hook: Seq<char>)
    requires
        marked_span(existing, hook) is Some,
    ensures
        ({
            let now = Some(installed(Some(existing), hook));
            &&& uninstall_outcome(now, hook) == uninstall_outcome(Some(existing), hook)
            &&& uninstalled(now, hook) == uninstalled(Some(existing), hook)
        }),
{
    law_uninstall_leaves_what_install_kept(Some(existing), hook);
}

/// After an install into a file with other content, and an uninstall, no block is left: a
/// second uninstall finds nothing to do.
pub proof fn law_uninstall_leaves_no_block(existing: Seq<char>, hook: Seq<char>)
    requires
        marked_span(existing, hook) is None,
        joins_cleanly(Some(existing), hook),
    ensures
        uninstall_outcome(
            uninstalled(Some(installed(Some(existing), hook)), hook),
            hook,
        ) == UninstallOutcome::NotInstalled,
{
    law_uninstall_leaves_what_install_kept(Some(existing), hook);
    let host = host_text(existing);
    let contents = host + block_text(hook);
    assert(host + Seq::<char>::empty() == host);
    if !hook.contains('\n') {
        lemma_plain_name_crosses_nothing(existing, hook);
    }
    if marked_span(host, hook) is Some {
        lemma_span(host, hook);
        lemma_marker_shapes(hook);
        let (i, last) = marked_span(host, hook).unwrap();
        let j = last - end_marker(hook).len();
        let n = start_marker(hook).len();
        assert(contents.subrange(i, i + n) == host.subrange(i, i + n));
        assert(contents.subrange(j, j + n) == host.subrange(j, j + n));
        lemma_no_block_in_host(existing, hook, i, j);
    }
}

/// The content of a file without a block stands in the new file as it was, behind a shebang of
/// its own or the one that was added, and in front of nothing but line ends and the block.
pub proof fn law_other_content_is_kept(existing: Seq<char>, hook: Seq<char>)
    requires
        marked_span(existing, hook) is None,
    ensures
        ({
            let added = if existing.len() >= 2 && existing[0] == '#' && existing[1] == '!' {
                Seq::empty()
            } else {
                "#!/bin/sh\n"@
            };
            let contents = installed(Some(existing), hook);
            ||| contents == added + existing + "\n"@ + block_text(hook)
            ||| contents == added + existing + "\n\n"@ + block_text(hook)
        }),
{
    lemma_shebang(existing);
    reveal_strlit("\n");
    reveal_strlit("\n\n");
    let added = if has_shebang(existing) {
        Seq::empty()
    } else {
        "#!/bin/sh\n"@
    };
    assert("\n\n"@ == "\n"@ + "\n"@);
    let ended = with_shebang(existing);
    assert(ended == added + existing);
    assert(ended + "\n"@ + "\n"@ == ended + ("\n"@ + "\n"@));
}

/// A file that an install made or appended to opens with a shebang.
pub proof fn law_installed_file_has_shebang(file: Option<Seq<char>>, hook: Seq<char>)
    requires
        file is Some ==> marked_span(file.unwrap(), hook) is None,
    ensures
        installed(file, hook).len() >= 2,
        installed(file, hook)[0] == '#',
        installed(file, hook)[1] == '!',
{
    lemma_shebang(installed(file, hook));
    reveal_strlit("#!/bin/sh\n");
    reveal_strlit("#!");
    let contents = installed(file, hook);
    if let Some(existing) = file {
        let opened = with_shebang(existing);
        if !has_shebang(existing) {
            assert(opened.subrange(0, 2) == "#!"@);
        }
        assert(contents.subrange(0, 2) == opened.subrange(0, 2));
    } else {
        assert(contents.subrange(0, 2) == "#!"@);
    }
}

/// Hooks with different names have hook files of their own.
pub proof fn law_hooks_have_their_own_files(hook: Seq<char>, other: Seq<char>)
    ensures
        hooks_dir_parts().push(hook) == hooks_dir_parts().push(other) ==> hook == other,
{
    assert(hooks_dir_parts().push(hook).last() == hook);
    assert(hooks_dir_parts().push(other).last() == other);
}

/// Hooks with different names have different markers, and no start marker is an end marker.
pub proof fn law_markers_tell_hooks_apart(hook: Seq<char>, other: Seq<char>)
    ensures
        start_marker(hook) == start_marker(other) ==> hook == other,
        end_marker(hook) == end_marker(other) ==> hook == other,
        start_marker(hook) != end_marker(other),
{
    reveal_strlit("# >>> hookmgr ");
    reveal_strlit("# <<< hookmgr ");
    reveal_strlit(" >>>");
    reveal_strlit(" <<<");
    assert(start_marker(hook)[2] == '>');
    assert(end_marker(other)[2] == '<');
    assert(start_marker(hook).subrange(14, 14int + hook.len()) == hook);
    assert(start_marker(other).subrange(14, 14int + other.len()) == other);
    assert(end_marker(hook).subrange(14, 14int + hook.len()) == hook);
    assert(end_marker(other).subrange(14, 14int + other.len()) == other);
    assert(start_marker(hook).len() == hook.len() + 18);
    assert(start_marker(other).len() == other.len() + 18);
    assert(end_marker(hook).len() == hook.len() + 18);
    assert(end_marker(other).len() == other.len() + 18);
}

} // verus!
