//! What an uninstall makes of a hook file, said by the characters of the file.

use crate::block::{block_text, marked_span};
use crate::block_laws::{
    law_block_is_the_first_that_is_closed, law_one_line_end_goes_with_the_block,
};
use crate::hook_file::{
    installed, is_bare, is_shebang_alone, uninstall_outcome, uninstalled, UninstallOutcome,
};
use crate::hook_file_laws::{kept_around, lemma_installed_block_found};
use crate::install_laws::{law_install_puts_the_block_behind_other_content, lemma_shebang};
use crate::text::{trimmed, white_space};
use crate::text_laws::lemma_trimmed;
use vstd::prelude::*;

verus! {

proof fn lemma_blank(text: Seq<char>)
    ensures
        trimmed(text).len() == 0 <==> forall|i: int|
            0 <= i < text.len() ==> white_space(#[trigger] text[i]),
{
    let (from, end) = lemma_trimmed(text);
    assert(trimmed(text).len() == end - from);
    if from < end {
        assert(!white_space(text[from]));
    }
}

/// A text is `word` but for white space around it exactly where `word` stands in it somewhere,
/// with nothing but white space before and after.
proof fn lemma_word_alone(text: Seq<char>, word: Seq<char>)
    requires
        word.len() > 0,
        !white_space(word[0]),
        !white_space(word.last()),
    ensures
        trimmed(text) == word <==> exists|at: int|
            {
                &&& 0 <= at
                &&& at + word.len() <= text.len()
                &&& word.is_prefix_of(#[trigger] text.skip(at))
                &&& forall|i: int| 0 <= i < at ==> white_space(#[trigger] text[i])
                &&& forall|i: int|
                    at + word.len() <= i < text.len() ==> white_space(#[trigger] text[i])
            },
{
    let (from, end) = lemma_trimmed(text);
    if trimmed(text) == word {
        assert(text.skip(from).subrange(0, word.len() as int) =~= text.subrange(from, end));
        assert(word.is_prefix_of(text.skip(from)));
    }
    if exists|at: int|
        {
            &&& 0 <= at
            &&& at + word.len() <= text.len()
            &&& word.is_prefix_of(#[trigger] text.skip(at))
            &&& forall|i: int| 0 <= i < at ==> white_space(#[trigger] text[i])
            &&& forall|i: int|
                at + word.len() <= i < text.len() ==> white_space(#[trigger] text[i])
        } {
        let at = choose|at: int|
            {
                &&& 0 <= at
                &&& at + word.len() <= text.len()
                &&& word.is_prefix_of(#[trigger] text.skip(at))
                &&& forall|i: int| 0 <= i < at ==> white_space(#[trigger] text[i])
                &&& forall|i: int|
                    at + word.len() <= i < text.len() ==> white_space(#[trigger] text[i])
            };
        let part = text.skip(at).subrange(0, word.len() as int);
        assert(part[0] == text[at]);
        assert(part[word.len() - 1] == text[at + word.len() - 1]);
        assert(!white_space(text[at]));
        assert(!white_space(text[at + word.len() - 1]));
        assert(from <= at && at + word.len() <= end);
        assert(!white_space(text[from]));
        assert(!white_space(text[end - 1]));
        assert(from == at && end == at + word.len());
        assert(text.subrange(from, end) =~= part);
    }
}

/// A text holds a shebang alone exactly where it opens with `#` and `!`, and behind every line
/// end in it there is nothing but white space.
pub(crate) proof fn lemma_shebang_alone(text: Seq<char>)
    ensures
        is_shebang_alone(text) <==> {
            &&& text.len() >= 2
            &&& text[0] == '#'
            &&& text[1] == '!'
            &&& forall|i: int, j: int|
                0 <= i < j < text.len() && #[trigger] text[i] == '\n' ==> white_space(
                    #[trigger] text[j],
                )
        },
{
    lemma_shebang(text);
    let (from, end) = lemma_trimmed(text);
    let kept = trimmed(text);
    if text.len() >= 2 && text[0] == '#' && text[1] == '!' {
        assert(!white_space('#'));
        assert(white_space('\n'));
        assert(from == 0);
        if kept.contains('\n') {
            let i = choose|i: int| 0 <= i < kept.len() && kept[i] == '\n';
            assert(text[i] == '\n');
            assert(!white_space(text[end - 1]));
        }
        if exists|i: int, j: int|
            0 <= i < j < text.len() && #[trigger] text[i] == '\n' && !white_space(
                #[trigger] text[j],
            ) {
            let (i, j) = choose|i: int, j: int|
                0 <= i < j < text.len() && #[trigger] text[i] == '\n' && !white_space(
                    #[trigger] text[j],
                );
            assert(j < end);
            assert(kept[i] == '\n');
        }
    }
}

/// An uninstall takes the file away in three cases and in no other. All that stands before and
/// after the block is white space. Or it is `#!/bin/sh` once, and white space. Or the file opens
/// with `#!`, and all that follows the first line, before the block and after it, is white
/// space. In every other case what stood before the block and what stood after it are kept, and
/// nothing else.
pub proof fn law_uninstall_deletes_only_what_is_no_content(
    contents: Seq<char>,
    hook: Seq<char>,
    span: (int, int),
    before: Seq<char>,
    after: Seq<char>,
)
    requires
        marked_span(contents, hook) == Some(span),
        before == contents.take(span.0),
        after == if span.1 < contents.len() && contents[span.1] == '\n' {
            contents.skip(span.1 + 1)
        } else {
            contents.skip(span.1)
        },
    ensures
        ({
            let rest = before + after;
            let blank = forall|i: int| 0 <= i < rest.len() ==> white_space(#[trigger] rest[i]);
            let plain = exists|at: int|
                {
                    &&& 0 <= at
                    &&& at + 9 <= rest.len()
                    &&& "#!/bin/sh"@.is_prefix_of(#[trigger] rest.skip(at))
                    &&& forall|i: int| 0 <= i < at ==> white_space(#[trigger] rest[i])
                    &&& forall|i: int| at + 9 <= i < rest.len() ==> white_space(#[trigger] rest[i])
                };
            let line = {
                &&& before.len() >= 2
                &&& before[0] == '#'
                &&& before[1] == '!'
                &&& forall|i: int, j: int|
                    0 <= i < j < before.len() && #[trigger] before[i] == '\n' ==> white_space(
                        #[trigger] before[j],
                    )
                &&& forall|i: int| 0 <= i < after.len() ==> white_space(#[trigger] after[i])
            };
            if blank || plain || line {
                &&& uninstall_outcome(Some(contents), hook) == UninstallOutcome::FileDeleted
                &&& uninstalled(Some(contents), hook) is None
            } else {
                &&& uninstall_outcome(Some(contents), hook) == UninstallOutcome::BlockRemoved
                &&& uninstalled(Some(contents), hook) == Some(rest)
            }
        }),
{
    lemma_uninstall_by_what_is_left(contents, hook, span, before, after);
    lemma_blank(before + after);
    lemma_blank(after);
    lemma_shebang_alone(before);
    reveal_strlit("#!/bin/sh");
    assert(!white_space('#') && !white_space('h'));
    lemma_word_alone(before + after, "#!/bin/sh"@);
}

proof fn lemma_uninstall_by_what_is_left(
    contents: Seq<char>,
    hook: Seq<char>,
    span: (int, int),
    before: Seq<char>,
    after: Seq<char>,
)
    requires
        marked_span(contents, hook) == Some(span),
        before == contents.take(span.0),
        after == if span.1 < contents.len() && contents[span.1] == '\n' {
            contents.skip(span.1 + 1)
        } else {
            contents.skip(span.1)
        },
    ensures
        is_bare(before, after) ==> uninstall_outcome(Some(contents), hook)
            == UninstallOutcome::FileDeleted && uninstalled(Some(contents), hook) is None,
        !is_bare(before, after) ==> uninstall_outcome(Some(contents), hook)
            == UninstallOutcome::BlockRemoved && uninstalled(Some(contents), hook) == Some(
            before + after,
        ),
{
    law_block_is_the_first_that_is_closed(contents, hook);
    law_one_line_end_goes_with_the_block(contents, span);
}

/// Where a line end stands in what is left, the text before the block followed by the text after
/// it, with a character that is no white space somewhere on each side of it, an uninstall keeps
/// all that is left.
pub proof fn law_uninstall_keeps_more_than_one_line(
    contents: Seq<char>,
    hook: Seq<char>,
    span: (int, int),
    before: Seq<char>,
    after: Seq<char>,
    left: int,
    at: int,
    right: int,
)
    requires
        marked_span(contents, hook) == Some(span),
        before == contents.take(span.0),
        after == if span.1 < contents.len() && contents[span.1] == '\n' {
            contents.skip(span.1 + 1)
        } else {
            contents.skip(span.1)
        },
        0 <= left < at < right < before.len() + after.len(),
        (before + after)[at] == '\n',
        !white_space((before + after)[left]),
        !white_space((before + after)[right]),
    ensures
        uninstall_outcome(Some(contents), hook) == UninstallOutcome::BlockRemoved,
        uninstalled(Some(contents), hook) == Some(before + after),
{
    lemma_uninstall_by_what_is_left(contents, hook, span, before, after);
    lemma_one_line_left(before, after, left, at, right);
}

/// What is no content of its own is one line at most.
proof fn lemma_one_line_left(before: Seq<char>, after: Seq<char>, left: int, at: int, right: int)
    requires
        ({
            let rest = before + after;
            &&& 0 <= left < at < right < rest.len()
            &&& rest[at] == '\n'
            &&& !white_space(rest[left])
            &&& !white_space(rest[right])
        }),
    ensures
        !is_bare(before, after),
{
    let rest = before + after;
    lemma_blank(rest);
    lemma_blank(after);
    lemma_shebang_alone(before);
    let (from, end) = lemma_trimmed(rest);
    assert(from <= left && right < end);
    if trimmed(rest) == "#!/bin/sh"@ {
        reveal_strlit("#!/bin/sh");
        assert(trimmed(rest)[at - from] == '\n');
    }
    if is_shebang_alone(before) && trimmed(after).len() == 0 {
        if right >= before.len() {
            assert(after[right - before.len()] == rest[right]);
        } else {
            assert(before[at] == '\n' && before[right] == rest[right]);
        }
    }
}

/// A hook file without a block for the hook, and one that does not exist, stay as they are, and
/// only those are reported as not installed.
pub proof fn law_uninstall_leaves_other_files_alone(file: Option<Seq<char>>, hook: Seq<char>)
    ensures
        file is None || marked_span(file.unwrap(), hook) is None
            <==> uninstall_outcome(file, hook) == UninstallOutcome::NotInstalled,
        uninstall_outcome(file, hook) == UninstallOutcome::NotInstalled ==> uninstalled(file, hook)
            == file,
{
}

/// Where a file without a block held a line end with a character that is no white space on each
/// side of it, an install and an uninstall give back the file with its shebang, an empty line at
/// its end, and all its characters in place.
pub proof fn law_other_lines_outlive_the_block(
    existing: Seq<char>,
    hook: Seq<char>,
    left: int,
    at: int,
    right: int,
)
    requires
        marked_span(existing, hook) is None,
        !hook.contains('\n'),
        0 <= left < at < right < existing.len(),
        existing[at] == '\n',
        !white_space(existing[left]),
        !white_space(existing[right]),
    ensures
        ({
            let now = Some(installed(Some(existing), hook));
            let opened = if existing[0] == '#' && existing[1] == '!' {
                existing
            } else {
                "#!/bin/sh\n"@ + existing
            };
            &&& uninstall_outcome(now, hook) == UninstallOutcome::BlockRemoved
            &&& uninstalled(now, hook) == Some(
                if opened.last() == '\n' {
                    opened + "\n"@
                } else {
                    opened + "\n\n"@
                },
            )
        }),
{
    let opened = if existing[0] == '#' && existing[1] == '!' {
        existing
    } else {
        "#!/bin/sh\n"@ + existing
    };
    reveal_strlit("#!/bin/sh\n");
    let shift: int = opened.len() - existing.len();
    assert(opened[at + shift] == existing[at]);
    assert(opened[left + shift] == existing[left]);
    assert(opened[right + shift] == existing[right]);
    lemma_round_trip(existing, hook, opened, left + shift, at + shift, right + shift);
}

/// Where a file had no block and no shebang but any character that is no white space, an install
/// and an uninstall give back the file behind `#!/bin/sh`, with an empty line at its end.
pub proof fn law_any_content_outlives_the_block(existing: Seq<char>, hook: Seq<char>, at: int)
    requires
        marked_span(existing, hook) is None,
        !hook.contains('\n'),
        0 <= at < existing.len(),
        !white_space(existing[at]),
        existing[0] != '#' || existing.len() == 1 || existing[1] != '!',
    ensures
        ({
            let now = Some(installed(Some(existing), hook));
            let opened = "#!/bin/sh\n"@ + existing;
            &&& uninstall_outcome(now, hook) == UninstallOutcome::BlockRemoved
            &&& uninstalled(now, hook) == Some(
                if opened.last() == '\n' {
                    opened + "\n"@
                } else {
                    opened + "\n\n"@
                },
            )
        }),
{
    reveal_strlit("#!/bin/sh\n");
    let opened = "#!/bin/sh\n"@ + existing;
    assert(opened[0] == '#' && opened[9] == '\n');
    assert(!white_space('#'));
    assert(opened[10 + at] == existing[at]);
    lemma_round_trip(existing, hook, opened, 0, 9, 10 + at);
}

proof fn lemma_round_trip(
    existing: Seq<char>,
    hook: Seq<char>,
    opened: Seq<char>,
    left: int,
    at: int,
    right: int,
)
    requires
        marked_span(existing, hook) is None,
        !hook.contains('\n'),
        opened == if existing.len() >= 2 && existing[0] == '#' && existing[1] == '!' {
            existing
        } else {
            "#!/bin/sh\n"@ + existing
        },
        0 <= left < at < right < opened.len(),
        opened[at] == '\n',
        !white_space(opened[left]),
        !white_space(opened[right]),
    ensures
        ({
            let now = Some(installed(Some(existing), hook));
            &&& uninstall_outcome(now, hook) == UninstallOutcome::BlockRemoved
            &&& uninstalled(now, hook) == Some(
                if opened.last() == '\n' {
                    opened + "\n"@
                } else {
                    opened + "\n\n"@
                },
            )
        }),
{
    law_install_puts_the_block_behind_other_content(existing, hook);
    lemma_installed_block_found(Some(existing), hook);
    let host = if opened.last() == '\n' {
        opened + "\n"@
    } else {
        opened + "\n\n"@
    };
    let (before, after) = kept_around(Some(existing), hook);
    let new = installed(Some(existing), hook);
    assert(new == host + block_text(hook));
    assert(before + block_text(hook) == new);
    assert(before.len() == host.len());
    assert(before =~= new.take(before.len() as int));
    assert(host =~= new.take(before.len() as int));
    assert(before + after =~= host);
    lemma_one_line_left(before, after, left, at, right);
}

} // verus!
