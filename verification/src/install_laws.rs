//! What an install makes of a hook file, said by the characters of the file.

use crate::block::{block_text, marked_span};
use crate::block_laws::{
    law_block_is_the_first_that_is_closed, law_one_line_end_goes_with_the_block,
};
use crate::hook_file::{has_shebang, installed, with_shebang};
use crate::hook_file_laws::law_install_changes_only_the_block;
use vstd::prelude::*;

verus! {

/// A text opens with a shebang exactly where its first two characters are `#` and `!`.
pub(crate) proof fn lemma_shebang(text: Seq<char>)
    ensures
        has_shebang(text) <==> text.len() >= 2 && text[0] == '#' && text[1] == '!',
{
    reveal_strlit("#!");
    if text.len() >= 2 {
        let head = text.subrange(0, 2);
        assert(head[0] == text[0] && head[1] == text[1]);
        if text[0] == '#' && text[1] == '!' {
            assert(head =~= "#!"@);
        }
    }
}

/// Where there was no file, the new file is `#!/bin/sh` and the block.
pub proof fn law_fresh_file_is_shebang_and_block(hook: Seq<char>)
    ensures
        installed(None, hook).take(10) == "#!/bin/sh\n"@,
        installed(None, hook).skip(10) == block_text(hook),
{
    reveal_strlit("#!/bin/sh\n");
}

/// Where a file had a block, the new block stands at its place. What stood before the old block
/// stays as it was, and so does what stood behind the line of its end marker.
pub proof fn law_install_keeps_what_stands_around_a_block(existing: Seq<char>, hook: Seq<char>)
    requires
        marked_span(existing, hook) is Some,
    ensures
        ({
            let (start, end) = marked_span(existing, hook).unwrap();
            let new = installed(Some(existing), hook);
            let length = block_text(hook).len();
            &&& start + length <= new.len()
            &&& new.take(start) == existing.take(start)
            &&& new.subrange(start, start + length) == block_text(hook)
            &&& new.skip(start + length) == if end < existing.len() && existing[end] == '\n' {
                existing.skip(end + 1)
            } else {
                existing.skip(end)
            }
        }),
{
    let span = marked_span(existing, hook).unwrap();
    law_block_is_the_first_that_is_closed(existing, hook);
    law_one_line_end_goes_with_the_block(existing, span);
    law_install_changes_only_the_block(Some(existing), hook);
}

/// Where a file had no block, the new contents have `#` at position 0 and `!` at position 1.
/// Where the old contents do not open with these two characters, the new contents open with
/// `#!/bin/sh`, a line end and the old contents. Where they do, the new contents open with the
/// old contents. Either way an empty line and the block follow, and nothing else.
pub proof fn law_install_puts_the_block_behind_other_content(existing: Seq<char>, hook: Seq<char>)
    requires
        marked_span(existing, hook) is None,
    ensures
        ({
            let new = installed(Some(existing), hook);
            let opened = if existing.len() >= 2 && existing[0] == '#' && existing[1] == '!' {
                existing
            } else {
                "#!/bin/sh\n"@ + existing
            };
            &&& new.len() >= 2
            &&& new[0] == '#'
            &&& new[1] == '!'
            &&& opened.is_prefix_of(new)
            &&& opened.last() == '\n' ==> new == opened + "\n"@ + block_text(hook)
            &&& opened.last() != '\n' ==> new == opened + "\n\n"@ + block_text(hook)
        }),
{
    lemma_shebang(existing);
    reveal_strlit("#!/bin/sh\n");
    reveal_strlit("\n");
    reveal_strlit("\n\n");
    let new = installed(Some(existing), hook);
    let opened = with_shebang(existing);
    assert(opened.len() >= 2 && opened[0] == '#' && opened[1] == '!');
    assert("\n\n"@ =~= "\n"@ + "\n"@);
    assert(opened + "\n"@ + "\n"@ =~= opened + ("\n"@ + "\n"@));
    assert(opened =~= new.subrange(0, opened.len() as int));
}

/// A file that has no block keeps all its characters in order, whatever they are: the old
/// contents stand in the new contents as one piece.
pub proof fn law_install_loses_nothing(existing: Seq<char>, hook: Seq<char>)
    requires
        marked_span(existing, hook) is None,
    ensures
        ({
            let new = installed(Some(existing), hook);
            let shift: int = if existing.len() >= 2 && existing[0] == '#' && existing[1] == '!' {
                0
            } else {
                10
            };
            &&& shift + existing.len() + block_text(hook).len() < new.len()
            &&& forall|i: int| 0 <= i < existing.len() ==> new[shift + i] == #[trigger] existing[i]
            &&& block_text(hook).is_suffix_of(new)
        }),
{
    law_install_puts_the_block_behind_other_content(existing, hook);
    reveal_strlit("#!/bin/sh\n");
    reveal_strlit("\n");
    reveal_strlit("\n\n");
    let new = installed(Some(existing), hook);
    let block = block_text(hook);
    assert(block =~= new.subrange(new.len() - block.len(), new.len() as int));
}

} // verus!
