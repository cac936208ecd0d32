//! Installing a dispatcher into a hook file, and taking it out again.
//!
//! A hook file is what stands at `.git/hooks/<name>`: `None` where there is no such file, else
//! its contents.

use crate::block::{
    after_span, before_span, block_text, find_block, hook_block, marked_span, replace_marked_block,
    tail_after, with_block_replaced,
};
use crate::hook_table::texts;
use crate::text::{occurs_at, stands_at, to_chars, trim, trimmed};
use vstd::prelude::*;

verus! {

/// What `uninstall_hook` did to a hook file.
#[derive(Debug, Clone, Copy, PartialEq, Eq, Structural)]
pub enum UninstallOutcome {
    /// The hook file didn't exist, or existed without a block for this hook: it is as it was.
    NotInstalled,
    /// The block was the only real content of the file (but for its shebang), so the whole file
    /// was removed.
    FileDeleted,
    /// The block was removed, and the content around it was kept.
    BlockRemoved,
}

/// The contents of a hook file, where there is one.
pub open spec fn contents_of(file: Option<String>) -> Option<Seq<char>> {
    match file {
        Some(contents) => Some(contents@),
        None => None,
    }
}

/// `existing` opens with a shebang.
pub open spec fn has_shebang(existing: Seq<char>) -> bool {
    occurs_at(existing, "#!"@, 0)
}

/// `existing` behind a shebang: its own, or `#!/bin/sh` where it has none.
pub open spec fn with_shebang(existing: Seq<char>) -> Seq<char> {
    if has_shebang(existing) {
        existing
    } else {
        "#!/bin/sh\n"@ + existing
    }
}

/// `contents` with its last line closed by a line end.
pub open spec fn with_last_line_closed(contents: Seq<char>) -> Seq<char> {
    if contents.len() > 0 && contents.last() == '\n' {
        contents
    } else {
        contents + "\n"@
    }
}

/// What stands before the block in a file that had other content: that content behind a
/// shebang, its last line closed, and an empty line.
pub open spec fn host_text(existing: Seq<char>) -> Seq<char> {
    with_last_line_closed(with_shebang(existing)) + "\n"@
}

/// The contents of a hook file after an install.
pub open spec fn installed(file: Option<Seq<char>>, hook: Seq<char>) -> Seq<char> {
    match file {
        None => "#!/bin/sh\n"@ + block_text(hook),
        Some(existing) => match marked_span(existing, hook) {
            Some(span) => with_block_replaced(existing, span, block_text(hook)),
            None => host_text(existing) + block_text(hook),
        },
    }
}

/// What is left of a hook file without its marked block.
pub open spec fn without_block(contents: Seq<char>, span: (int, int)) -> Seq<char> {
    before_span(contents, span) + after_span(contents, span)
}

/// A line that opens the file as its shebang, and nothing else but white space.
pub open spec fn is_shebang_alone(contents: Seq<char>) -> bool {
    has_shebang(contents) && !trimmed(contents).contains('\n')
}

/// What stands before a block and after it is no content of its own: but for white space there
/// is nothing, or nothing but `#!/bin/sh`, or nothing but a shebang before the block. A line
/// that opens with `#!` further down is no shebang.
pub open spec fn is_bare(before: Seq<char>, after: Seq<char>) -> bool {
    let text = trimmed(before + after);
    ||| text.len() == 0
    ||| text == "#!/bin/sh"@
    ||| is_shebang_alone(before) && trimmed(after).len() == 0
}

/// The block of a hook in a hook file, where there is one.
pub open spec fn file_span(file: Option<Seq<char>>, hook: Seq<char>) -> Option<(int, int)> {
    match file {
        Some(contents) => marked_span(contents, hook),
        None => None,
    }
}

/// What an uninstall reports of a hook file.
pub open spec fn uninstall_outcome(file: Option<Seq<char>>, hook: Seq<char>) -> UninstallOutcome {
    match file_span(file, hook) {
        None => UninstallOutcome::NotInstalled,
        Some(span) => if is_bare(
            before_span(file->0, span),
            after_span(file->0, span),
        ) {
            UninstallOutcome::FileDeleted
        } else {
            UninstallOutcome::BlockRemoved
        },
    }
}

/// A hook file after an uninstall.
pub open spec fn uninstalled(file: Option<Seq<char>>, hook: Seq<char>) -> Option<Seq<char>> {
    match file_span(file, hook) {
        None => file,
        Some(span) => if is_bare(
            before_span(file->0, span),
            after_span(file->0, span),
        ) {
            None
        } else {
            Some(without_block(file->0, span))
        },
    }
}

/// The permissions of an installed hook file: git runs it, so it is executable.
pub const HOOK_FILE_MODE: u32 = 0o755;

/// Where hook files stand, from the root of a repository on, one directory after the other.
pub open spec fn hooks_dir_parts() -> Seq<Seq<char>> {
    seq![".git"@, "hooks"@]
}

/// The directory of the hook files, from the root of a repository on, one directory after the
/// other.
pub fn hooks_dir() -> (parts: Vec<String>)
    ensures
        texts(parts@) == hooks_dir_parts(),
        parts@.len() == 2,
        parts@[0]@ == ".git"@,
        parts@[1]@ == "hooks"@,
{
    let mut parts: Vec<String> = Vec::new();
    parts.push(".git".to_string());
    parts.push("hooks".to_string());
    assert(texts(parts@) =~= hooks_dir_parts());
    parts
}

/// The hook file of a hook, from the root of a repository on: it has the hook's name, and stands
/// in the directory of the hook files.
pub fn hook_path(hook_name: &str) -> (parts: Vec<String>)
    ensures
        texts(parts@) == hooks_dir_parts().push(hook_name@),
        parts@.len() == 3,
        parts@[0]@ == ".git"@,
        parts@[1]@ == "hooks"@,
        parts@[2]@ == hook_name@,
{
    let mut parts = hooks_dir();
    let ghost dir = texts(parts@);
    parts.push(hook_name.to_string());
    assert(texts(parts@) =~= dir.push(hook_name@));
    parts
}

/// Whether a file holds a shebang and nothing else.
fn holds_only_shebang(contents: &str) -> (r: bool)
    ensures
        r == is_shebang_alone(contents@),
{
    if !stands_at(&to_chars(contents), &to_chars("#!"), 0) {
        return false;
    }
    let chars = to_chars(trim(contents));
    let mut i: usize = 0;
    while i < chars.len()
        invariant
            has_shebang(contents@),
            chars@ == trimmed(contents@),
            i <= chars@.len(),
            forall|j: int| 0 <= j < i ==> chars@[j] != '\n',
        decreases chars@.len() - i,
    {
        if chars[i] == '\n' {
            assert(chars@.contains('\n'));
            return false;
        }
        i += 1;
    }
    true
}

/// Whether what stands before a block and after it, together `remainder`, is no content of its
/// own.
fn holds_nothing(before: &str, after: &str, remainder: &str) -> (r: bool)
    requires
        remainder@ == before@ + after@,
    ensures
        r == is_bare(before@, after@),
{
    let text = trim(remainder);
    text.is_empty() || text.to_string() == "#!/bin/sh".to_string() || (holds_only_shebang(before)
        && trim(after).is_empty())
}

/// Puts the block behind what a hook file without one already holds.
fn append_block(existing: &str, block: &str) -> (r: String)
    ensures
        r@ == host_text(existing@) + block@,
{
    let shebang = to_chars("#!");
    let mut out = if stands_at(&to_chars(existing), &shebang, 0) {
        existing.to_string()
    } else {
        let mut text = "#!/bin/sh\n".to_string();
        text.append(existing);
        text
    };
    let chars = to_chars(out.as_str());
    if chars.len() == 0 || chars[chars.len() - 1] != '\n' {
        out.append("\n");
    }
    out.append("\n");
    out.append(block);
    out
}

/// Installs (or updates) the dispatcher of one hook in its hook file.
///
/// - No file: a fresh `#!/bin/sh` script that holds just the block.
/// - A file with a block for this hook: that block is replaced in place.
/// - A file with other content: the block is appended, and nothing is overwritten.
pub fn install_hook(file: &mut Option<String>, hook_name: &str)
    ensures
        contents_of(*final(file)) == Some(installed(contents_of(*old(file)), hook_name@)),
        match (*old(file), *final(file)) {
            (_, None) => false,
            (None, Some(new)) => new@ == installed(None, hook_name@),
            (Some(existing), Some(new)) => new@ == installed(Some(existing@), hook_name@),
        },
{
    let block = hook_block(hook_name);
    let contents = match &*file {
        None => {
            let mut fresh = "#!/bin/sh\n".to_string();
            fresh.append(block.as_str());
            fresh
        },
        Some(existing) => match replace_marked_block(existing.as_str(), hook_name, block.as_str()) {
            Some(replaced) => replaced,
            None => append_block(existing.as_str(), block.as_str()),
        },
    };
    *file = Some(contents);
}

/// Takes the block of one hook out of its hook file, and keeps any other content. Where no
/// other content is left, the file goes with it.
pub fn uninstall_hook(file: &mut Option<String>, hook_name: &str) -> (outcome: UninstallOutcome)
    ensures
        outcome == uninstall_outcome(contents_of(*old(file)), hook_name@),
        contents_of(*final(file)) == uninstalled(contents_of(*old(file)), hook_name@),
        match (*old(file), *final(file)) {
            (None, None) => outcome == UninstallOutcome::NotInstalled,
            (None, Some(_)) => false,
            (Some(contents), None) => {
                &&& outcome == uninstall_outcome(Some(contents@), hook_name@)
                &&& uninstalled(Some(contents@), hook_name@) is None
            },
            (Some(contents), Some(rest)) => {
                &&& outcome == uninstall_outcome(Some(contents@), hook_name@)
                &&& uninstalled(Some(contents@), hook_name@) == Some(rest@)
            },
        },
{
    let (bare, remainder) = match &*file {
        None => {
            return UninstallOutcome::NotInstalled;
        },
        Some(contents) => {
            match find_block(contents.as_str(), hook_name) {
                None => {
                    return UninstallOutcome::NotInstalled;
                },
                Some((start, end)) => {
                    assert(contents@.subrange(0, start as int) == contents@.take(start as int));
                    let before = contents.as_str().substring_char(0, start);
                    let after = tail_after(contents.as_str(), end);
                    let mut rest = before.to_string();
                    rest.append(after);
                    (holds_nothing(before, after, rest.as_str()), rest)
                },
            }
        },
    };
    if bare {
        *file = None;
        UninstallOutcome::FileDeleted
    } else {
        *file = Some(remainder);
        UninstallOutcome::BlockRemoved
    }
}

} // verus!
