use hookmgr::{
    hook_block, hook_path, hooks_dir, install_hook, markers, replace_marked_block, uninstall_hook,
    UninstallOutcome, HOOK_FILE_MODE,
};

const PRE_COMMIT_BLOCK: &str = "# >>> hookmgr pre-commit >>>\n\
# Installed by `hookmgr install`. Safe to re-run to update this block in\n\
# place; do not hand-edit between the markers. The commands that actually\n\
# run live in .hookmgr.toml, not here.\n\
if command -v hookmgr >/dev/null 2>&1; then\n\
hookmgr run pre-commit -- \"$@\"\n\
else\n\
echo \"hookmgr: not found on PATH, skipping pre-commit checks\" >&2\n\
fi\n\
# <<< hookmgr pre-commit <<<\n";

fn installed(before: Option<&str>, hook: &str) -> String {
    let mut file: Option<String> = before.map(|s| s.to_string());
    install_hook(&mut file, hook);
    file.unwrap()
}

fn uninstalled(before: Option<&str>, hook: &str) -> (UninstallOutcome, Option<String>) {
    let mut file: Option<String> = before.map(|s| s.to_string());
    let outcome = uninstall_hook(&mut file, hook);
    (outcome, file)
}

#[test]
fn install_writes_a_fresh_executable_hook() {
    let path = hook_path("pre-commit");
    assert_eq!(path.last().unwrap(), "pre-commit");
    let contents = installed(None, "pre-commit");
    assert!(contents.starts_with("#!/bin/sh"));
    assert!(contents.contains("hookmgr run pre-commit"));
    assert!(HOOK_FILE_MODE & 0o111 != 0, "hook must be executable");
    assert_eq!(HOOK_FILE_MODE, 0o755);
    assert_eq!(contents, format!("#!/bin/sh\n{PRE_COMMIT_BLOCK}"));
}

#[test]
fn install_appends_to_existing_unrelated_hook_without_destroying_it() {
    let contents = installed(Some("#!/bin/sh\necho 'run by husky'\n"), "pre-commit");
    assert!(
        contents.contains("run by husky"),
        "pre-existing hook content was destroyed"
    );
    assert!(contents.contains("hookmgr run pre-commit"));
    assert_eq!(
        contents,
        format!("#!/bin/sh\necho 'run by husky'\n\n{PRE_COMMIT_BLOCK}")
    );
}

#[test]
fn install_is_idempotent_across_repeated_runs() {
    let mut file: Option<String> = None;
    install_hook(&mut file, "pre-commit");
    let once = file.clone();
    install_hook(&mut file, "pre-commit");
    install_hook(&mut file, "pre-commit");
    assert_eq!(file, once);
    let contents = file.unwrap();
    assert_eq!(contents.matches("hookmgr run pre-commit").count(), 1);
    assert_eq!(contents.matches("# >>> hookmgr pre-commit >>>").count(), 1);
}

#[test]
fn install_handles_multiple_distinct_hook_types_independently() {
    let mut files: Vec<(Vec<String>, Option<String>)> = Vec::new();
    for name in ["pre-commit", "commit-msg", "pre-push"] {
        let mut file: Option<String> = None;
        install_hook(&mut file, name);
        files.push((hook_path(name), file));
    }
    for (i, name) in ["pre-commit", "commit-msg", "pre-push"].iter().enumerate() {
        assert_eq!(files[i].0, vec![".git", "hooks", name]);
        let contents = files[i].1.clone().unwrap();
        assert!(contents.contains(&format!("hookmgr run {name}")));
        for (j, other) in files.iter().enumerate() {
            assert_eq!(files[i].0 == other.0, i == j);
        }
    }
}

#[test]
fn uninstall_removes_block_and_deletes_file_when_nothing_else_remains() {
    let mut file: Option<String> = None;
    install_hook(&mut file, "pre-commit");
    let outcome = uninstall_hook(&mut file, "pre-commit");
    assert_eq!(outcome, UninstallOutcome::FileDeleted);
    assert!(file.is_none());
}

#[test]
fn uninstall_preserves_unrelated_content() {
    let mut file: Option<String> = Some("#!/bin/sh\necho 'run by husky'\n".to_string());
    install_hook(&mut file, "pre-commit");
    let outcome = uninstall_hook(&mut file, "pre-commit");
    assert_eq!(outcome, UninstallOutcome::BlockRemoved);
    let contents = file.clone().unwrap();
    assert!(contents.contains("run by husky"));
    assert!(!contents.contains("hookmgr run pre-commit"));
    assert_eq!(contents, "#!/bin/sh\necho 'run by husky'\n\n");
    assert_eq!(
        uninstall_hook(&mut file, "pre-commit"),
        UninstallOutcome::NotInstalled
    );
    assert_eq!(file.unwrap(), contents);
}

#[test]
fn uninstall_on_a_never_installed_hook_is_a_no_op() {
    assert_eq!(
        uninstalled(None, "pre-commit"),
        (UninstallOutcome::NotInstalled, None)
    );
    let other = "#!/bin/sh\necho hi\n";
    assert_eq!(
        uninstalled(Some(other), "pre-commit"),
        (UninstallOutcome::NotInstalled, Some(other.to_string()))
    );
}

#[test]
fn markers_carry_the_name_of_the_hook() {
    assert_eq!(
        markers("pre-push"),
        (
            "# >>> hookmgr pre-push >>>".to_string(),
            "# <<< hookmgr pre-push <<<".to_string()
        )
    );
    assert_ne!(markers("pre-push").0, markers("pre-commit").0);
}

#[test]
fn block_text_is_exact() {
    assert_eq!(hook_block("pre-commit"), PRE_COMMIT_BLOCK);
}

#[test]
fn hooks_dir_is_below_dot_git() {
    assert_eq!(hooks_dir(), vec![".git".to_string(), "hooks".to_string()]);
}

#[test]
fn install_adds_a_shebang_where_there_is_none() {
    assert_eq!(
        installed(Some("echo hi"), "pre-commit"),
        format!("#!/bin/sh\necho hi\n\n{PRE_COMMIT_BLOCK}")
    );
    assert_eq!(
        installed(Some(""), "pre-commit"),
        format!("#!/bin/sh\n\n{PRE_COMMIT_BLOCK}")
    );
    assert_eq!(
        installed(Some("#!/usr/bin/env bash\necho hi"), "pre-commit"),
        format!("#!/usr/bin/env bash\necho hi\n\n{PRE_COMMIT_BLOCK}")
    );
}

#[test]
fn install_replaces_the_block_in_place() {
    let old = "#!/bin/sh\necho é\n# >>> hookmgr pre-commit >>>\nold\n# <<< hookmgr pre-commit <<<\necho after\n";
    let contents = installed(Some(old), "pre-commit");
    assert_eq!(
        contents,
        format!("#!/bin/sh\necho é\n{PRE_COMMIT_BLOCK}echo after\n")
    );
    assert_eq!(installed(Some(&contents), "pre-commit"), contents);
    assert_eq!(
        uninstalled(Some(&contents), "pre-commit"),
        uninstalled(Some(old), "pre-commit")
    );
    assert_eq!(
        uninstalled(Some(old), "pre-commit"),
        (
            UninstallOutcome::BlockRemoved,
            Some("#!/bin/sh\necho é\necho after\n".to_string())
        )
    );
}

#[test]
fn replaced_block_is_closed_by_one_line_end() {
    let existing = "a# >>> hookmgr x >>>b# <<< hookmgr x <<<c";
    assert_eq!(
        replace_marked_block(existing, "x", "new\n\n\n").unwrap(),
        "anew\nc"
    );
    assert_eq!(
        replace_marked_block("# >>> hookmgr x >>># <<< hookmgr x <<<\n\nrest", "x", "").unwrap(),
        "\n\nrest"
    );
}

#[test]
fn block_needs_both_markers_in_order() {
    assert!(replace_marked_block("", "x", "new").is_none());
    assert!(replace_marked_block("# >>> hookmgr x >>>\n", "x", "new").is_none());
    assert!(replace_marked_block("# <<< hookmgr x <<<\n", "x", "new").is_none());
    assert!(
        replace_marked_block("# <<< hookmgr x <<<\n# >>> hookmgr x >>>\n", "x", "new").is_none()
    );
    assert!(replace_marked_block(PRE_COMMIT_BLOCK, "commit", "new").is_none());
}

#[test]
fn block_of_another_hook_is_left_alone() {
    let both = installed(Some(&installed(None, "pre-commit")), "pre-push");
    assert!(both.contains("hookmgr run pre-commit"));
    assert!(both.contains("hookmgr run pre-push"));
    let (outcome, rest) = uninstalled(Some(&both), "pre-push");
    assert_eq!(outcome, UninstallOutcome::BlockRemoved);
    assert_eq!(rest.unwrap(), format!("#!/bin/sh\n{PRE_COMMIT_BLOCK}\n"));
}

#[test]
fn file_of_white_space_goes_with_the_block() {
    let file = format!("\u{a0}\n#!/bin/sh\t\n{PRE_COMMIT_BLOCK}\u{3000}\n");
    assert_eq!(
        uninstalled(Some(&file), "pre-commit"),
        (UninstallOutcome::FileDeleted, None)
    );
    assert_eq!(
        uninstalled(Some(PRE_COMMIT_BLOCK), "pre-commit"),
        (UninstallOutcome::FileDeleted, None)
    );
    assert_eq!(
        uninstalled(Some(&installed(Some(" \n"), "pre-commit")), "pre-commit"),
        (UninstallOutcome::FileDeleted, None)
    );
}

#[test]
fn any_shebang_alone_goes_with_the_block() {
    for shebang in ["#!/bin/sh", "#!/bin/bash", "#!/usr/bin/env bash", "#! /bin/sh -e "] {
        let file = format!("{shebang}\n{PRE_COMMIT_BLOCK}");
        assert_eq!(
            uninstalled(Some(&file), "pre-commit"),
            (UninstallOutcome::FileDeleted, None)
        );
        assert_eq!(
            uninstalled(Some(&installed(Some(shebang), "pre-commit")), "pre-commit"),
            (UninstallOutcome::FileDeleted, None)
        );
        let more = format!("{shebang}\n:\n{PRE_COMMIT_BLOCK}");
        assert_eq!(
            uninstalled(Some(&more), "pre-commit"),
            (
                UninstallOutcome::BlockRemoved,
                Some(format!("{shebang}\n:\n"))
            )
        );
    }
    let comment = format!("# a comment\n{PRE_COMMIT_BLOCK}");
    assert_eq!(
        uninstalled(Some(&comment), "pre-commit"),
        (
            UninstallOutcome::BlockRemoved,
            Some("# a comment\n".to_string())
        )
    );
}

#[test]
fn line_that_looks_like_a_shebang_is_kept_elsewhere() {
    let block = "# >>> hookmgr x >>>\nold\n# <<< hookmgr x <<<\n";
    for (file, rest) in [
        (format!("{block}#! note\n"), "#! note\n"),
        (format!("{block}#!/bin/bash\n"), "#!/bin/bash\n"),
        (format!("#!/bin/bash{block}foo"), "#!/bin/bashfoo"),
        (format!("\n\n#!/bin/bash\n{block}"), "\n\n#!/bin/bash\n"),
        (format!("#!/bin/bash\n{block}#! note\n"), "#!/bin/bash\n#! note\n"),
        (format!("#!/bin/bash\n# note\n{block}"), "#!/bin/bash\n# note\n"),
    ] {
        assert_eq!(
            uninstalled(Some(&file), "x"),
            (UninstallOutcome::BlockRemoved, Some(rest.to_string()))
        );
    }
    for file in [
        format!("#!/bin/bash\n{block} \n\n"),
        format!("#!/bin/bash{block}"),
        format!("\n#!/bin/sh\n{block}"),
        format!("{block}#!/bin/sh\n"),
    ] {
        assert_eq!(
            uninstalled(Some(&file), "x"),
            (UninstallOutcome::FileDeleted, None)
        );
    }
}

#[test]
fn lone_start_marker_is_other_content() {
    let lone = "#!/bin/sh\n# >>> hookmgr pre-commit >>>\necho mine\n";
    let once = installed(Some(lone), "pre-commit");
    assert_eq!(once, format!("{lone}\n{PRE_COMMIT_BLOCK}"));
    let twice = installed(Some(&once), "pre-commit");
    assert!(twice.contains("echo mine\n"));
    assert_eq!(twice, once);
    assert_eq!(
        uninstalled(Some(&twice), "pre-commit"),
        (UninstallOutcome::BlockRemoved, Some(format!("{lone}\n")))
    );
    assert_eq!(
        uninstalled(Some(&format!("{lone}\n")), "pre-commit").0,
        UninstallOutcome::NotInstalled
    );
}

#[test]
fn block_starts_at_the_last_start_marker_before_its_end() {
    let existing = "a# >>> hookmgr x >>>b# >>> hookmgr x >>>c# <<< hookmgr x <<<d# >>> hookmgr x >>>e# <<< hookmgr x <<<f";
    assert_eq!(
        replace_marked_block(existing, "x", "new").unwrap(),
        "a# >>> hookmgr x >>>bnew\nd# >>> hookmgr x >>>e# <<< hookmgr x <<<f"
    );
    let ends_first = "# <<< hookmgr x <<<a# >>> hookmgr x >>>b# <<< hookmgr x <<<";
    assert_eq!(
        replace_marked_block(ends_first, "x", "new").unwrap(),
        "# <<< hookmgr x <<<anew\n"
    );
}

#[test]
fn install_settles_for_names_full_of_markers() {
    for name in [
        "", "<", " <<<", "# <<< hookmgr ", "a\n# <<< hookmgr a <<<", "<<<<<<", ">>>", "# >>> hookmgr ",
        ">>>\n# >>> hookmgr ", "a >>>\n# Installed by",
    ] {
        let once = installed(None, name);
        assert_eq!(installed(Some(&once), name), once);
        assert_eq!(
            uninstalled(Some(&once), name),
            (UninstallOutcome::FileDeleted, None)
        );
    }
}
