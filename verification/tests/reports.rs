use hookmgr::text::{is_white_space, trim};
use hookmgr::text_order::comes_before;
use hookmgr::{
    install_plan, install_report, list_report, missing_config_message, parse_config,
    resolve_targets, uninstall_plan, uninstall_report, HookConfig, Plan, UninstallOutcome,
};

fn strings(items: &[&str]) -> Vec<String> {
    items.iter().map(|s| s.to_string()).collect()
}

fn sample() -> HookConfig {
    parse_config("[hooks]\npre-push = [\"c\"]\ncommit-msg = []\npre-commit = [\"a\", \"b\"]\n")
        .unwrap()
}

#[test]
fn targets_are_those_asked_for_or_all() {
    assert_eq!(
        resolve_targets(&sample(), Vec::new()),
        strings(&["commit-msg", "pre-commit", "pre-push"])
    );
    assert_eq!(
        resolve_targets(&sample(), strings(&["pre-push", "other", "pre-push"])),
        strings(&["pre-push", "other", "pre-push"])
    );
}

#[test]
fn install_without_hooks_says_so() {
    assert_eq!(
        install_plan(&HookConfig::default(), Vec::new()),
        Plan::Nothing(
            "hookmgr: no hooks configured in .hookmgr.toml, nothing to install".to_string()
        )
    );
    assert_eq!(
        install_plan(&HookConfig::default(), strings(&["pre-push"])),
        Plan::Hooks(strings(&["pre-push"]))
    );
    assert_eq!(
        install_plan(&sample(), Vec::new()),
        Plan::Hooks(strings(&["commit-msg", "pre-commit", "pre-push"]))
    );
}

#[test]
fn uninstall_without_hooks_says_so() {
    let nothing = Plan::Nothing("hookmgr: nothing to uninstall".to_string());
    assert_eq!(uninstall_plan(None, Vec::new()), nothing);
    assert_eq!(
        uninstall_plan(Some(&HookConfig::default()), Vec::new()),
        nothing
    );
    assert_eq!(
        uninstall_plan(None, strings(&["pre-push"])),
        Plan::Hooks(strings(&["pre-push"]))
    );
    assert_eq!(
        uninstall_plan(Some(&sample()), Vec::new()),
        Plan::Hooks(strings(&["commit-msg", "pre-commit", "pre-push"]))
    );
}

#[test]
fn install_report_counts_the_commands() {
    assert_eq!(
        install_report("./.git/hooks/pre-commit", &sample(), "pre-commit"),
        "installed ./.git/hooks/pre-commit (2 command(s) configured)"
    );
    assert_eq!(
        install_report("x", &sample(), "commit-msg"),
        "installed x (0 command(s) configured)"
    );
    assert_eq!(
        install_report("./.git/hooks/post-merge", &sample(), "post-merge"),
        "installed ./.git/hooks/post-merge (0 command(s) configured)"
    );
    let mut config = HookConfig::default();
    for count in [9usize, 10, 99, 100, 567, 1060] {
        config
            .hooks
            .insert("many".to_string(), vec!["true".to_string(); count]);
        assert_eq!(
            install_report("p", &config, "many"),
            format!("installed p ({count} command(s) configured)")
        );
    }
}

#[test]
fn uninstall_report_names_the_outcome() {
    assert_eq!(
        uninstall_report("pre-push", UninstallOutcome::NotInstalled),
        "pre-push: not installed, skipped"
    );
    assert_eq!(
        uninstall_report("pre-push", UninstallOutcome::FileDeleted),
        "pre-push: removed (hook file deleted)"
    );
    assert_eq!(
        uninstall_report("pre-push", UninstallOutcome::BlockRemoved),
        "pre-push: hookmgr block removed, other hook content preserved"
    );
}

#[test]
fn list_shows_each_hook_in_order() {
    assert_eq!(
        list_report(&sample()),
        strings(&[
            "commit-msg:",
            "pre-commit:",
            "  - a",
            "  - b",
            "pre-push:",
            "  - c"
        ])
    );
    assert_eq!(
        list_report(&HookConfig::default()),
        strings(&["hookmgr: .hookmgr.toml exists but has no [hooks] configured"])
    );
}

#[test]
fn missing_config_message_names_the_directory() {
    assert_eq!(
        missing_config_message("/tmp/repo"),
        "no .hookmgr.toml found in /tmp/repo"
    );
}

#[test]
fn white_space_is_that_of_unicode() {
    for code in 0u32..=0x10ffff {
        if let Some(c) = char::from_u32(code) {
            assert_eq!(is_white_space(c), c.is_whitespace(), "{code:x}");
        }
    }
}

#[test]
fn trim_takes_white_space_from_both_ends() {
    for text in [
        "", " ", "a", " a ", "\t\na b\r\n", "\u{3000}é\u{2028}", "\u{200b}x\u{200b}", "#!/bin/sh\n",
    ] {
        assert_eq!(trim(text), text.trim());
    }
}

#[test]
fn order_is_that_of_strings() {
    let words = ["", "a", "ab", "b", "B", "é", "\u{ffff}", "\u{10000}", "a\u{0}", "pre-commit"];
    for a in words {
        for b in words {
            assert_eq!(comes_before(a, b), a < b, "{a:?} {b:?}");
        }
    }
}
