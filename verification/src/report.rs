//! Which hooks a request is about, and what the program says.

use crate::config::{HookConfig, CONFIG_FILENAME};
use crate::hook_file::UninstallOutcome;
use crate::hook_table::{law_names_have_one_order, lists, texts};
use crate::runner::configured;
use crate::text_order::precedes;
use vstd::prelude::*;

verus! {

/// What a request to install or to uninstall comes to.
#[derive(Debug, PartialEq, Eq)]
pub enum Plan {
    /// There is nothing to do, and this says so.
    Nothing(String),
    /// Go through these hooks, in order.
    Hooks(Vec<String>),
}

/// The hooks that a request is about: those that it names, or all that are configured, in
/// order.
pub open spec fn is_target_list(
    targets: Seq<Seq<char>>,
    configured: Set<Seq<char>>,
    requested: Seq<Seq<char>>,
) -> bool {
    if requested.len() == 0 {
        lists(targets, configured)
    } else {
        targets == requested
    }
}

/// The hooks to go through, or the message where there are none.
pub open spec fn plan_is(
    plan: Plan,
    configured: Set<Seq<char>>,
    requested: Seq<Seq<char>>,
    message: Seq<char>,
) -> bool {
    match plan {
        Plan::Nothing(text) => {
            &&& requested.len() == 0
            &&& configured == Set::<Seq<char>>::empty()
            &&& text@ == message
        },
        Plan::Hooks(targets) => {
            &&& targets@.len() > 0
            &&& is_target_list(texts(targets@), configured, requested)
        },
    }
}

/// The names of the hooks that are configured, none without a configuration.
pub open spec fn configured_names(config: Option<&HookConfig>) -> Set<Seq<char>> {
    match config {
        Some(config) => config.hooks@.dom(),
        None => Set::empty(),
    }
}

/// The hooks that an install is about: those that were asked for, or every hook that is
/// configured.
pub fn resolve_targets(config: &HookConfig, requested: Vec<String>) -> (targets: Vec<String>)
    ensures
        is_target_list(texts(targets@), config.hooks@.dom(), texts(requested@)),
        requested@.len() > 0 ==> {
            &&& targets@.len() == requested@.len()
            &&& forall|i: int|
                0 <= i < requested@.len() ==> targets@[i]@ == #[trigger] requested@[i]@
        },
        requested@.len() > 0 ==> texts(targets@) == texts(requested@),
        requested@.len() == 0 ==> {
            &&& forall|i: int, j: int|
                0 <= i < j < targets@.len() ==> precedes(
                    #[trigger] targets@[i]@,
                    #[trigger] targets@[j]@,
                )
            &&& forall|i: int|
                0 <= i < targets@.len() ==> config.hooks@.contains_key(#[trigger] targets@[i]@)
            &&& forall|name: Seq<char>| #[trigger]
                config.hooks@.contains_key(name) ==> exists|i: int|
                    0 <= i < targets@.len() && #[trigger] targets@[i]@ == name
        },
{
    if requested.len() == 0 {
        config.hooks.keys()
    } else {
        requested
    }
}

proof fn lemma_empty_list(names: Seq<Seq<char>>, keys: Set<Seq<char>>)
    requires
        lists(names, keys),
    ensures
        names.len() == 0 <==> keys == Set::<Seq<char>>::empty(),
{
    if names.len() == 0 {
        assert(keys =~= Set::<Seq<char>>::empty());
    } else {
        assert(names.to_set().contains(names[0]));
    }
}

/// What a request to install comes to.
pub fn install_plan(config: &HookConfig, requested: Vec<String>) -> (plan: Plan)
    ensures
        plan_is(
            plan,
            config.hooks@.dom(),
            texts(requested@),
            "hookmgr: no hooks configured in "@ + CONFIG_FILENAME@ + ", nothing to install"@,
        ),
        plan is Nothing ==> plan->Nothing_0@ == "hookmgr: no hooks configured in "@
            + ".hookmgr.toml"@ + ", nothing to install"@,
        plan is Nothing <==> requested@.len() == 0 && (forall|name: Seq<char>|
            !config.hooks@.contains_key(name)),
        requested@.len() > 0 ==> {
            &&& plan is Hooks
            &&& plan->Hooks_0@.len() == requested@.len()
            &&& forall|i: int|
                0 <= i < requested@.len() ==> plan->Hooks_0@[i]@ == #[trigger] requested@[i]@
        },
        requested@.len() > 0 ==> plan is Hooks && texts(plan->Hooks_0@) == texts(requested@),
        requested@.len() == 0 && plan is Hooks ==> {
            &&& forall|i: int, j: int|
                0 <= i < j < plan->Hooks_0@.len() ==> precedes(
                    #[trigger] plan->Hooks_0@[i]@,
                    #[trigger] plan->Hooks_0@[j]@,
                )
            &&& forall|i: int|
                0 <= i < plan->Hooks_0@.len() ==> config.hooks@.contains_key(
                    #[trigger] plan->Hooks_0@[i]@,
                )
            &&& forall|name: Seq<char>| #[trigger]
                config.hooks@.contains_key(name) ==> exists|i: int|
                    0 <= i < plan->Hooks_0@.len() && #[trigger] plan->Hooks_0@[i]@ == name
        },
{
    let targets = resolve_targets(config, requested);
    proof {
        if requested@.len() == 0 {
            lemma_empty_list(texts(targets@), config.hooks@.dom());
        } else {
            assert(texts(targets@).len() == requested@.len());
        }
    }
    proof {
        if targets@.len() > 0 && requested@.len() == 0 {
            assert(config.hooks@.contains_key(targets@[0]@));
        }
    }
    if targets.len() == 0 {
        let mut message = "hookmgr: no hooks configured in ".to_string();
        message.append(CONFIG_FILENAME);
        message.append(", nothing to install");
        Plan::Nothing(message)
    } else {
        Plan::Hooks(targets)
    }
}

/// What a request to uninstall comes to. Without a configuration, only hooks that the request
/// names are gone through.
pub fn uninstall_plan(config: Option<&HookConfig>, requested: Vec<String>) -> (plan: Plan)
    ensures
        plan_is(
            plan,
            configured_names(config),
            texts(requested@),
            "hookmgr: nothing to uninstall"@,
        ),
        plan is Nothing ==> plan->Nothing_0@ == "hookmgr: nothing to uninstall"@,
        plan is Nothing <==> requested@.len() == 0 && match config {
            Some(config) => forall|name: Seq<char>| !config.hooks@.contains_key(name),
            None => true,
        },
        requested@.len() > 0 ==> {
            &&& plan is Hooks
            &&& plan->Hooks_0@.len() == requested@.len()
            &&& forall|i: int|
                0 <= i < requested@.len() ==> plan->Hooks_0@[i]@ == #[trigger] requested@[i]@
        },
        requested@.len() > 0 ==> plan is Hooks && texts(plan->Hooks_0@) == texts(requested@),
        requested@.len() == 0 && plan is Hooks ==> match config {
            Some(config) => {
                &&& forall|i: int, j: int|
                    0 <= i < j < plan->Hooks_0@.len() ==> precedes(
                        #[trigger] plan->Hooks_0@[i]@,
                        #[trigger] plan->Hooks_0@[j]@,
                    )
                &&& forall|i: int|
                    0 <= i < plan->Hooks_0@.len() ==> config.hooks@.contains_key(
                        #[trigger] plan->Hooks_0@[i]@,
                    )
                &&& forall|name: Seq<char>| #[trigger]
                    config.hooks@.contains_key(name) ==> exists|i: int|
                        0 <= i < plan->Hooks_0@.len() && #[trigger] plan->Hooks_0@[i]@ == name
            },
            None => false,
        },
{
    let targets: Vec<String> = match config {
        Some(config) => resolve_targets(config, requested),
        None => requested,
    };
    proof {
        match config {
            Some(config) => {
                if requested@.len() == 0 {
                    lemma_empty_list(texts(targets@), config.hooks@.dom());
                    if targets@.len() > 0 {
                        assert(config.hooks@.contains_key(targets@[0]@));
                    }
                } else {
                    assert(texts(targets@).len() == requested@.len());
                }
            },
            None => {},
        }
    }
    if targets.len() == 0 {
        Plan::Nothing("hookmgr: nothing to uninstall".to_string())
    } else {
        Plan::Hooks(targets)
    }
}

/// The decimal digit of a number below ten.
pub open spec fn digit(n: nat) -> Seq<char> {
    if n == 0 {
        "0"@
    } else if n == 1 {
        "1"@
    } else if n == 2 {
        "2"@
    } else if n == 3 {
        "3"@
    } else if n == 4 {
        "4"@
    } else if n == 5 {
        "5"@
    } else if n == 6 {
        "6"@
    } else if n == 7 {
        "7"@
    } else if n == 8 {
        "8"@
    } else {
        "9"@
    }
}

/// A number in decimal.
pub open spec fn decimal(n: nat) -> Seq<char>
    decreases n,
{
    if n < 10 {
        digit(n)
    } else {
        decimal(n / 10) + digit(n % 10)
    }
}

/// A number below ten is one character, that many behind `0`. The last character of any other
/// number is that of its remainder by ten, and the characters before it are those of its quotient
/// by ten.
pub proof fn law_decimal_is_quotient_and_remainder(n: nat)
    ensures
        n < 10 ==> decimal(n).len() == 1 && decimal(n)[0] as int == '0' as int + n,
        n >= 10 ==> decimal(n).len() == decimal(n / 10).len() + 1,
        n >= 10 ==> decimal(n).drop_last() == decimal(n / 10),
        n >= 10 ==> decimal(n).last() as int == '0' as int + n % 10,
{
    lemma_digit(n % 10);
    if n < 10 {
        assert(n % 10 == n);
    } else {
        assert(decimal(n) == decimal(n / 10) + digit(n % 10));
        assert(decimal(n).drop_last() =~= decimal(n / 10));
    }
}

proof fn lemma_digit(n: nat)
    requires
        n < 10,
    ensures
        digit(n).len() == 1,
        digit(n)[0] as int == '0' as int + n,
{
    reveal_strlit("0");
    reveal_strlit("1");
    reveal_strlit("2");
    reveal_strlit("3");
    reveal_strlit("4");
    reveal_strlit("5");
    reveal_strlit("6");
    reveal_strlit("7");
    reveal_strlit("8");
    reveal_strlit("9");
}

fn digit_text(n: usize) -> (r: &'static str)
    requires
        n < 10,
    ensures
        r@ == digit(n as nat),
{
    match n {
        0 => "0",
        1 => "1",
        2 => "2",
        3 => "3",
        4 => "4",
        5 => "5",
        6 => "6",
        7 => "7",
        8 => "8",
        _ => "9",
    }
}

fn decimal_text(n: usize) -> (r: String)
    ensures
        r@ == decimal(n as nat),
    decreases n,
{
    if n < 10 {
        digit_text(n).to_string()
    } else {
        let mut text = decimal_text(n / 10);
        text.append(digit_text(n % 10));
        text
    }
}

/// What is said of a hook that was installed at `path`: how many commands are configured for it,
/// none where the configuration does not name it.
pub fn install_report(path: &str, config: &HookConfig, hook_name: &str) -> (r: String)
    ensures
        r@ == "installed "@ + path@ + " ("@ + decimal(configured(Some(config), hook_name@).len())
            + " command(s) configured)"@,
        config.hooks@.contains_key(hook_name@) ==> r@ == "installed "@ + path@ + " ("@ + decimal(
            config.hooks@[hook_name@].len(),
        ) + " command(s) configured)"@,
        !config.hooks@.contains_key(hook_name@) ==> r@ == "installed "@ + path@ + " ("@ + decimal(0)
            + " command(s) configured)"@,
{
    let count: usize = match config.hooks.get(hook_name) {
        Some(commands) => {
            assert(texts(commands@).len() == commands@.len());
            commands.len()
        },
        None => 0,
    };
    let mut text = "installed ".to_string();
    text.append(path);
    text.append(" (");
    text.append(decimal_text(count).as_str());
    text.append(" command(s) configured)");
    text
}

/// What an uninstall says of its outcome, behind the hook's name.
pub open spec fn outcome_text(outcome: UninstallOutcome) -> Seq<char> {
    match outcome {
        UninstallOutcome::NotInstalled => ": not installed, skipped"@,
        UninstallOutcome::FileDeleted => ": removed (hook file deleted)"@,
        UninstallOutcome::BlockRemoved => {
            ": hookmgr block removed, other hook content preserved"@
        },
    }
}

/// What is said of a hook that was uninstalled.
pub fn uninstall_report(hook_name: &str, outcome: UninstallOutcome) -> (r: String)
    ensures
        r@ == hook_name@ + outcome_text(outcome),
        match outcome {
            UninstallOutcome::NotInstalled => r@ == hook_name@ + ": not installed, skipped"@,
            UninstallOutcome::FileDeleted => r@ == hook_name@ + ": removed (hook file deleted)"@,
            UninstallOutcome::BlockRemoved => r@ == hook_name@
                + ": hookmgr block removed, other hook content preserved"@,
        },
{
    let mut text = hook_name.to_string();
    match outcome {
        UninstallOutcome::NotInstalled => {
            text.append(": not installed, skipped");
        },
        UninstallOutcome::FileDeleted => {
            text.append(": removed (hook file deleted)");
        },
        UninstallOutcome::BlockRemoved => {
            text.append(": hookmgr block removed, other hook content preserved");
        },
    }
    text
}

/// The lines on one hook: its name, and below it each of its commands.
pub open spec fn hook_lines(name: Seq<char>, commands: Seq<Seq<char>>) -> Seq<Seq<char>> {
    seq![name + ":"@] + commands.map_values(|command: Seq<char>| "  - "@ + command)
}

/// The lines on these hooks, in this order.
pub open spec fn list_lines(
    names: Seq<Seq<char>>,
    hooks: Map<Seq<char>, Seq<Seq<char>>>,
) -> Seq<Seq<char>>
    decreases names.len(),
{
    if names.len() == 0 {
        Seq::empty()
    } else {
        list_lines(names.drop_last(), hooks) + hook_lines(names.last(), hooks[names.last()])
    }
}

/// The lines that list a configuration: a line that says so where there are no hooks, else the
/// lines on each hook, the hooks in order.
pub open spec fn is_listing(
    lines: Seq<Seq<char>>,
    hooks: Map<Seq<char>, Seq<Seq<char>>>,
) -> bool {
    if hooks == Map::<Seq<char>, Seq<Seq<char>>>::empty() {
        lines == seq![
            "hookmgr: "@ + CONFIG_FILENAME@ + " exists but has no [hooks] configured"@,
        ]
    } else {
        exists|names: Seq<Seq<char>>| #[trigger]
            lists(names, hooks.dom()) && lines == list_lines(names, hooks)
    }
}

/// The lines that say what is configured for each hook.
pub fn list_report(config: &HookConfig) -> (lines: Vec<String>)
    ensures
        is_listing(texts(lines@), config.hooks@),
{
    let mut lines: Vec<String> = Vec::new();
    if config.hooks.is_empty() {
        let mut line = "hookmgr: ".to_string();
        line.append(CONFIG_FILENAME);
        line.append(" exists but has no [hooks] configured");
        lines.push(line);
        assert(texts(lines@) =~= seq![
            "hookmgr: "@ + CONFIG_FILENAME@ + " exists but has no [hooks] configured"@,
        ]);
        return lines;
    }
    let names = config.hooks.keys();
    let ghost listed = texts(names@);
    let mut i: usize = 0;
    assert(texts(lines@) =~= list_lines(listed.take(0), config.hooks@));
    while i < names.len()
        invariant
            listed == texts(names@),
            lists(listed, config.hooks@.dom()),
            i <= names@.len(),
            texts(lines@) == list_lines(listed.take(i as int), config.hooks@),
        decreases names@.len() - i,
    {
        let ghost before = texts(lines@);
        let ghost name = names@[i as int]@;
        proof {
            assert(listed[i as int] == name);
            assert(listed.to_set().contains(name));
            assert(listed.take(i + 1).drop_last() == listed.take(i as int));
            assert(listed.take(i + 1).last() == name);
        }
        let mut head = names[i].clone();
        head.append(":");
        lines.push(head);
        let ghost commands_text = config.hooks@[name];
        assert(texts(lines@) =~= before + seq![name + ":"@]);
        if let Some(commands) = config.hooks.get(names[i].as_str()) {
            let mut j: usize = 0;
            assert(hook_lines(name, commands_text.take(0)) =~= seq![name + ":"@]);
            while j < commands.len()
                invariant
                    j <= commands@.len(),
                    commands_text == texts(commands@),
                    texts(lines@) == before + hook_lines(name, commands_text.take(j as int)),
                decreases commands@.len() - j,
            {
                let mut line = "  - ".to_string();
                line.append(commands[j].as_str());
                let ghost earlier = texts(lines@);
                lines.push(line);
                assert(texts(lines@) =~= earlier.push("  - "@ + commands_text[j as int]));
                assert(hook_lines(name, commands_text.take(j + 1)) =~= hook_lines(
                    name,
                    commands_text.take(j as int),
                ).push("  - "@ + commands_text[j as int]));
                assert(texts(lines@) =~= before + hook_lines(name, commands_text.take(j + 1)));
                j += 1;
            }
            assert(commands_text.take(j as int) == commands_text);
        }
        i += 1;
    }
    assert(listed.take(i as int) == listed);
    lines
}

/// A configuration without hooks is listed as one line that says so.
pub proof fn law_listing_of_no_hooks_says_so(
    lines: Seq<Seq<char>>,
    hooks: Map<Seq<char>, Seq<Seq<char>>>,
)
    requires
        is_listing(lines, hooks),
        forall|name: Seq<char>| !hooks.contains_key(name),
    ensures
        lines.len() == 1,
        lines[0] == "hookmgr: "@ + ".hookmgr.toml"@ + " exists but has no [hooks] configured"@,
{
    assert(hooks =~= Map::<Seq<char>, Seq<Seq<char>>>::empty());
}

/// A listing has one section for each hook, in the order of their names, and no other line. A
/// section is a line with the name and a colon, and then one line for each command in order, the
/// whole command behind a dash.
pub proof fn law_listing_has_a_section_for_each_hook(
    lines: Seq<Seq<char>>,
    hooks: Map<Seq<char>, Seq<Seq<char>>>,
    names: Seq<Seq<char>>,
)
    requires
        is_listing(lines, hooks),
        lists(names, hooks.dom()),
        names.len() > 0,
    ensures
        exists|starts: Seq<int>|
            {
                &&& starts.len() == names.len() + 1
                &&& starts[0] == 0
                &&& #[trigger] starts.last() == lines.len()
                &&& forall|k: int|
                    0 <= k < names.len() ==> starts[k + 1] == #[trigger] starts[k] + 1
                        + hooks[names[k]].len()
                &&& forall|k: int|
                    0 <= k < names.len() ==> 0 <= starts[k] < lines.len()
                        && lines[#[trigger] starts[k]] == names[k] + ":"@
                &&& forall|k: int, i: int|
                    0 <= k < names.len() && 0 <= i < hooks[names[k]].len() ==> starts[k] + 1 + i
                        < lines.len() && lines[starts[k] + 1 + i] == "  - "@
                        + #[trigger] hooks[names[k]][i]
            },
{
    lemma_empty_list(names, hooks.dom());
    assert(hooks != Map::<Seq<char>, Seq<Seq<char>>>::empty());
    let shown = choose|shown: Seq<Seq<char>>| #[trigger]
        lists(shown, hooks.dom()) && lines == list_lines(shown, hooks);
    law_names_have_one_order(names, shown, hooks.dom());
    let starts = lemma_sections(names, hooks);
    assert(starts.last() == lines.len());
}

proof fn lemma_sections(names: Seq<Seq<char>>, hooks: Map<Seq<char>, Seq<Seq<char>>>) -> (starts:
    Seq<int>)
    ensures
        starts.len() == names.len() + 1,
        starts[0] == 0,
        starts.last() == list_lines(names, hooks).len(),
        forall|k: int|
            0 <= k < names.len() ==> starts[k + 1] == #[trigger] starts[k] + 1
                + hooks[names[k]].len(),
        forall|k: int|
            0 <= k < names.len() ==> 0 <= starts[k] < list_lines(names, hooks).len() && list_lines(
                names,
                hooks,
            )[#[trigger] starts[k]] == names[k] + ":"@,
        forall|k: int, i: int|
            0 <= k < names.len() && 0 <= i < hooks[names[k]].len() ==> starts[k] + 1 + i
                < list_lines(names, hooks).len() && list_lines(names, hooks)[starts[k] + 1 + i]
                == "  - "@ + #[trigger] hooks[names[k]][i],
    decreases names.len(),
{
    let lines = list_lines(names, hooks);
    if names.len() == 0 {
        seq![0int]
    } else {
        let earlier = names.drop_last();
        let before = list_lines(earlier, hooks);
        let starts = lemma_sections(earlier, hooks);
        let own = hook_lines(names.last(), hooks[names.last()]);
        let all = starts.push(lines.len() as int);
        assert(lines == before + own);
        assert forall|k: int| 0 <= k < names.len() implies all[k + 1] == #[trigger] all[k] + 1
            + hooks[names[k]].len() && 0 <= all[k] < lines.len() && lines[all[k]] == names[k]
            + ":"@ by {
            if k < earlier.len() {
                assert(all[k] == starts[k] && names[k] == earlier[k]);
                assert(lines[starts[k]] == before[starts[k]]);
            } else {
                assert(all[k] == before.len());
                assert(lines[all[k]] == own[0]);
            }
        }
        assert forall|k: int, i: int|
            0 <= k < names.len() && 0 <= i < hooks[names[k]].len() implies all[k] + 1 + i
            < lines.len() && lines[all[k] + 1 + i] == "  - "@ + #[trigger] hooks[names[k]][i] by {
            if k < earlier.len() {
                assert(all[k] == starts[k] && names[k] == earlier[k]);
                assert(before[starts[k] + 1 + i] == "  - "@ + hooks[earlier[k]][i]);
            } else {
                assert(lines[all[k] + 1 + i] == own[1 + i]);
            }
        }
        all
    }
}

/// What is said where there is no configuration file in `repo_dir`.
pub fn missing_config_message(repo_dir: &str) -> (r: String)
    ensures
        r@ == "no "@ + CONFIG_FILENAME@ + " found in "@ + repo_dir@,
{
    let mut text = "no ".to_string();
    text.append(CONFIG_FILENAME);
    text.append(" found in ");
    text.append(repo_dir);
    text
}

} // verus!
