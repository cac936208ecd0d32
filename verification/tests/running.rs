use hookmgr::{
    parse_config, process_exit_code, run_commands, shell_command, CommandStatus, HookConfig,
    RunStep,
};

fn passed() -> CommandStatus {
    CommandStatus {
        success: true,
        code: Some(0),
    }
}

fn failed(code: i32) -> CommandStatus {
    CommandStatus {
        success: false,
        code: Some(code),
    }
}

/// Runs a hook, with `ends` for how each command ends, and gives the commands that were run and
/// the exit code.
fn drive(
    config: Option<&HookConfig>,
    hook: &str,
    ends: fn(&str) -> CommandStatus,
) -> (Vec<String>, i32) {
    let mut run = run_commands(config, hook);
    let mut ran: Vec<String> = Vec::new();
    loop {
        match run.next_step() {
            RunStep::Run(command) => {
                run.report(ends(&command));
                ran.push(command);
            }
            RunStep::Exit(code) => return (ran, code),
        }
    }
}

#[test]
fn run_commands_is_a_silent_noop_with_no_config() {
    let (ran, code) = drive(None, "pre-commit", |_| passed());
    assert_eq!(code, 0);
    assert!(ran.is_empty());
}

#[test]
fn run_commands_is_a_silent_noop_for_an_unconfigured_hook_type() {
    let config = parse_config("[hooks]\ncommit-msg = [\"exit 0\"]\n").unwrap();
    let (ran, code) = drive(Some(&config), "pre-push", |_| passed());
    assert_eq!(code, 0);
    assert!(ran.is_empty());
}

#[test]
fn run_commands_runs_all_passing_commands_in_order() {
    let config = parse_config(
        "[hooks]\npre-commit = [\"touch a-ran\", \"test -f a-ran && touch b-ran\"]\n",
    )
    .unwrap();
    let (ran, code) = drive(Some(&config), "pre-commit", |_| passed());
    assert_eq!(code, 0);
    assert_eq!(ran, vec!["touch a-ran", "test -f a-ran && touch b-ran"]);
}

#[test]
fn run_commands_stops_at_the_first_failure() {
    let config =
        parse_config("[hooks]\npre-commit = [\"exit 1\", \"touch should-not-exist\"]\n").unwrap();
    let (ran, code) = drive(Some(&config), "pre-commit", |command| {
        if command == "exit 1" {
            failed(1)
        } else {
            passed()
        }
    });
    assert_eq!(code, 1);
    assert_eq!(ran, vec!["exit 1"]);
}

#[test]
fn run_commands_propagates_a_nonzero_exit_code() {
    let config = parse_config("[hooks]\ncommit-msg = [\"exit 7\"]\n").unwrap();
    let (_, code) = drive(Some(&config), "commit-msg", |_| failed(7));
    assert_eq!(code, 7);
}

#[test]
fn run_commands_forwards_positional_args_to_the_command() {
    let config =
        parse_config("[hooks]\ncommit-msg = [\"grep -q OK \\\"$1\\\"\"]\n").unwrap();
    let run = run_commands(Some(&config), "commit-msg");
    let command = match run.next_step() {
        RunStep::Run(command) => command,
        RunStep::Exit(_) => panic!("there is a command to run"),
    };
    assert_eq!(command, "grep -q OK \"$1\"");
    assert_eq!(
        shell_command(&command, &vec!["msg.txt".to_string()]),
        vec!["sh", "-c", "grep -q OK \"$1\"", "sh", "msg.txt"]
    );
    let (_, code) = drive(Some(&config), "commit-msg", |_| passed());
    assert_eq!(code, 0);
    let (_, code) = drive(Some(&config), "commit-msg", |_| failed(1));
    assert_ne!(code, 0);
}

#[test]
fn command_line_without_arguments() {
    assert_eq!(
        shell_command("true", &Vec::new()),
        vec!["sh", "-c", "true", "sh"]
    );
}

#[test]
fn later_failure_runs_what_stands_before_it() {
    let config = parse_config("[hooks]\nx = [\"a\", \"b\", \"c\", \"d\"]\n").unwrap();
    let (ran, code) = drive(Some(&config), "x", |command| {
        if command == "c" {
            failed(42)
        } else {
            passed()
        }
    });
    assert_eq!(ran, vec!["a", "b", "c"]);
    assert_eq!(code, 42);
}

#[test]
fn command_ended_by_a_signal_counts_as_one() {
    let config = parse_config("[hooks]\nx = [\"a\", \"b\"]\n").unwrap();
    let (ran, code) = drive(Some(&config), "x", |_| CommandStatus {
        success: false,
        code: None,
    });
    assert_eq!(ran, vec!["a"]);
    assert_eq!(code, 1);
}

#[test]
fn report_after_the_end_changes_nothing() {
    let config = parse_config("[hooks]\nx = [\"a\", \"b\"]\n").unwrap();
    let mut run = run_commands(Some(&config), "x");
    run.report(failed(3));
    assert_eq!(run.next_step(), RunStep::Exit(3));
    run.report(passed());
    assert_eq!(run.next_step(), RunStep::Exit(3));
    let mut idle = run_commands(None, "x");
    idle.report(failed(3));
    assert_eq!(idle.next_step(), RunStep::Exit(0));
}

#[test]
fn exit_code_stays_within_a_byte() {
    assert_eq!(process_exit_code(0), 0);
    assert_eq!(process_exit_code(7), 7);
    assert_eq!(process_exit_code(255), 255);
    assert_eq!(process_exit_code(256), 255);
    assert_eq!(process_exit_code(i32::MAX), 255);
    assert_eq!(process_exit_code(-1), 0);
    assert_eq!(process_exit_code(i32::MIN), 0);
}
