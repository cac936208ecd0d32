//! Running the commands of a hook, one after the other, up to the first that fails.

use crate::config::HookConfig;
use crate::hook_table::{copy_strings, texts};
use vstd::prelude::*;

verus! {

/// How a command ended.
#[derive(Debug, Clone, Copy, PartialEq, Eq, Structural)]
pub struct CommandStatus {
    /// The command succeeded.
    pub success: bool,
    /// Its exit code, where it has one: a command that a signal ended has none.
    pub code: Option<i32>,
}

/// What is to be done next.
#[derive(Debug, PartialEq, Eq)]
pub enum RunStep {
    /// Run this command, and report how it ended.
    Run(String),
    /// Nothing more is to be run: the hook ends with this exit code.
    Exit(i32),
}

/// A run of the commands of a hook, between two commands.
pub struct RunState {
    /// The commands that have not been run, in order.
    pub pending: Seq<Seq<char>>,
    /// The exit code of the command that failed, once one has.
    pub failure: Option<i32>,
}

/// A run of the commands of a hook.
#[derive(Debug)]
pub struct HookRun {
    commands: Vec<String>,
    done: usize,
    failure: Option<i32>,
}

impl HookRun {
    #[verifier::type_invariant]
    spec fn in_range(self) -> bool {
        self.done <= self.commands@.len()
    }
}

impl View for HookRun {
    type V = RunState;

    closed spec fn view(&self) -> RunState {
        RunState { pending: texts(self.commands@).skip(self.done as int), failure: self.failure }
    }
}

/// The commands that are configured for a hook: none without a configuration, and none for a
/// hook that it does not name.
pub open spec fn configured(config: Option<&HookConfig>, hook: Seq<char>) -> Seq<Seq<char>> {
    match config {
        Some(config) => if config.hooks@.contains_key(hook) {
            config.hooks@[hook]
        } else {
            Seq::empty()
        },
        None => Seq::empty(),
    }
}

/// A run that has not run anything yet.
pub open spec fn run_of(commands: Seq<Seq<char>>) -> RunState {
    RunState { pending: commands, failure: None }
}

/// The exit code that a failed command stands for.
pub open spec fn failure_code(status: CommandStatus) -> i32 {
    match status.code {
        Some(code) => code,
        None => 1,
    }
}

/// The run waits for a command to be run.
pub open spec fn waits(state: RunState) -> bool {
    state.failure is None && state.pending.len() > 0
}

/// The exit code of a run that waits for nothing: that of the command that failed, or `0`.
pub open spec fn exit_code_of(state: RunState) -> i32 {
    match state.failure {
        Some(code) => code,
        None => 0,
    }
}

/// The run once the next command has ended with this status. A run that waits for nothing stays
/// as it is.
pub open spec fn after(state: RunState, status: CommandStatus) -> RunState {
    if !waits(state) {
        state
    } else {
        RunState {
            pending: state.pending.drop_first(),
            failure: if status.success {
                None
            } else {
                Some(failure_code(status))
            },
        }
    }
}

/// The run once as many commands as there are statuses have ended with these.
pub open spec fn after_all(state: RunState, statuses: Seq<CommandStatus>) -> RunState
    decreases statuses.len(),
{
    if statuses.len() == 0 {
        state
    } else {
        after(after_all(state, statuses.drop_last()), statuses.last())
    }
}

/// Starts a run of the commands configured for a hook.
///
/// Without a configuration, and for a hook that it does not name, there is nothing to run, and
/// the run ends with exit code 0: an installed dispatcher for a hook that nobody configured is a
/// silent no-op.
pub fn run_commands(config: Option<&HookConfig>, hook_name: &str) -> (run: HookRun)
    ensures
        run@ == run_of(configured(config, hook_name@)),
        run@.failure is None,
        match config {
            None => run@.pending.len() == 0,
            Some(config) => if config.hooks@.contains_key(hook_name@) {
                run@.pending == config.hooks@[hook_name@]
            } else {
                run@.pending.len() == 0
            },
        },
{
    let commands: Vec<String> = match config {
        None => Vec::new(),
        Some(config) => match config.hooks.get(hook_name) {
            None => Vec::new(),
            Some(commands) => copy_strings(commands),
        },
    };
    assert(texts(commands@).skip(0) =~= configured(config, hook_name@));
    HookRun { commands, done: 0, failure: None }
}

impl HookRun {
    /// What is to be done next: the commands run in order, the first that fails ends the run
    /// with its exit code, and a run without a failure ends with exit code 0.
    pub fn next_step(&self) -> (step: RunStep)
        ensures
            match step {
                RunStep::Run(command) => waits(self@) && command@ == self@.pending[0],
                RunStep::Exit(code) => !waits(self@) && code == exit_code_of(self@),
            },
            match (self@.failure, step) {
                (Some(failure), RunStep::Exit(code)) => code == failure,
                (Some(_), RunStep::Run(_)) => false,
                (None, RunStep::Run(command)) => self@.pending.len() > 0 && command@
                    == self@.pending[0],
                (None, RunStep::Exit(code)) => self@.pending.len() == 0 && code == 0,
            },
    {
        proof {
            use_type_invariant(self);
        }
        match self.failure {
            Some(code) => RunStep::Exit(code),
            None => if self.done < self.commands.len() {
                RunStep::Run(self.commands[self.done].clone())
            } else {
                RunStep::Exit(0)
            },
        }
    }

    /// Takes note of how the command that was to be run has ended.
    pub fn report(&mut self, status: CommandStatus)
        ensures
            final(self)@ == after(old(self)@, status),
            old(self)@.failure is Some || old(self)@.pending.len() == 0 ==> final(self)@ == old(
                self,
            )@,
            old(self)@.failure is None && old(self)@.pending.len() > 0 ==> {
                &&& final(self)@.pending == old(self)@.pending.drop_first()
                &&& status.success ==> final(self)@.failure is None
                &&& !status.success && status.code is Some ==> final(self)@.failure == status.code
                &&& !status.success && status.code is None ==> final(self)@.failure == Some(1i32)
            },
    {
        proof {
            use_type_invariant(&*self);
        }
        if self.failure.is_none() && self.done < self.commands.len() {
            assert(texts(self.commands@).skip(self.done as int).drop_first() =~= texts(
                self.commands@,
            ).skip(self.done + 1));
            self.done = self.done + 1;
            if !status.success {
                self.failure = Some(
                    match status.code {
                        Some(code) => code,
                        None => 1,
                    },
                );
            }
        }
    }
}

/// The command line that runs a command of a hook: `sh -c` with the command, and git's arguments
/// to the hook as `$1 $2 ...`.
pub fn shell_command(command: &str, args: &Vec<String>) -> (line: Vec<String>)
    ensures
        texts(line@) == seq!["sh"@, "-c"@, command@, "sh"@] + texts(args@),
        line@.len() == args@.len() + 4,
        line@[0]@ == "sh"@,
        line@[1]@ == "-c"@,
        line@[2]@ == command@,
        line@[3]@ == "sh"@,
        forall|i: int| 0 <= i < args@.len() ==> line@[i + 4]@ == #[trigger] args@[i]@,
{
    let mut line: Vec<String> = Vec::new();
    line.push("sh".to_string());
    line.push("-c".to_string());
    line.push(command.to_string());
    line.push("sh".to_string());
    let ghost head = seq!["sh"@, "-c"@, command@, "sh"@];
    let mut i: usize = 0;
    while i < args.len()
        invariant
            i <= args@.len(),
            line@.len() == 4 + i,
            head == seq!["sh"@, "-c"@, command@, "sh"@],
            forall|j: int| 0 <= j < 4 ==> line@[j]@ == head[j],
            forall|j: int| 0 <= j < i ==> line@[4 + j]@ == #[trigger] args@[j]@,
        decreases args@.len() - i,
    {
        line.push(args[i].clone());
        i += 1;
    }
    proof {
        let whole = head + texts(args@);
        assert forall|j: int| 0 <= j < whole.len() implies texts(line@)[j] == whole[j] by {
            if j >= 4 {
                assert(line@[4 + (j - 4)]@ == args@[j - 4]@);
            }
        }
        assert(texts(line@) =~= whole);
    }
    line
}

/// The exit code of the program for the exit code of a hook, kept within what a process can
/// end with.
pub fn process_exit_code(code: i32) -> (r: u8)
    ensures
        r == if code < 0 {
            0
        } else if code > 255 {
            255
        } else {
            code as int
        },
{
    if code < 0 {
        0
    } else if code > 255 {
        255
    } else {
        code as u8
    }
}

/// Without a configuration, and for a hook that it does not name, nothing is run, and the exit
/// code is 0.
pub proof fn law_unconfigured_hook_is_a_no_op(config: Option<&HookConfig>, hook: Seq<char>)
    requires
        config is Some ==> !config.unwrap().hooks@.contains_key(hook),
    ensures
        !waits(run_of(configured(config, hook))),
        exit_code_of(run_of(configured(config, hook))) == 0,
        configured(config, hook).len() == 0,
{
}

/// A hook that the configuration names runs all the commands that stand there, in that order.
pub proof fn law_configured_hook_runs_its_commands(config: &HookConfig, hook: Seq<char>)
    requires
        config.hooks@.contains_key(hook),
    ensures
        run_of(configured(Some(config), hook)).pending == config.hooks@[hook],
        run_of(configured(Some(config), hook)).failure is None,
{
}

/// As long as the commands succeed they run in order, one after the other.
pub proof fn law_commands_run_in_order(commands: Seq<Seq<char>>, statuses: Seq<CommandStatus>)
    requires
        statuses.len() <= commands.len(),
        forall|i: int| 0 <= i < statuses.len() ==> (#[trigger] statuses[i]).success,
    ensures
        after_all(run_of(commands), statuses) == run_of(commands.skip(statuses.len() as int)),
        after_all(run_of(commands), statuses).failure is None,
        after_all(run_of(commands), statuses).pending == commands.skip(statuses.len() as int),
        statuses.len() < commands.len() ==> {
            &&& waits(after_all(run_of(commands), statuses))
            &&& after_all(run_of(commands), statuses).pending[0] == commands[statuses.len() as int]
        },
    decreases statuses.len(),
{
    if statuses.len() == 0 {
        assert(commands.skip(0) == commands);
    } else {
        let earlier = statuses.drop_last();
        assert forall|i: int| 0 <= i < earlier.len() implies (#[trigger] earlier[i]).success by {
            assert(earlier[i] == statuses[i]);
        }
        law_commands_run_in_order(commands, earlier);
        assert(statuses[statuses.len() - 1].success);
        assert(commands.skip(earlier.len() as int).drop_first() == commands.skip(
            statuses.len() as int,
        ));
    }
}

/// Where every command succeeds, the run ends after the last with exit code 0.
pub proof fn law_run_without_failure_ends_with_zero(
    commands: Seq<Seq<char>>,
    statuses: Seq<CommandStatus>,
)
    requires
        statuses.len() == commands.len(),
        forall|i: int| 0 <= i < statuses.len() ==> (#[trigger] statuses[i]).success,
    ensures
        !waits(after_all(run_of(commands), statuses)),
        exit_code_of(after_all(run_of(commands), statuses)) == 0,
        after_all(run_of(commands), statuses).failure is None,
        after_all(run_of(commands), statuses).pending.len() == 0,
{
    law_commands_run_in_order(commands, statuses);
}

/// The first command that fails ends the run: no later command is run, and the exit code is
/// that of the command that failed.
pub proof fn law_run_stops_at_first_failure(
    commands: Seq<Seq<char>>,
    statuses: Seq<CommandStatus>,
    failed: int,
)
    requires
        0 <= failed < commands.len(),
        failed < statuses.len(),
        forall|i: int| 0 <= i < failed ==> (#[trigger] statuses[i]).success,
        !statuses[failed].success,
    ensures
        !waits(after_all(run_of(commands), statuses)),
        match statuses[failed].code {
            Some(code) => exit_code_of(after_all(run_of(commands), statuses)) == code,
            None => exit_code_of(after_all(run_of(commands), statuses)) == 1,
        },
        match statuses[failed].code {
            Some(code) => after_all(run_of(commands), statuses).failure == Some(code),
            None => after_all(run_of(commands), statuses).failure == Some(1i32),
        },
    decreases statuses.len(),
{
    let earlier = statuses.drop_last();
    if failed < earlier.len() {
        law_run_stops_at_first_failure(commands, earlier, failed);
    } else {
        law_commands_run_in_order(commands, earlier);
    }
}

} // verus!
