//! A git hook manager driven by one `.hookmgr.toml`: it maps the names of git hooks to lists of
//! shell commands.
//!
//! The crate decides what a dispatcher script in `.git/hooks/<name>` looks like, how it gets into
//! a hook file without disturbing what else stands there, how it gets out again, and in which
//! order the configured commands run. Reading and writing files, and running the commands, is
//! left to the program around it.

pub mod block;
pub mod block_laws;
mod block_proof;
pub mod config;
pub mod hook_file;
pub mod hook_file_laws;
pub mod hook_table;
pub mod install_laws;
pub mod report;
pub mod runner;
pub mod text;
pub mod text_laws;
pub mod text_order;
pub mod toml_document;
pub mod uninstall_laws;

pub use block::{hook_block, markers, replace_marked_block};
pub use config::{
    config_from_hooks, load_config, load_config_if_present, parse_config, ConfigError, HookConfig,
    HooksValue, CONFIG_FILENAME,
};
pub use hook_file::{
    hook_path, hooks_dir, install_hook, uninstall_hook, UninstallOutcome, HOOK_FILE_MODE,
};
pub use hook_table::HookTable;
pub use report::{
    install_plan, install_report, list_report, missing_config_message, resolve_targets,
    uninstall_plan, uninstall_report, Plan,
};
pub use runner::{
    process_exit_code, run_commands, shell_command, CommandStatus, HookRun, RunStep,
};
