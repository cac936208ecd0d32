# hookmgr

A multi-hook-type git hook manager driven by one `.hookmgr.toml`, with its decisions verified in
[Verus](https://github.com/verus-lang/verus).

```toml
[hooks]
pre-commit = ["cargo fmt --check"]
commit-msg = ["grep -qE '^(feat|fix|chore): ' \"$1\""]
```

`hookmgr install` puts a dispatcher, a marked block of shell, into `.git/hooks/<name>` for each hook
that the file names. The dispatcher calls `hookmgr run <name>`, which runs the commands of that hook
in order and stops at the first that fails. `hookmgr uninstall` takes the block out again.

- `src/` is the library. `block` and `hook_file` say what a hook file holds after an install and
  after an uninstall; `hook_file_laws` proves what holds of the two together. An install changes only
  the block. A second install changes nothing, and an uninstall leaves what the install kept around
  the block: both for every file and every hook name without a line end in it.
  `config`, `hook_table` and `toml_document` read the configuration, `runner` runs the commands of a
  hook, and `report` picks the hooks that a request is about and words what is said of them.
  `text` and `text_order` hold what these need of strings.
- `tests/` runs the library on concrete values.
- `app/` is the program: the command line, the files, and the processes.

TOML is parsed by the `toml` crate. What is believed of it stands in `src/toml_document.rs`, and
nothing else is taken on trust but the standard library's contracts in `vstd`.
