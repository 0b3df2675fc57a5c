# transfigure

Transfigure keeps named shortcuts for long commands. A shortcut is one command
or a chain of commands (`--then` between steps, `--literal` to keep a control
word as an argument); its arguments may hold placeholders (`{1}`, `{*}`, and
`{{1}}` for the literal text `{1}`). A shortcut runs its programs directly or
through a generated POSIX shell or PowerShell script.

The library is written in Verus and verified:

- `src/config.rs` — placeholders, single commands and chains, display, names,
  and laws of definitions (escaping reads back, doubled braces are literal).
- `src/store.rs` — the store of shortcuts kept in name order, searches that
  ignore ASCII case, validation of a loaded configuration, and laws (a stored
  shortcut is found again; create, update and remove keep a valid store valid).
- `src/runner.rs` — argument plans, direct steps, failed steps, shells and
  the generated scripts, and the law that invocation arguments reach only the
  last step of a shortcut without placeholders.
- `src/paths.rs` — comparison of paths and advice on `PATH`.
- `src/text.rs` — characters, case, decimal notation and joining.

`app/` is the command-line program around the library: argument parsing with
clap, the JSON configuration file with serde, temporary script files,
launchers, and starting processes.
