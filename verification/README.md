# emux

Per-worktree environment overrides. A configuration names, for each entry, where a value
lives (a variable of a dotenv file, a selector of a JSON file), its base value, and how to
override it (a deterministic port derived from the worktree path and the entry name).
`run` writes each override value, `restore` writes each base value back, `diff` shows what
`run` would change, and `verify` checks that a configuration file compiles.

## Layout

- `src/` is the library, written and proved with Verus:
  - `overrider.rs`: FNV-1a hashing, the port of an entry, writing a value through applicators;
  - `locator.rs`: filters and locators, finding targets in a workspace and writing them;
  - `env.rs`: dotenv lines, found and rewritten with their terminators kept;
  - `json.rs`: a model of JSON documents, dotted selectors, lookup and replacement, and the
    calls into `serde_json`;
  - `config.rs`: entries and configurations, and `run`, `restore` and `diff` over them;
  - `lua.rs`: a plain model of Lua values, reading a configuration from the value a
    configuration file evaluates to, and checking the syntax of Lua source;
  - `workspace.rs`, `paths.rs`, `text.rs`, `error.rs`: files held in memory, paths and
    their plain spelling, text helpers and errors;
  - `sequence.rs`: what a sequence of writes leaves in each file, and when each write can be
    made along the way;
  - `laws.rs`: what holds across calls: `run` writes each override value and `restore` each
    base value at every located position, writing moves no dotenv target, both are
    idempotent, the last of two writes wins, restoring after a run gives the base values
    back, `run` ignores base values, and `diff` previews the lines `run` writes.
- `tests/` exercises the library on concrete values.
- `app/` is the command-line program: argument parsing, reading and writing files, the Lua
  and Fennel runtime (it turns the value a configuration file evaluates to into the library's
  model of Lua values), and printing.
