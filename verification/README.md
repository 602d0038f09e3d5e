# ticket

A verified library for a ticket tracker's workflow logic, written in Verus.

- `src/` is the library. Every function carries a `requires`/`ensures`
  contract that Verus proves: the dependency-convergence model and candidate
  ranking (`workflow`), board filtering (`workflow::board`), next-work
  selection (`next`), health findings and their scope (`health`, `scope`),
  the status dashboard (`status`), graph walks and depths (`graph`, `depths`,
  `edges`), batch undo bookkeeping (`batch`), revision diffs (`history`),
  id resolution (`resolve`), the human-readable renderers (`human`,
  `board_render`), the catalog text (`catalog`), editor-side grouping
  (`vscode`), bearer tokens (`auth`) and effort parsing (`effort`).
- Calls into `uuid` and `chrono` stand behind a few trusted wrappers whose
  doc comments say what is assumed of them.
- `tests/` exercises the library on concrete values.
- `app/` is an unverified command-line front end: it reads an exported
  workspace as JSON, calls the library, and prints JSON or the human
  rendering.
