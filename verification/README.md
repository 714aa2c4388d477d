# gpui_commands

One registry of commands, fuzzy matching of query text against command
names, and the logic of a searchable command palette, verified with Verus.

- `src/fuzzy.rs`: `fuzzy_match`, case-insensitive subsequence matching with
  a relevance score, specified by `fuzzy_score` (the score of the leftmost
  placement of the query); proved: a query matches exactly when its
  lowercase form is a subsequence of the target's.
- `src/command.rs`: `Command<H>`, a command's name, category, keybinding,
  action identity (`ActionId`) and handler of the host's type `H`.
- `src/registry.rs`: `CommandRegistry<H>`, commands in registration order,
  at most one per action type, each with a handler.
- `src/palette.rs`: `visible_commands`, the commands listed for a query:
  those that match, highest score first, ties in registration order; the
  listing exists and is unique.
- `src/state.rs`: `PaletteState`, the palette's state machine; every event
  returns the `Effects` (run a command, move focus, redraw) the host
  performs.
- `app/`: the GPUI view and glue, which draws the palette and performs the
  effects.
