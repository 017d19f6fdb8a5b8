# leptos_command_palette

A command palette for Leptos applications: commands with descriptions,
groups, badges and keyboard shortcuts, drill-down submenus whose children
are produced when they are entered, and a ranked search over the commands
of the current level.

The logic is a Verus library whose behaviour is stated in `requires` /
`ensures` contracts and proved:

- `src/search.rs` — term occurrences, word-boundary penalties and the
  search score (best in-order chain of occurrences, or the fallback score
  with inversions);
- `src/command.rs` — commands and their builders, query terms, ranking and
  de-duplication of results (`filter_commands`, `rank_commands`);
- `src/context.rs` — the palette state: registration, open/close/toggle and
  the submenu navigation stack;
- `src/shortcut.rs` — modifiers, shortcut matching and display;
- `src/component.rs` — the decisions the UI takes on key presses and on the
  highlighted result;
- `src/position.rs`, `src/theme.rs`, `src/style.rs` — placement, themes and
  the CSS written from them;
- `src/laws.rs` — properties that span several functions;
- `src/text.rs` — the string operations the rest relies on.

`app/` holds the Leptos side: a reactive handle around the palette state,
`use_command_palette`, the `CommandPaletteProvider` and `CommandPalette`
components, and the reading of browser events and of the platform.
