# hokan

Completion engine for Neovim: completion items, auto-pairs, snippet
expansion, buffer and path sources, and the completion menu's state.

- `src/` is the verified library (Verus):
  - `item.rs` — completion kinds, sources and items, their display and sort order;
  - `pairs.rs` — what typing a bracket or quote, or backspace, does;
  - `snippet.rs` — `$1`, `${1:default}`, `$0`, `$$` expansion with tabstop positions;
  - `source.rs` — word and path prefixes, buffer words, path items;
  - `menu.rs` — the menu model: candidates, filter, shown items;
  - `sorting.rs`, `text.rs` — stable sorting by keys and character helpers.
- `app/` is the editor shell: the plugin entry point, the popup window and
  list widget, the fuzzy matcher, and file-system reads.
- `tests/` holds the tests.
