# ferrite

The text-processing core of a Markdown editor, written in Verus: every
function in `src/` carries a contract that Verus proves.

## Layout

- `src/text.rs` — character-sequence toolkit (trimming, splitting, lines,
  numbers) with its models and lemmas.
- `src/editor.rs` — character index ↔ line/column conversion, text statistics.
- `src/table_nav.rs`, `src/table_guides.rs` — table cell navigation and
  detection of Markdown table blocks (with a cache keyed by a BLAKE3 hash).
- `src/flowchart.rs` — Mermaid flowchart parser; `try_parse_flowchart`
  reports exactly the inputs on which parsing cannot proceed.
- `src/git_graph.rs` — Mermaid `gitGraph` parser, lane assignment and grid
  layout.
- `src/video.rs` — `{{video URL}}` embeds: URL recognition (through the `url`
  crate), dimension rewriting, the WebView allowlist.
- `src/code_execution.rs` — decisions around running code fences: language
  classification, interpreter dispatch chains, run state and reports.
- `src/session.rs` — the rendered-view edit session: which block is active,
  what gets committed when focus moves.
- `src/settings.rs` — settings enums, recent-file lists, integer sanitizers.
- `src/tabs.rs` — cycling through open tabs.
- `src/shortcuts.rs` — the keyboard shortcut table.
- `app/` — a small command-line program around the library: file I/O,
  process spawning, settings as JSON, and the floating-point screen layout.

Properties that span several calls are stated as public proof functions whose
names start with `law_`.

The tests under `tests/` run the compiled library.
