# note

A small markdown note editor. The editing logic is a Verus-verified library; a thin
egui program around it reads and writes the note store and draws the window.

## Layout

- `src/text.rs`: whitespace, trimming, ASCII case folding, substring search, and edits
  addressed by character index (`replace_char_range`, `char_to_byte`, `truncate`).
- `src/markdown.rs`: divider lines, table separator rows and table cells.
- `src/editing.rs`: the `/` command trigger, to-do checkbox toggling, and list
  continuation when a line feed is typed (`apply_smart_newline`), with the laws that tie
  them together (toggling twice restores the text; a second Enter ends a list).
- `src/layout.rs`: how each line of the body is styled and which decorations are drawn
  over it.
- `src/note.rs`: notes, their shown titles and word counts, and the legacy text store.
- `src/clock.rs`: the wall clock and the monotonic clock, as the library reads them.
- `src/app.rs`: the editor state and every decision it takes (selection, search, new and
  delete, saving, the `/` menu).
- `app/main.rs`: the window, input handling, and the JSON store on disk.

Run `verus` on `src/lib.rs` to check the proofs; `cargo test` runs the tests under `tests/`.
