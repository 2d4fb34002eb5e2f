# working_memory

Bounded request history for a coding assistant, verified with Verus.

A long conversation does not fit into every request. This library keeps the
newest part of it within a token budget, never drops instructions or the user's
latest message, and puts an index of all turns into the prompt. What falls out
of the window stays readable, page by page, through the tool `history_read`.

## Layout

- `src/strings.rs`: white space, joining, truncation, UTF-8 lengths.
- `src/turn.rs`: turn ids such as `T001`.
- `src/item.rs`: conversation items, as far as the logic reads them.
- `src/snapshot.rs`: the turns of a conversation with their summaries.
- `src/render.rs`: the turn index as text.
- `src/window.rs`: the sliding window and the prepared prompt.
- `src/history.rs`, `src/handler.rs`: reading history back.
- `src/settings.rs`: the settings.
- `src/instructions.rs`: the prompt fragment around the index.
- `src/json.rs`, `src/tokens.rs`: what is trusted of `serde_json` and
  `tiktoken-rs`.
- `app/`: files, the rollout and the host's own items around the library.
- `tests/`: tests of the compiled library.
