# skyclaw_agent — blueprint procedural memory

Blueprints are replayable procedure documents an agent writes after a complex
task and loads again when a similar task arrives. This crate holds their logic,
verified with Verus:

- `src/model.rs` — the data: blueprints, task metadata, chat messages, memory entries.
- `src/text.rs` — a model of the `str` operations used (trim, lines, find, join,
  UTF-8 lengths, decimal numbers) and verified implementations of them.
- `src/creation.rs` — when a finished task becomes a blueprint candidate.
- `src/history.rs` — the tools a conversation used and its User/Assistant summary.
- `src/prompts.rs` — the authoring and refinement prompts.
- `src/parsing.rs` — splitting stored Markdown into YAML frontmatter and body.
- `src/storage.rs` — the stored form of a blueprint and the round-trip laws.
- `src/matching.rs` — categories, category lookup, restoring stored counters,
  choosing the blueprint to load.
- `src/percent.rs`, `src/ranking.rs` — the `f64` success rate carried out exactly
  in integers: the percentage shown with `{:.0}` and the best-first ranking.
- `src/formatting.rs` — the catalog, the outline and the loaded-blueprint context.
- `src/clock.rs` — the wall clock (chrono).

`app/` is the I/O edge: the memory store, YAML and JSON (serde), chrono
timestamps and the `f64` success rate stored in metadata.
