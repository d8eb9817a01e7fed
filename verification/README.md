# codex_astrbot

The decision logic behind a multi-chat assistant host built on a coding
agent, written in Verus and proved against its contracts.

- `tool_catalog`, `catalog_render`, `code_mode_catalog`, `describe`: the
  catalog of deferred tools a code-mode script can call — which tools are
  listed within the byte budget, their one-sentence descriptions, the whole
  listing, and the changes against the listing the model saw last.
- `additional_context`, `context_store`: keyed context values supplied by
  the application, their message text, and which of them go into history
  again.
- `memory_scopes`, `scopes`, `scoped`, `scoped_prompt`, `maintenance`:
  per-chat memory scopes — directory and partition names, where Phase 1
  output is stored, how `global/` and `local/` tool paths are routed, and
  what a scoped thread is told and given.
- `structured_result`, `image_artifact`, `engine`, `realtime`: results of
  dynamic tools for scripts, generated-image names and hints, and the
  engine's request handling.
- `assoc`, `text`: sorted association lists and character helpers.

`app/` holds what stays outside the proofs: JSON and TOML conversion,
filesystem paths and the clock.
