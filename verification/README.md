# codex_prompt_history

A terminal browser for Codex prompt history and session timelines, whose
logic is a library verified with Verus.

- `src/` is the verified library: reading history and session files
  (`history`, `session`, `json`, `tool_summary`, `formatting`), the browser's
  state and its rules (`app`, `search`, `detail_find`, `listing`, `sort`,
  `activity`, `keys`), copying (`clipboard`), resuming a session (`resume`),
  background loading and the session cache (`loader`), what each frame
  shows (`frame`, `ui`), and shared text helpers (`text`). Every public function states what it returns in its
  `ensures`; laws that relate several functions are public proof functions
  named `lemma_*`.
- `app/` is the program around it: the terminal loop, ratatui's layout and
  colours, the local clock, files, processes and threads.
- `tests/` exercises the library on concrete values.
