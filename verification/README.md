# glean

The verified core of a text-selection assistant: select text anywhere, and a
toolbar offers to translate, explain or speak it with a configured language
model.

## Layout

- `src/` — the library, verified with Verus.
  - `text` — Unicode whitespace, trimming, lines and words over `Seq<char>`.
  - `think` — the streaming filter that removes `<think>` sections from a
    model's reply; its laws say that chunking does not change the result and
    that shown text is never taken back.
  - `llm` — the server-sent-events decoder of a chat completion stream;
    its laws say that chunking does not change the events and that a
    request reports exactly one ending, last.
  - `config`, `actions` — model selection, prompts, retries, the speech
    synthesizer's voice list and arguments.
  - `ccswitch` — importing providers from a cc-switch database row set.
  - `gesture` — pairing mouse presses and releases into drag selections and
    double clicks.
  - `fetch`, `selection`, `diag`, `update`, `json` — smaller pieces.
- `tests/` — tests of the library.
- `app/` — the unverified application layer: files, HTTP, SQLite, the run
  log, the clipboard, floating-point geometry, and serializable copies of the
  library's types.
