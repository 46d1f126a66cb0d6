# cm

A non-interactive command-line client for persistent conversations with an
OpenAI-compatible `/v1/chat/completions` endpoint (Mirror). Each named thread
remembers only the upstream conversation id; the server keeps the history.

The library under `src/` is verified with Verus:

- `state` - the per-thread state map, its sorted listing, lock file names.
- `config` - configuration values, API key selection, stream flag, base URL.
- `session` - the message text, the plan for one turn, execution-mode text.
- `client` - the request body, the endpoint, the reply of a complete response.
- `sse` - the incremental decoder for streamed responses.
- `utf8_stream` - UTF-8 decoding of a byte stream across chunk boundaries.
- `text`, `order`, `json` - character-sequence utilities, string order, and
  the JSON lookup done by `serde_json`.

`app/` is the program around it: argument parsing, environment and `.env`
files, the state file on disk, locking, HTTP and shell execution.
