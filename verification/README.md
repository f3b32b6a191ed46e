# hyprly

Meeting assistant for Linux: it records system audio, transcribes it, cleans the
transcript, asks a language model for a structured answer and streams that answer to a
paired phone. A GTK layer-shell overlay answers typed questions as well.

## Layout

- `src/` — the verified library (Verus). Its functions are verified, nearly all against a
  contract, and the properties that span functions are stated as public proof functions:
  - `text` — character-level helpers: white space and word splitting, trimming, word keys.
  - `transcript` — filler removal, repeat collapsing, false-start and fragment stripping.
  - `topic` — whether an utterance starts a new topic.
  - `audio` — merging transcript chunks, the 12 000-byte cap, the pipeline state, putting
    out-of-order transcriptions back in recording order (passing over lost chunks), chunk
    lengths and speech endpoints, and finding the default PipeWire sink in `wpctl` output.
  - `schedule` — when to ask the model: the debounce deadline, the answer in flight, and
    retrying or falling back on a reply that is not valid JSON, and whether the pipeline runs.
  - `markdown` — the Markdown subset rendered as Pango markup.
  - `response`, `api` — the answer schema prompt, retry request, JSON-object extraction and
    the server-sent-event payloads of a streamed reply.
  - `context`, `config`, `daemon`, `mobile`, `ui`, `capture` — reference documents,
    configuration limits, control-socket commands, phone pairing and commands, overlay
    anchors, the capture region of the active window, and the screen text a typed question
    carries.
- `tests/` — tests of the library on concrete values.
- `app/` — the program around the library: command line, configuration file, HTTP and
  WebSocket servers, the Groq client, PipeWire recording, the overlay window.
