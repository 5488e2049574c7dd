# llm_wiki_web

The headless web server of LLM Wiki: an HTTP API over a folder of wiki
projects (Markdown pages, raw sources, review items, chat sessions) with a
background task queue and a file watcher.

The rules of the server are a library verified with Verus (`src/`); the
program around it (`app/`) does the disk, network, clock and thread work
and hands the library plain values.

## Layout

- `src/text.rs`, `src/utf8.rs`: string and UTF-8 helpers with their specs.
- `src/http.rs`, `src/params.rs`: URL and query parsing, path safety,
  file-operation rules, request parameters.
- `src/multipart.rs`: `multipart/form-data` bodies.
- `src/server.rs`: routing, authentication, rate limiting, request limits.
- `src/app_state.rs`: the project registry.
- `src/tasks.rs`: the task registry and its event log.
- `src/search.rs`, `src/graph.rs`: keyword search and the page graph.
- `src/chat.rs`: the chat agent's replies and its model endpoint.
- `src/reviews.rs`: review item listing and resolution.
- `src/archive.rs`: project export and import as zip archives.
- `src/watcher.rs`, `src/config.rs`: file-watcher decisions, settings.
- `tests/`: tests of the library on concrete values.
- `app/`: `main`, the HTTP loop, disk access, workers and the watcher.
