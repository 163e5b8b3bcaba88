# wasmee

The verified core of a durable WebAssembly execution engine, written in Verus.

- `src/` is the library. Its functions are verified, except a few small
  trusted wrappers (marked `#[verifier::external_body]`) that call outside
  code: the ZIP, Gzip, Brotli, base64 and SHA-256 crates, and std's
  `to_lowercase`, `to_uppercase` and `String::from_utf8_lossy`. Their
  contracts are assumed, not proved.
  - `engine`: memory pages, their FNV-1a hashes and deltas, rebuilding memory
    from a snapshot and deltas, and the host calls of a guest (clock and API
    calls answered live or replayed from the call log, checkpoints).
  - `delta_json`: page maps as JSON carries them (base64 strings or byte arrays).
  - `git_resolver`, `gitops`, `cache`, `service`: where a module comes from
    (request, Git, cache), how downloads are unpacked, the module and Git
    caches, push webhooks, request checks.
  - `bpmn`, `dmn`, `json`: the guest's process engine (token flow through
    events, tasks and gateways) and decision tables.
  - `text`: string helpers shared by the above.
- `app/` is the program around it: the HTTP server, Wasmtime, HTTP downloads,
  protobuf and serde encodings, and the numeric parts of decision tables.
- `tests/` runs the library.
