# reality_engine

A deterministic emergent-universe simulation on a sparse graph.

- `src/` is the verified library: the sparse graph over an `FxHashSet` of
  canonical edge keys, the ring topology, the topology mutation rules, the
  xorshift generator, the integer bookkeeping of the observers (persistence,
  symmetry breaking, macro-region detection), the replay window, the binary
  frame layout, the browser's control messages and the terminal grid picture.
  Every function there carries a contract. Verus proves each of them except
  the few trusted wrappers, marked `external_body`, that call into
  `rustc-hash`, `serde_json` and `String::push`: their contracts state what
  those crates document and are taken on trust.
- `app/` is the program around it: the floating-point node state and field
  update, the floating-point statistics, the terminal output, the command line
  and the HTTP/WebSocket server. It hands the library plain values: decisions
  that rest on floating-point thresholds enter the library as closures.
- `tests/` runs the library.
