# mclog_capture

Reads the logs that the `mclog` datapack writes into a Minecraft
`latest.log` and decodes them, with the decoding verified by Verus.

- `src/` is the library. `line.rs` escapes a raw line, finds the identifier
  and parses the SNBT payload (through `vanity_nbt`); `message.rs` decodes the
  payload's compound into a `LogMessage`; `nbt.rs` models SNBT values, with
  each compound held in an `IndexMap` (as `vanity_nbt` re-exports it) whose
  methods are called through trusted wrappers; `level.rs`
  holds the log levels; `watch.rs` holds the decisions of the file watcher;
  `error.rs` the errors. `snbt.rs` states on which texts `vanity_nbt`'s
  parser comes back rather than panicking, and `scan.rs` computes it, so
  that `try_parse_log_line` never hands the parser a text it would stop on.
- `app/` is the `mclog` program: it locates the log file, follows it with
  `tokio`, and reports each log through `tracing`.
- `tests/` runs the library on concrete lines and values, among them the log
  of the example in the datapack's documentation.
