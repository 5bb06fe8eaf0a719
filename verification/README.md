# woodpecker

A logging library whose rules are verified with Verus.

`src/` is the verified library:

- `levels.rs`: the log levels, their numeric values, names and parsing.
- `line_range.rs`: ranges of lines, their merging, and the overlay of line
  levels.
- `global.rs`, `logger.rs`: the global level and the per-path rules, looked up
  hierarchically; setting a level, applying a parsed spec, deciding whether a
  record is emitted.
- `spec.rs`, `json.rs`, `squash_order.rs`: reading `env_logger`-style and JSON
  logging specs, and the order of a squashed spec.
- `log_thread.rs`: the decisions of the log thread.
- `formatter.rs`, `handlers.rs`: the default log line, and the bookkeeping of
  rotating log files.
- `text.rs`: the text helpers the rest is written with.

`app/` holds what runs around it: the process-wide state, the log thread and
its queues, the handlers that write to terminals and files, and the logging
macros.
