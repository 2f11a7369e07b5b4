# fast_logger

A log-level based logger whose decisions are verified with Verus.

- `src/` is the verified library:
  - `levels`: log levels, the global level filter and the level colors;
  - `context`: the per-context level table (`ContextLevels`) and the
    logger thread's filtering and shutdown decisions;
  - `dispatch` and `channel`: handing a message to the logger thread over a
    bounded `crossbeam-channel` channel;
  - `layout` and `render`: how a record is laid out and rendered, plain or
    colorized with `colored`, stamped with the local time from `chrono`;
  - `worker`: the logger thread's next step for each event (message,
    closed channel, unusable context table, failed write);
  - `notices`: the logger thread's own messages;
  - `digits`: decimal rendering with zero padding;
  - `u32map`: a map that hands out `u32` identifiers.
- `app/` holds the multi-threaded logger handle (`Logger`), the logger
  thread's loop, the `Generic`/`Logpass` compatibility layer, the
  `InDebug`/`InHex` helpers and the logging macros.
- `tests/` exercises the library.
