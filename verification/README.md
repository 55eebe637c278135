# solder-sse

Resumable Server-Sent Events: a cut stream costs nothing. The client
reconnects at once with the last `id:` it saw, the server replays what was
missed, and when it cannot, it says so with a `resync`.

* `src/` — the library, verified with Verus: the wire format and its parser,
  cursors, the in-memory event logs, replay joined with the live stream, the
  response with its keep-alive and rotation, the client's reading and
  reconnect policy, and a server that cuts streams on purpose.
* `tests/` — what the library does, on concrete values.
* `app/` — sockets, timers, locks and tasks around it: the `http_body`
  response, the axum adapter, the reqwest subscription, and the
  `solder-sse-testkit` server.

What is proved, beyond the contract of every function:

* what an encoder wrote is what a parser reads, whatever the texts hold
  (`roundtrip`), and how a stream is cut into chunks does not matter
  (`parse`, `client`);
* a replay is exactly what was published after the cursor, or it is refused —
  never a silent gap (`sequence::log`, `server::log`);
* replay and live stream together are every event after the cursor, each once
  (`sequence::stream`, `server::stream`);
* a `resync` drops the client's cursor, and a `ping` arms its dead-man timer
  (`client`);
* a `ping` or `resync` payload says what its members say: unknown ones are
  ignored, and a malformed `resync` is an unknown one (`json`, `payload`);
* a client that is cut off again and again, anywhere, hears every event
  exactly once and in order (`exactly_once`).
