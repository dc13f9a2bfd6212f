# resp_server

A small Redis-compatible server whose logic is verified with Verus.

`src/` is the verified library:

- `frame.rs`: the RESP frame, its wire encoding and its decoding from a
  buffer that may hold only part of a frame, with the round-trip laws.
- `display.rs`: how a frame is shown as text.
- `decimal.rs`: reading and writing decimal integers.
- `buffer.rs`: the bytes a connection has read and how whole frames are taken
  from them.
- `command.rs`: parsing a request frame into a command.
- `store.rs`: the key-value store with lazy and active expiry.
- `execute.rs`: what each store command answers and does to the store.
- `session.rs`: the per-connection rules: subscriptions, subscription mode
  and transactions.
- `hub.rs`: the publish/subscribe channels, on tokio's broadcast channels.
- `laws.rs`: properties of the store across commands.
- `text.rs`: the standard library's UTF-8 conversions, as trusted wrappers.

`app/` is the tokio program around it: the listener, a task per
connection, the store task and the publish/subscribe task. Instants are
milliseconds on the server's monotonic clock, read in `app/clock.rs` and
passed to the library.
