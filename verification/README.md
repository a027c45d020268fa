# egna_network

A chunked message transport over UDP. The library (`src/`) holds the wire formats
of messages and chunks, the splitting of a message into chunks, and the
reassembly of chunks into messages, each with a contract proved by Verus.
`src/net/laws.rs` proves what splitting and reassembly give back of a message.
Calls into `crc32fast`, `rand`, `bytes` and `tokio` go through the small set of
functions in `src/net/boundary.rs`.

`app/` holds the socket side: the `Listener` that runs the receive loop and the
async `send`.
