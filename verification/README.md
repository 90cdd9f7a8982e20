# tokio-uring

The rules of a small runtime on top of `io_uring`, written and proved in Verus.

- `src/driver` keeps the operations in flight. `completion` and `op` say what becomes of one
  operation, `ops` what becomes of all of them, `submit` what to do with the kernel's answers,
  and `shutdown` how a driver cancels what is in flight and waits for it to end. `laws` states
  what holds whatever the ring reports.
- `src/net/tcp` holds the TCP stream: how a poll goes on with what is in flight, and how a
  whole buffer is written.
- `src/driver/slabs.rs`, `src/net/tcp/read_buf.rs`, and a few items of `op`, `submit` and
  `shutdown` state what the crates `slab`, `tokio`, `io-uring` and `libc` do. These statements
  are believed, not proved.
- `app` owns the ring and the sockets. It does what the library asks for and reports back.
