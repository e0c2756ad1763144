# moba_proto

The wire protocol and battle coordination of a small lockstep MOBA server, verified
with Verus.

- `src/` is the verified library: the frame format (`frame`), the buffer it reads and
  writes (`buffer`, over `bytes::BytesMut`), the messages (`model`), the server's battle
  state machine (`server`) and the client's replies (`service`).
- `app/` holds the tokio networking: the codec, the connections and timers, and the
  server and client entry points.
- `tests/` runs the library on concrete values.
