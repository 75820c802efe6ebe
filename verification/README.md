# fastwebsockets

A WebSocket (RFC 6455) protocol library whose protocol logic is written in
Verus and proved against its contracts.

- `src/` is the verified library: frame header parsing and writing, payload
  masking, the read and write halves of a connection and what they decide
  for each frame, reassembly of fragmented messages with UTF-8 checking, the
  opening handshake (key, accept value, upgrade checks), the
  `Sec-WebSocket-Extensions` parser and permessage-deflate negotiation, and
  the callback-driven server engine with the protocol side of its reactor.
  Calls into `sha1`, `base64`, `rand`, `simdutf8`, `utf-8` and `bytes` go
  through a few trusted wrappers whose contracts are stated in `src/`.
- `app/` is ordinary Rust around it: reading and writing frames on tokio
  streams, the hyper-based upgrade and client handshake, the mio event loop,
  and the error type with its `Display`.
- `tests/` runs the library on concrete inputs.

Laws proved in `src/` include: unmasking undoes masking; a written frame
header parses back to the same header, and a written frame parses back as a
whole frame of exactly its bytes; a frame written by one end is read
back by the other with its payload; a permessage-deflate header written for
some settings negotiates back to the same settings; a binary message, or a
UTF-8 text message cut anywhere, sent in fragments is handed back whole;
handed-back text is UTF-8; after whole frames and part of another, the server
engine holds exactly that part; over any run of session steps the handler's
`on_open` fires once, in the step that goes on first.
