# websocket-protocol

The server side of the WebSocket opening handshake (RFC 6455), verified with Verus.

- `src/text.rs`: Unicode white space, trimming, building strings from characters.
- `src/headers.rs`: `HeaderMap`, the request headers keyed by name (a later header
  replaces an earlier one), with its map view.
- `src/accept.rs`: the `Sec-WebSocket-Accept` value: SHA-1 (rust-crypto) of the key and
  the protocol GUID, in standard base64 (rustc-serialize).
- `src/websocket.rs`: `MioWsError`, the `name: value` header grammar, the upgrade
  response, and `Handshake`, which takes the request one line at a time and says whether
  to read on, respond or fail; `answer_request`, which answers a whole request given as its lines.
- `app/lib.rs`: `perform_handshake`, which reads the lines from a socket and writes the
  answer.
