# sse_stream

A server-sent events (SSE) decoder and encoder, verified with Verus.

- `src/model.rs` states the wire format as mathematics: how bytes are read
  into event blocks (`run`, one byte at a time, CR/LF/CRLF line ends, BOM,
  field rules) and how a block is written (`encode_block`, `encode_comment`).
- `src/stream/parser.rs` is the incremental decoder. `Parser::parse_chunk`
  is proved to do what the model does on every chunk, however the input is
  split; `SseByteStream` drives it and keeps the record of what was decoded.
- `src/event/encode.rs` writes blocks and comments; `Sse::encode` is proved
  to give `encode_block`, or the error for metadata it cannot hold.
- `src/body.rs` decides the frames of an encoding body: events, keep-alives,
  errors once and then the end.
- `src/laws.rs` proves properties of the whole: chunking is invisible,
  encoded blocks read back as themselves, comments cannot inject events,
  and the field rules (last valid value wins, unknown fields, NULL ids).
- `app/` holds the async adapters that Verus does not see: the `Stream` and
  `http_body::Body` impls, the keep-alive `Timer`, and error types with
  `Display`.
