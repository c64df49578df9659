# herdr

Image and frame encoding for clients that are attached to a terminal server, verified with Verus.

- `src/color.rs`, `src/quantize.rs`: packed colors, and median-cut quantization to 256 entries.
- `src/raster.rs`: cropping, nearest-neighbor scaling, RGB to RGBA.
- `src/sixel_encode.rs`: RGBA pixels as a Sixel sequence. `src/sixel_paint.rs` describes a
  terminal that reads such a sequence, and proves that it paints the image; `src/sixel_laws.rs`
  holds what is true of every sequence.
- `src/sixel_cache.rs`: a byte-bounded cache of sequences that evicts the least recently used.
- `src/iip_encode.rs`: images as iTerm2 inline-image sequences, with PNG files by the `png` crate.
- `src/base64_text.rs`, `src/json_bytes.rs`: byte strings as base64 text, by the `base64` crate.
- `src/endpoint.rs`: the handshake and the controls of the endpoint protocol.
- `src/frame.rs`, `src/render_stream.rs`: frames, and what is sent to a client frame by frame.
- `src/cursor.rs`: which cursor a frame shows.

`app/` holds what is around the library: the JSON documents (serde) and drawing into memory
(ratatui). Drawing is written against two traits, `Shell` and `TerminalRuntime`, that the
application implements.
