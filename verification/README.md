# extender_protocol

Verified core of the extender-screen hosts and clients.

- `src/protocol.rs` — the message types and the framing of the host -> client
  stream (4-byte little-endian length, then the postcard body), with the
  round-trip laws of the framing.
- `src/wifi.rs` — reading the network name out of `airport -I` output, and the
  masked password shown in the UI.
- `src/qr.rs` — the QR symbol of a text drawn as an RGBA image with its quiet
  zone, and square icon decoding.
- `src/snapshot.rs` — BGRA -> RGB repacking, downscaling and JPEG encoding of a
  screen capture, and the small decisions of the GDI capture.
- `app/` — the I/O around it: postcard encoding on streams, running `airport`,
  GDI capture on Windows, egui images and the logo overlay.
