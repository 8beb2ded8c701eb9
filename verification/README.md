# png_qoi

A PNG decoder and a QOI encoder whose logic is verified with Verus.

- `src/chunk.rs`: splitting a PNG file into chunks and joining the `IDAT` data.
- `src/png/`: header fields, zlib inflation (through flate2) and reversal of
  the five scanline filters.
- `src/filters.rs`, `src/image.rs`: a second filter set that works on an
  image held with its dimensions.
- `src/qoi/`: pixels, QOI chunk tags and the chunk-stream encoder.
- `src/utils.rs`: big-endian integers and a strict range test.
- `app/`: the command-line program that decodes a PNG file and writes it out
  with the `image` crate, and the QOI header written from raw memory.
