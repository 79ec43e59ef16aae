# qu_interp

The data-handling core of the Qu interpreter, written in Verus: every
function under `src/` carries a contract that Verus proves.

- `src/` — the verified library: image processing (`image`, `image_tone`,
  `components`), image formats (`png`, `bmp`, `inflate`, `codecs`),
  Huffman coding (`huffman`, `huffman_law`), communication codes
  (`comms`), font reading and subsetting (`font`, `font_subset`), text
  encodings (`text_codec`), bit and byte tools with hex dumps
  (`byte_tools`), binary record layouts (`layout`), SHA-256 (`sha256`), dotted-path JSON editing (`json_path`), colour text
  (`color`), double and FIFO buffers (`buffers`), CPU/GPU routing
  (`dispatch`), and message building (`text`).
- `app/` — ordinary Rust around it: file and process I/O, per-thread
  state, and the floating-point colour and signal work.
- `tests/` — tests run against the compiled library.

The JPEG and TIFF codecs and JSON parsing and printing are called
through a few trusted wrappers whose contracts are stated next to them.
