# ase_core

A verified parser and compositor for Aseprite (`.aseprite` / `.ase`) files,
written in Verus. Apart from two trusted wrappers (UTF-8 decoding through
`String::from_utf8` and zlib inflation through `miniz_oxide`), every function
in `src/` is verified against its contract; the specifications describe the
binary format byte by byte and the flattening of a frame pixel by pixel.

## Layout

- `src/read.rs` — bounds-checked little-endian reader.
- `src/parse/` — header, frame, chunk and every chunk payload; `src/file.rs`
  walks a whole file (`AseFile::parse`, specified by `spec_parse_file`).
- `src/model.rs` — the document model and its mathematical views.
- `src/limits.rs` — the caps applied to untrusted input.
- `src/composite/` — pixel blenders and frame flattening (`render_frame`).
- `src/atlas.rs` — trimming, deduplication and shelf packing of frames.
- `src/convert.rs` — animations from tags, their key timelines, import
  options, and the tracks a reimport keeps.
- `src/grid.rs` — the `"WxH"` cell size of the sprite-frames `split_grid`
  option, read as `str::trim` and `str::parse::<u32>` read it.
- `src/text.rs` — error messages, assembled from decimal and hexadecimal
  digits as UTF-8 text.
- `src/query.rs` — lookups on a parsed document (tag ranges, slices at a
  frame, names, durations).
- `app/` — the `ase` command-line inspector (`ase info`, `ase render`), with
  file I/O, PNG output, and the floating-point blend modes.

## Main guarantees

- `AseFile::parse` returns exactly the document `spec_parse_file` describes,
  or its first error; a parsed document has one palette
  snapshot per frame, parents before children, stays within every cap of
  `limits`, and can be flattened whenever its canvas fits in memory.
- `render_frame` produces exactly the pixels of `render_spec`.
- `pack` loses nothing: every frame's trimmed image appears byte for byte at
  its placement, placements never overlap, and identical frames share one.
  It takes any frames at least one pixel wide whose layout fits the
  machine (`pack_fits`: 32-bit coordinates, a 64-bit total area, and page
  buffers that fit in memory).
