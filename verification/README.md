# i2m_rs

Turns images into MIDI files by reading them like a piano roll: after the
image is resized, every column plays one MIDI key, every palette color
becomes one track, and every vertical run of one color in a column becomes a
note.

## Layout

- `src/` — the library, written and proved with Verus. It holds the image
  type and its geometric transforms, decoding raster files and rasterizing
  SVG (the decoding, parsing and rendering are the `image` crate's and
  `resvg`'s, behind small trusted wrappers), the integer resampling kernels (box
  average, summed-area table, mode pooling, nearest sample), the integer
  palette algorithms (popularity, variance split, octree, single-linkage
  clustering, fixed bit palettes), nearest-color matching in RGB, key-list
  planning, the piano-roll note scan and the layout of the Standard MIDI
  File. Its public functions carry contracts over a mathematical model of
  their inputs (the cancellation flag, shared with other threads, is the
  exception: nothing can be known of its value), and the library's laws (rotations undo each other, a read
  gives back a write, every note-on has its note-off, palettes have the
  requested size, ...) are stated and proved as proof functions.
- `app/` — ordinary Rust around the library: reading image files,
  the floating-point color spaces, filters and clustering methods, progress
  reporting, batch conversion and writing the MIDI file with `midly`.
- `tests/` — tests of the library on concrete values.
