# libgibson

A cell-framebuffer terminal UI engine whose core is written in Verus and
proved against its contracts.

- `src/` is the verified library: colors and styles (`cell`), the cell
  framebuffer (`surface`), Braille and half-block canvases (`canvas`) with
  exact Liang-Barsky clipping and Bresenham walks (`segment`), RGB rasters
  (`raster`), capability detection and color quantization (`capability`),
  surface diffs (`diff`) and their ANSI compilation (`ansi`), text wrapping
  and the intrinsic sizes of leaf nodes (`layout`), grapheme-aware text input
  (`input`), the node tree (`node`), its painter (`painter`), the scene
  registry (`scene`), focus rings (`focus`), frame scheduling (`scheduler`),
  clocks (`clock`, `time`), seeded glitch effects (`glitch`, `particles`),
  sub-cell glyph families (`glyph`), renderer state and decisions
  (`renderer`) and the plain-data side of the C interface (`ffi`). Unicode
  width and grapheme segmentation come from `unicode-width` and
  `unicode-segmentation` through the trusted wrappers in `text`.
- `app/` holds what stays outside the proofs: terminal input through
  `crossterm`, the process environment, driving a frame and writing the
  renderer's bytes, PPM output, scene effects, the C layer's last-error
  record, and the floating-point code (motion curves, color interpolation,
  particles, ellipses, discs, fields, 3D geometry and rasterization, raster
  effects, replication).
- `tests/` exercises the library from outside.
