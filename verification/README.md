# custom_glyphs

Procedural rasterization of the box-drawing (U+2500–U+257F), block-element
(U+2580–U+259F) and braille (U+2800–U+28FF) characters of a terminal font,
as white-on-transparent RGBA pixel buffers.

- `src/` is the verified library:
  - `pixels.rs`: pixel words, the ARGB → RGBA conversion;
  - `box_drawing.rs`: the arms of each box-drawing character and the stroke
    geometry (in half-pixel units) that draws them;
  - `block.rs`: rectangle and dither fills, and the block elements;
  - `braille.rs`: the dot layout of braille patterns and their pixels;
  - `lib.rs`: `try_rasterize_custom_glyph`, which dispatches on the code point.
- `app/` holds what needs floating point: painting box-drawing strokes with
  `raqote` and computing where the braille dot discs lie.
- `tests/` exercises the library on concrete cells.
