# fontbake

A font build tool that follows the Java path of libGDX Hiero: it reads
`.hiero` configurations and text BMFont files, packs glyphs into atlas pages
and writes text BMFont (`.fnt`) files with RGBA PNG pages.

## Layout

- `src/` — the library, verified with Verus:
  - `config/hiero.rs` — the `.hiero` reader (last value of a key wins,
    `glyph.text` verbatim, contiguous `fallback.font.N` numbering);
  - `source/bmfont_text.rs` — the text BMFont reader and the import of
    glyph bitmaps from atlas pages;
  - `source/outline.rs` — outline fonts through `ttf-parser`;
  - `export/` — the BMFont writer, with the proof that reading a written
    font gives it back, and PNG page encoding;
  - `pack/` — Hiero's row packer, with the proof that placed glyphs stay
    inside their page and do not overlap;
  - `pipeline/` — import, merge (first source wins) and the integer steps of
    a build (font resolution, kerning pairs, Java layout box, line height);
  - `effect/distance_field.rs` — colour parsing and the row-indexed search
    for the nearest edge pixel, proved equal to looking at every pixel;
  - `raster/` — FreeType hinted vertical bounds from 26.6 metrics.
- `app/` — the command-line tool and the WebAssembly entry points, with what
  computes in floating point: glyph rasterisation (tiny-skia), hinted bounds
  (skrifa) and the distance-field alpha values.
- `tests/` — tests of the library.
