# syrup

Pixel-level building blocks for reading a screen: locate bars and panels
by colour, measure how full a bar is against its own track, find text and
judge whether it is sharp enough to read, extract moving regions from a
motion mask, read Tesseract's output, and draw debug overlays.

## Layout

- `src/` — the library, written in Verus. Every function carries a
  contract that the verifier checks:
  - `frame` — RGBA and grayscale frames over `image` buffers;
  - `geometry` — row runs, region grouping, colour bars and regions,
    dominant colour, uniform panels, bar fill, text blocks;
  - `quality` — edge counts and legibility of text;
  - `motion` — blobs of a motion mask, moved-pixel counts;
  - `draw` — rectangle outlines and the 5x7 bitmap font;
  - `ocr` — Tesseract arguments, crops, TSV word parsing, text
    normalisation, and the Windows engine's input;
  - `capture`, `detection` — capture surfaces and timestamps;
  - `properties` — statements that hold across all inputs (what a row
    scan finds, what grouping keeps, where text lands, what a bar
    measurement can read, what normalised text looks like).
- `app/` — plain Rust around the library: floating-point colour tests,
  confidence scores and timing, the Tesseract subprocess and its temporary
  files, and conversions between `image` buffers and the library's frames.
- `tests/` — tests of the library on concrete frames and strings.

## What is not here

- There is no frame-to-frame motion tracker: motion detection stops at
  the motion mask and its blobs, with no stable identities, velocities or
  occlusion grace across frames.
- Live window capture and the OCR engine built into Windows need the
  Windows runtime, which this crate does not carry: on every platform
  capture reports nothing and the Windows engine reports itself absent.
  The pixel conversions those paths make (`capture::bgra_to_rgba`,
  `ocr::windows::to_opaque_bgra`) are in the library.
