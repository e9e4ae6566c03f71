# ascii_video_renderer

Plays a local MP4 as live ASCII video in the terminal. Frames are decoded by
`ffmpeg`, matched cell by cell against glyph shapes, coloured with the xterm
palette or truecolor escapes, and drawn with a status line below.

## Layout

- `src/` is the library, verified with Verus: the xterm palette and its grey
  lookup table, SGR escape bytes, ANSI frame assembly and its UTF-8 and
  line structure, the Unicode block (half-block, sextant and shade) renderers, the glyph
  and shape caches, the embedded 8x8 font, the frame-rate window, the
  latest-frame slot, the terminal key, padding and layout rules, the handle
  registry, and the player's frame decisions.
- `app/` is the program around it: argument handling, the terminal session,
  `ffmpeg`/`ffprobe`, the decoding thread, the playback loop, the wasm C ABI,
  and the floating-point parts of rendering (cell geometry, shape sampling,
  contrast, nearest-glyph search and timings).
- `tests/` exercises the library on concrete inputs.

## Controls

- `r` cycles the renderer: Local, Context, Color, HalfBlk, Sextant, SextRGB,
  Shade, ShdRGB, then Local again. The colour modes draw the decoded grey
  frames as RGB24.
- `Ctrl+C` stops playback
