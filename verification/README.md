# terminal-sprite-pet

Plays a Codex-compatible animated pet (a `pet.json` manifest and an 8-column
spritesheet, version 1 with 9 rows or version 2 with 11) in a terminal that shows
images through Kitty graphics or Sixel.

## Layout

- `src/` is the library, written in Verus and verified:
  - `sixel.rs`: the Sixel encoder (RGB 3-3-2 palette, bands of six rows, run-length
    encoding), stated against an exact model of the bytes it writes, with round-trip
    laws for the palette and the run-length encoding.
  - `sixel_reader.rs`: a model of a Sixel reader, and the law that it paints back each
    opaque pixel of an encoded image in its colour.
  - `animation.rs`, `animation_set.rs`, `catalog.rs`: animations, which frame shows at
    a moment, the default states and the custom states of a manifest.
  - `pet.rs`: the spritesheet grid, frame cropping and the frames handed to the
    terminal.
  - `terminal.rs`: protocol detection from a snapshot of the environment, and the
    escape sequences that draw and clear a frame.
  - `playback.rs`: one step of the playback loop.
  - `codec.rs`: the calls into `image` (PNG encoding, Lanczos resizing), `base64`
    and `str::trim`, with the contracts the library relies on; the resized pixels are
    computed in floating point and left unstated.
- `app/` is the command-line program around it: argument parsing, reading the
  manifest and the image, the environment, the clock and the terminal.
- `tests/` runs the library on concrete values.
