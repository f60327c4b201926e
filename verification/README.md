# ameSCII

A weather map in the terminal: rain radar, coastlines, roads and place names in
braille dots, and the weather of several sources taken together.

## Layout

- `src/` is the library, verified with Verus. It does no I/O.
  - `render/`: braille cells, colour scales, lines, clipping decisions
  - `grid`, `geo`, `places`, `width`: grids, tiles, cities and label widths
  - `basemap/`: vector tiles, their geometries, lines and place names
  - `radar/`, `calendar`: radar images, the timeline, dates
  - `cache`: tiles in memory, and the way from memory to disk to server
  - `model`, `agg`, `providers/`: measurements, outliers, votes, answers
  - `app`, `input`, `schedule`, `config`, `ui/`: state, keys, timing, screen
  - `ieee`, `text`, `storage`, `clock`, `error`: what the others rest on
- `tests/` runs the library on concrete values.
- `app/` is the program around it: terminal, network, files, and the floating
  point arithmetic of projections and means.

## What is proved, and what is believed

The functions of `src/` have contracts that say what they return or change. Only
the reading of the clock is left open.
Public proof functions state what holds across functions: that no two labels
share a cell, that the timeline is in order, that a recent tile is not dropped.

Functions marked `#[verifier::external_body]` make single calls into other
crates (`heapless`, `bytes`, `geozero`, `image`, `unicode-width`) and into the
clock of the standard library. Their comments say what is believed of the call.

Floating point values are held by their bit patterns and compared exactly.
Arithmetic on them is not part of the library: it is handed in, and what is
proved holds whatever it computes.
