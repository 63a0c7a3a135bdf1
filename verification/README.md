# tapline

A rhythm game for the terminal that plays BMS charts. The crate is a Verus
library with a thin program around it.

- `src/` — the verified library: decoding chart files, resolving
  `#RANDOM`/`#IF` blocks, reading header commands, decoding channel slots,
  placing every note, long note, landmine, background sound and image event,
  pairing long notes, planning lanes (including the 7+7 double-play fold),
  key bindings, score keeping, the chart selector's navigation, and the texts
  and geometry of the screens. Every function carries a contract that Verus
  proves; laws that relate several functions are stated as proof functions.
- `app/` — the program: command line, file system, terminal drawing, audio,
  the game loop, and the floating-point parts (the tempo map and hit timing).
- `tests/` — tests of the library on concrete values.
