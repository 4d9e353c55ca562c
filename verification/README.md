# compositions

Generative pieces for the `euphony` music library, with their musical
decisions verified in Verus.

- `src/` — the verified library: rational durations and intervals
  (`units`), scale lookup (`pitch`), timed sequences and looping
  (`timeline`), seeded random draws (`chance`), shared building blocks
  (`parts`) and one module per piece, each describing every voice's
  rhythm, pitches and the arrangement of sections.
- `tests/` — tests of the library on concrete values.
- `app/` — the program that plays a piece, named on the command line,
  through euphony's runtime, oscillators and samples.
