# chord_oracle

The chord engine of a guitar chord identifier, written in Verus: from the
frets held on six strings and a tuning it names the chord (with up to two
alternative roots), lists the notes played and their intervals, moves a
fingering along the neck or across the strings, and reads fingerings typed as
text (`X,X,0,2,3,2`).

Layout:

- `src/` — the verified library: `note` (pitch classes and their spellings),
  `interval`, `tuning` (presets and custom tunings), `fretboard` (notes of a
  fingering, transposition, chord-tone positions), `chord` (the quality
  database and identification), `input` (the text format and slice checks),
  `text` (white space, ASCII case and decimal rendering). Each public function
  states its result in its contract; the laws of the library (identification
  follows transposition, moves can be undone, names read back, ...) are the
  `law_*` proof functions.
- `tests/` — tests on concrete values.
- `app/` — the WebAssembly bindings: serde copies of the result types and the
  exported functions, which call the library.
