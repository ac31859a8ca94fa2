# sketchbook

A collection of small programs (puzzles on words, sequences, partitions and
graphs; pixel buffers; byte encodings; a grid game), split in two.

- `src/` is the library, verified with Verus. Every function there has a
  contract stating what it returns or changes, and the properties that relate
  several functions (round trips, orderings, invariants) stand as proof
  functions whose names begin with `law_`. Calls into outside crates go through
  small trusted wrappers: `byteorder`'s `BigEndian::write_u32` in
  `pixels.rs`, std's `String::from_utf8` and `u32::to_ne_bytes` in `bytes.rs`, and the `csv` reader in
  `csv_data.rs`, whose result is named by `csv_records_of`.
- `app/` is ordinary Rust around the library: the `main` of each program,
  file, keyboard, serial and network I/O, randomness, windowless rendering of
  the floating-point scenes, and the plugin loading that goes through raw
  pointers. It hands the library plain values and prints what comes back.
- `tests/` runs the library on the examples the programs' own comments give,
  and on the edge cases the contracts describe.
