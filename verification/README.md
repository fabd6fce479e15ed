# esm

A verified reader for Bethesda plugin files (`.esm`): records, fields, groups,
interior and exterior cells, worldspaces, and the top-level file.

- `src/parse.rs`: the `Parse` trait, whose contract states the outcome of a
  parse as a mathematical value (`Parsed`), little-endian readers, and the
  repetition combinators `many0` and `count`.
- `src/structs/`: fields, records (with zlib-compressed bodies), groups,
  cells, worlds and smaller field values.
- `src/esm.rs`: the whole file, with its data records filed by form id.
- `src/traits.rs`: listing the fields a record type leaves uninterpreted.
- `app/`: the field values that hold floating-point numbers.
