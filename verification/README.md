# kva

A reader and writer for Valve KeyValues data, text and binary, verified with Verus.

- `src/` is the library, every function of it verified: the binary reader and writer
  (`binary`), the text reader and writer (`text`), the value model and its accessors
  (`types`), the decisions of serde serialization and deserialization (`ser`, `de`), and
  number and string helpers. `binary::roundtrip` and `text::roundtrip` prove that what the
  writers write, the readers read back; `binary::stream` proves that one binary read takes
  exactly one complete encoding, whoever wrote it, and leaves what follows to the next; `de` proves that values read
  back as the serializer wrote them.
- `app/` holds what Verus cannot: the serde `Serializer` and `Deserializer` impls, which
  call the library for every decision, and the parts that handle `f32` values (their
  text, their parsing, the float accessors).
- `tests/` runs the library on concrete inputs.
