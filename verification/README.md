# structio

A JSON reading and writing library whose logic is verified with Verus.

- `src/json/`: the parser and writer (`parser.rs`, `structure.rs`,
  `writer.rs`), the `Read`/`Write` traits and their impls, whole-document
  entry points (`mod.rs`), minifying and pretty-printing with the laws that
  relate them (`agreement.rs`), and framing of documents in a stream
  (`stream/`).
- `src/keymap.rs`: the perfect-hash key maps, built by a ladder of schemes
  from the cheapest up.
- `src/num/`: integer and float text, both ways.
- `src/text.rs`: UTF-8 checks.
- `app/`: I/O around the library (writers, readers, the stream loop).
- `tests/`: the tests, run against the compiled library.
