putki
=====

The Rust side of the Putki data system, verified with Verus: objects are
authored as text, indexed and resolved by path, built by a pipeline and
written into binary packages that the runtime loads back.

Layout
------

`src/` is the verified library:

- `strings`, `escape`: string helpers and the quoting of string literals
  (the escape set of the text format, with its round trip proved).
- `lexed`, `lexer`: lexed values kept in sorted key order, and the lexer
  of the text format, specified by spec functions that read the text.
- `loc`, `po`: mangling of translatable strings into catalog keys, and the
  catalog writer. The round trip and the collapse of numeric variants are
  proved for texts whose braces pair up into spans that hold no space.
- `source`, `loadall`, `ptr`: the object index, the resolver and pointers.
- `shared`, `manifest`, `binreader`, `outki`: the package header parser and
  the package reader.
- `writer`, `pipeline`: the binary writers, the build queue and records,
  and the package writer.
- `readback`: the proof that the header of a written package parses back
  to its types and slots.
- `runtime`: the interfaces of the run-time parser.

`app/` holds what stays outside the proofs: reading directories and files,
picking builders by an object's run-time type, and float fields.

`tests/` runs the library on concrete data.
