# inarybay

A graph-based generator of binary format (de)serializers, with its core logic
verified by Verus.

A schema is a graph: serial-side segments and fixed ranges, the values read from
them (integers, bit fields, byte arrays, delimited and dynamic-length data,
enums, arrays, constants, custom conversions) and the Rust objects built from
those values.  One schema describes both directions.  For the conversions the
library runs itself, reading back what was written gives the value back: this
is proved for integer and bit fields (`node_int`) and for delimited data
(`runtime`); the generated module as a whole is rendered outside the verified
library and carries no such proof.

## Layout

- `src/` — the verified library.
  - `bvec` — byte+bit lengths and offsets.
  - `range` — allocation of the bits of fixed ranges.
  - `node_int` — choice of Rust integer types, the conversion codes for
    integer fields, and what those codes compute when run (`decode_int`,
    `encode_int`), with the round-trip and isolation laws.
  - `schema`, `scope` — the schema graph and the builder API.
  - `plan`, `traverse` — dependency gathering and the order in which generated
    code handles nodes.
  - `definitions` — the check that repeated enum/struct definitions agree, and
    the order in which type definitions are emitted.
  - `runtime` — helpers generated code calls at run time (bounded reads,
    delimited reads, alignment padding, error context).
- `tests/` — tests of the library, including the builder scenarios.
- `app/` — the unverified edges: the builder facade with closures, the
  `quote`-based rendering of generated Rust source and its formatting, and the
  async and blocking readers.
