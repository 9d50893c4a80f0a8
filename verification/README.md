# loom

Loom Canonical CBOR and the pure pieces of the Loom client and columnar facet, written in Verus
with their behaviour stated as contracts and proved.

## Layout

- `src/value.rs`, `src/spec.rs` — the value model (`Value` and its view `CborValue`), the codec
  errors, and the profile as mathematics: `encode_value` (the one canonical encoding of a value)
  and `parse_value` / `decode_bytes` (the strict reader).
- `src/encode.rs`, `src/decode.rs` — the executable encoder and strict decoder, each proved equal
  to its specification.
- `src/lemmas.rs`, `src/canonical.rs`, `src/roundtrip.rs` — the supporting proofs.
- `src/laws.rs` — the profile's laws: decode accepts only canonical bytes, encoding and decoding
  are inverse within the profile's limits, maps write their keys in ascending order, encoding
  fails only on non-finite floats, and object framing round trips.
- `src/cbor.rs`, `src/columnar.rs`, `src/segments.rs`, `src/columnar_set.rs`,
  `src/columnar_records.rs` — the columnar facet: its CBOR field reader, committed policy codes,
  segment layout (rolling appends and compaction), the dataset's schema and column resolution,
  and the records of its canonical bytes and manifest, written and read back.
- `src/identity.rs`, `src/normalize.rs`, `src/truncation.rs` — canonical values read back from
  their encodings as exactly themselves (other values up to the sign of zero), and reading stops
  exactly where a value ends.
- `src/client.rs`, `src/settings.rs`, `src/tickets.rs`, `src/error.rs` — the client's transfer
  chunking, result-view handles, key material, lane placement, project settings patches, and
  ticket updates (the comment rule, comment types, relation triples and change lists).
- `app/lib.rs` — unverified glue: the codec error as a `std::error::Error`, JSON parsing and
  rendering, and adapters from JSON ticket updates to the verified change-list builder.
- `tests/` — executable tests of the library.

## What the columnar facet leaves to its cell type

The dataset is generic in its column type and cell type. Whatever depends on the cells
themselves is not in the library, because the cell and column types, their ordering, their CBOR
conversion and the segment digests belong to the engine's tabular types, which are not part of
this crate. The caller says of each cell whether it fits its column's type and names the type
(`append_row` then checks arity, then the cells, in order, and appends); it evaluates a select's
filter and projection over the resolved columns, and an aggregate's comparisons; it maps a
column's cells to `SumCell`s for the Sum aggregate (`sum_values` adds the integer widths with
overflow checks; float sums are not in the library); it computes segment statistics, encodes
segment rows and hashes them, and makes the cross-checks of digests, rows and statistics when a
dataset or manifest is read back, between the steps of a `SegmentWalk`, which holds the ordinal
and first row each segment record must carry. The library decides the schema, the arity and
type checks of rows, the segment layout, column resolution, integer sums, and the records of the
canonical bytes and manifest.
