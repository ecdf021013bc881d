# parquet_lite

A small Parquet reader and writer whose logic carries Verus contracts. The file
format's framing (footer, page headers, compression, bit unpacking, the
writer's run encoder) is handled by the `parquet2` crate, called through
trusted items whose contracts are stated in `src/pq.rs` and
`src/pq_write.rs`. The structure of the hybrid RLE/bit-packing runs and of
the delta encodings is read in verified code, which refuses the inputs on
which `parquet2`'s own readers would panic.

## Layout

- `src/types.rs`: physical and logical types and the names readers report.
- `src/plain.rs`: PLAIN values (integers, floats by their bits, booleans,
  byte arrays), with encode/decode round-trip lemmas.
- `src/levels.rs`: definition and repetition levels, dictionary indices:
  the run grammar of the hybrid encoding, and the law that a bit-packed run
  written with a level's width reads back as the same levels.
- `src/nulls.rs`, `src/nested.rs`: putting nulls back, grouping list values
  into rows.
- `src/delta_stream.rs`: DELTA_BINARY_PACKED streams and the length and
  prefix streams built on them.
- `src/delta.rs`: the byte-array side of the delta encodings.
- `src/cells.rs`, `src/column.rs`, `src/chunk.rs`, `src/output.rs`: decoding
  pages and column chunks into named columns of cells.
- `src/select.rs`, `src/reader.rs`, `src/reader_lite.rs`,
  `src/reader_full.rs`: the three readers (top-level fields by physical
  type; decoded top-level fields; every leaf column with delta encodings and
  nesting).
- `src/writer.rs`, `src/encode.rs`: the writer's schema rules, value
  encoding, definition levels and row groups.
- `app/`: the WebAssembly bindings, converting JavaScript values to and from
  the library's values.
- `tests/`: tests run against the real `parquet2`.
