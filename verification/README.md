# e8_mask_codec

A prime counter and prime archive built on E8 mask blocks: four 60-bit selector
words mark the candidate periods `10 * q + d` of the decimal classes 1, 3, 7 and 9.
The library is written in Verus; its contracts are proved.

## Layout

- `src/lib.rs`: the mask block, its selectors and the sparse, dense and 24-cell
  scanners.
- `src/bitspec.rs`: bit-level specifications shared by the codecs.
- `src/memory.rs`: storage estimates and the choice between full, sparse and
  bitmap segments.
- `src/runtime/`: the sieve, the counting step, the exact (delta-varint) and
  wheel-210 archive formats, the counting law, the checkpoint format, resuming, the archive
  commit ledger, file names, and the `is prime` / `next prime` queries.
- `src/repair.rs`: rebuilding missing wheel-210 chunks from the exact index.
- `src/http.rs`, `src/service.rs`: routing, request parsing and response heads of
  the query service.
- `src/gpu.rs`, `src/bench.rs`: the argument checks of the GPU pool and the
  benchmark inputs.
- `app/`: the programs around the library: file and network I/O, threads,
  timing and the float-valued reports.
- `tests/`: tests of the library on concrete values.
