# vecdb

A store of append-mostly vectors of fixed-size values, kept in byte regions,
with its behaviour stated in `requires` / `ensures` contracts and proved with
Verus.

## Layout

- `src/` — the verified library.
  - `header`, `region`, `codec`, `version`, `options`, `error`: the 64-byte
    vector header, byte-region writes, value encodings, versions and errors.
  - `raw`: raw vectors (values stored one after the other past the header)
    with holes, updates and pushed values held in memory until written;
    readers, cursors and iterators.
  - `compressed`: vectors whose values are grouped in pages compressed with
    Pcodec, with a page table; iterators and cursors that decompress one
    page at a time.
  - `stored`, `stamped`, `eager`, `lazy`, `computed`, `cached`: vectors of
    either format, stamped vectors, vectors computed from others (sums,
    windows, running extremes, index maps, ...), lazily computed vectors and
    in-memory snapshots.
  - `bench`: the bookkeeping of the benchmark runner.
- `tests/` — tests run against the compiled library.
- `app/` — the benchmark program: file I/O, timing, reports, and the
  floating-point computations (moving averages, growth rates, scores).
