# tsdb

A local time series database: values (`u64`) are stored per segment, per time bucket and
per key, and can be read back, accumulated and aggregated over ranges of buckets, for one
segment or, in parallel, across all of them.

## Layout

- `src/` is the library, verified with Verus.
  - `lib.rs`: bucket time arithmetic and the shared constants.
  - `text.rs`: trimming, decimal numbers and line splitting, as the standard library does them.
  - `keymap.rs`: keys to sequence numbers and back, and the text format of key map files.
  - `index.rs`: bucket times to storage regions, kept sorted, and the entries an index file saves.
  - `storage.rs`: value blocks in memory maps (anonymous, or blocks of data files), files of
    blocks, and a store of files.
  - `segment.rs`: a key map, an index and storage together; each bucket gets its own region.
  - `tsdb.rs`: named segments, and aggregation across them with rayon.
  - `valueblock.rs`, `valuefile.rs`: a byte buffer and a mapped file read as `u64` values.
  - `mapped.rs`, `error.rs`: the trusted declarations around `memmap2`, and the error type.
- `app/` holds what touches the file system: reading and writing key map and index files,
  creating directories, mapping the blocks of the data files that hold the values, and a copy of the error type that displays itself.
- `tests/` exercises the library.
