# zipng

Writers for PNG images and ZIP archives, and for files that are both at
once, with the pieces they are built from: CRC-32 and Adler-32 checksums,
stored deflate blocks, zlib streams, block alignment, a sorted ZIP central
directory, an output buffer that marks named ranges of what is written to
it, and a few helpers for reading a web-fiction site's pages.

The library in `src/` is written in Verus: each public function states what
it computes in its `ensures`, and Verus proves it. Where the library calls
another crate (`scraper`, `ammonia`, `flate2`, `time`, `twox-hash`), the call
stands in a small function whose contract says what the crate's
documentation promises, or names the result.

- `src/png`, `src/zip`, `src/zipng`: the file formats, their writers, and
  readers that give back what the writers wrote.
- `src/io`: the tagged output buffer.
- `src/royalroad`: tables of contents and chapters read from pages.
- `src/storage.rs`: what a SQLite-backed store does with a database it
  opens, by the database's application id.
- `app/`: the program around the library: fetching pages, caching them on
  disk, serialization, and colour dithering.
- `tests/`: the tests, run against the compiled library.
