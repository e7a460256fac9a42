# hole_map

Maps the data and the holes of a sparse raw image, and writes the map as the JSON
that `qemu-img map --output=json` prints for a single-layer raw image.

- `src/data_map.rs`: the data extents of a file, and the question whether a byte range holds data.
- `src/scan.rs`: the decisions of a `SEEK_DATA`/`SEEK_HOLE` walk, one seek at a time.
- `src/map.rs`: the map entries, their JSON text, and the errors of side-car generation.
- `src/decimal.rs`: decimal notation.
- `src/geometry.rs`: what a scan finds, against what is in the file.
- `src/coverage.rs`: what the entries of a map say of the file.
- `src/readback.rs`: what the text of a map tells its reader.
- `app/`: the filesystem calls around the library.

The library is verified with Verus. What it takes on trust are two opaque types of
the standard library, `PathBuf` and `io::Error`, which it only carries.
