# flatcitybuf

A packed Hilbert R-tree for bounding-box filtering of city objects, and the
attribute encoding of the FlatCityBuf format, written in Verus and proved
against its contracts.

## Layout

- `src/` — the verified library.
  - `ieee754.rs`: comparison of binary64 values held as bit patterns.
  - `bytes.rs`: little-endian byte encodings (through `byteorder`).
  - `node.rs`: node items, their boxes and their 40-byte encoding.
  - `levels.rs`: the level layout of a tree with `n` leaves and branching
    factor `b`.
  - `tree.rs`: building, reading, writing and searching a tree.
  - `search.rs`, `search_law.rs`: what a search returns, and that on a built
    tree it returns exactly the matching leaves.
  - `extent_law.rs`: the box of all nodes of a built tree is the box of its
    leaves.
  - `stream.rs`: a search over an index read piece by piece.
  - `http_search.rs`, `http_law.rs`: a search over HTTP range requests, with
    merged requests, and that on a built tree it finds exactly the byte
    ranges of the matching features.
  - `nearest.rs`, `nearest_law.rs`: the best-first nearest-neighbour
    search, deciding on distances that its caller computes, and that with
    distances consistent with the tree it finds a leaf whose centre is
    closest.
  - `hilbert.rs`: positions along the Hilbert curve and ordering by them.
  - `sorting.rs`: the stable sort of keyed positions (through std).
  - `attribute.rs`: the attribute schema and the binary attribute encoding.
- `app/` — what the library leaves to its callers: streams, HTTP,
  floating-point geometry (distances and grid cells), conversion from
  `serde_json` values, and the FlatBuffers `Extension` table.
- `tests/` — tests of the library.
