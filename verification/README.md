# genome-rs

Deterministic structural hashing for JSON values, verified with Verus.
A value's ID is built level by level (`L0:hash-L1:hash-...`), one part per
depth of the tree, from the keys, array positions and kinds of the values at
that depth, never from the scalar values themselves: same structure, same ID.

## Layout

- `src/xxhash.rs`: xxHash32, proved equal to its mathematical definition.
- `src/text.rs`: decimal and hexadecimal numerals, joining, parsing unsigned
  integers as `str::parse` does, byte-order comparison of strings.
- `src/table.rs`: a small string-keyed table, viewed as a `Map`.
- `src/json.rs`: the JSON value type; objects keep their members in key
  order.
- `src/genome.rs`: the hasher. `walk` is the specification of the per-level
  sums; `spec_hash` that of the ID and of the collision counters.
- `src/sums.rs`: the level sums keyed by level, as the hasher keeps them
  while walking a value, and how they agree with the specification `walk`.
- `src/similarity.rs`: comparing two IDs level by level.
- `src/laws.rs`: properties of the library as a whole (same structure, same
  ID; member order does not matter; collision counting; IDs read back;
  comparison is symmetric; one level per depth; ...).
- `app/`: the WebAssembly bindings: JSON text is parsed with `serde_json`,
  and similarity scores are computed in floating point from the exact
  comparison that the library returns.
- `tests/`: executable tests.
