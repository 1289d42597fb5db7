# tinyset

Collections that stay small for few elements and still scale: sets and
maps of integers whose storage shrinks to the narrowest word that holds
their values, Robin Hood hash tables, and a packed encoding of tiny sets.
Every function of the library is specified and proved with Verus: each
collection has a mathematical view (a `Set` or a `Map`), a
well-formedness invariant, and contracts that state each operation over
the view.

## Layout

- `src/robin.rs`, `src/robin_map.rs`: Robin Hood open addressing on
  power-of-two tables (search, insertion by stealing, removal by
  backward shifting), for sets and for key/value tables.
- `src/ktable.rs`, `src/setu64.rs`: the same order on tables of any
  length whose slots are words keyed by their high bits (`p_lookfor`,
  `p_insert`, `p_remove`), with the bit helpers of the `u64` sets.
- `src/tiny.rs`: up to seven values packed as gaps into 61 bits.
- `src/dense.rs`, `src/heap.rs`, `src/big.rs`, `src/wtable.rs`: the
  storage of `SetU64` (in `src/setu64.rs`) beyond a packed word: a
  bitset, a Robin Hood table of words that each hold a key and a bitmap
  of nearby values, and a table of the values themselves with a marker
  standing for zero.  Tables always keep a free slot.
- `src/castset.rs`, `src/optcastset.rs`, `src/tinyset.rs`,
  `src/vecset.rs`: sets of values cast or hashed (FNV-1a, through the
  `fnv` crate) to a table slot, and a set in a vector.
- `src/word.rs`, `src/small.rs`, `src/table.rs`, `src/wordset.rs`,
  `src/wordmap.rs`: the narrow-word storage shared by the `u64` sets and
  maps.
- `src/u64set.rs`, `src/u64map.rs`, `src/usizeset.rs`, `src/fits.rs`,
  `src/map64.rs`: `U64Set`, `Set64`, `U64Map`, `Map6464`, the two
  `Map64`s and `USizeSet`, over the `Fits64` coding of integer types.
- `src/rand.rs`: the deterministic hash used to vary table sizes, and the
  SplitMix64 output function.  The library always uses the deterministic
  variant: table sizes and the `SetU64` marker are functions of the
  table's own size and width, so iteration order is reproducible.  The
  clock-seeded generator in `app/` is not used by the collections.
- `src/laws.rs`: laws that relate several operations.
- `app/lib.rs`: the clock-seeded generator, outside the verified library.
- `tests/`: the tests of each collection.
