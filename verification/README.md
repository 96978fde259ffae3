# paged_small_vec

A vector that keeps its first `INLINE` elements in a region reserved once, up
front, with room for exactly `INLINE` elements, and spills the rest into a fixed
table of `DIRECT` chunks of `CHUNK` elements each. A chunk is allocated when the
first element is written to it and is never freed; the contracts state this
over `allocated()`, the table of which chunk slots hold a chunk.

The library is written in Verus and every operation is proved against a model
of the contents as a sequence.

- `src/paged.rs`: the vector, its layout invariant, its operations, and the
  chunk iterator. The reserved region is a `Vec<T>` created with capacity
  `INLINE`; each chunk is a `Vec<T>` created with capacity `CHUNK`.
- `src/layout.rs`: how the contents are cut into the pieces that chunk
  iteration hands out, and the proof that the pieces concatenate back to the
  contents.
- `src/laws.rs`: laws that relate the operations to one another.
- `src/arith.rs`: division facts for locating an element by chunk and offset.
