# lau_collections

Collections for game workloads, written in Verus with their behaviour stated
in contracts and proved:

- `free_list` — `FreeList`, a generational slot allocator whose free slots
  form an intrusive linked list (last freed, first reused).
- `sparse_set` — `SparseSet<V>`, a map from `u32` keys to values with packed
  storage and swap-removal.
- `slot_vec` — `SlotVec<T>`, a vector of optional slots whose emptied indices
  are reused by later pushes.
- `bit_set` — `BitSet`, a fixed-size set of indices stored as 64-bit words
  (`word_bits` holds the bit-level lemmas).
- `small_vec` — `SmallVec<T, N>`, a vector in an `Inline` state of at most
  `N` elements (held in a bounded `Vec` rather than an array of
  uninitialised slots) until one more push moves it to the `Spilled` state
  for good.

Each module states its model (a `Map`, `Seq` or slot sequence), the
well-formedness its operations keep, and proof functions for the laws that
span several calls (a read gives back what a write stored, a freed slot is
the next one reused, and so on).

`app/` adds serde support: record types with the same fields as each
collection, converted to and from the collections, checking the fields on
the way back.
