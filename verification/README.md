# ditto

Conflict-free replicated data types whose behaviour is stated in
`requires` / `ensures` contracts and proved with Verus.

- `src/` is the verified library: replicas and tombstones, the sequence
  identifiers (`sequence::uid`, `sequence::path`), the set, map, list and
  atom CRDTs, the per-site counters, the attributed string with its remote
  updates, and the VLQ and base64 encodings of identifiers. The laws of the
  library (idempotent replay, commuting concurrent operations, tombstone
  merges) are public proof functions beside the operations they speak of.
- `tests/` runs the library on concrete values.
- `app/` holds what Verus does not see: the floating-point counter and the
  serde forms of the library's types.

Design notes:

- A set value keeps the replicas that inserted it in replica order, and
  a remote insert puts its replica where the binary search for it ends,
  so that a replayed operation is recognised and ignored.
- Merging two updates of an attributed string cancels an element that
  one update adds and the other takes away, so that it is not replayed
  at other sites.
- A sequence Uid's position is a list of levels (level `i` holds
  `20 + i` bits, at most 44 levels). Its bytes write the position as
  one number, a one bit followed by the bits of the levels; bytes whose
  position is not a whole number of levels are refused.
- The B-tree index of an attributed string is a sorted vector, and the
  JSON document layer, the registers and the compact and raw encodings
  are not part of this library.
