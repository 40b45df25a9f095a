# ordnung

An insertion-ordered map (`OrderedMap`) with an entry API (`Entry`,
`OccupiedEntry`, `VacantEntry`), verified with Verus.

- `src/model.rs`: what the contracts speak of: the sequence of nodes (a key
  and an optional value), the key-value mapping they describe, key equality as
  `==` judges it (required to be an equivalence), and the lemmas that relate
  them.
- `src/map.rs`: the map, stored as a vector of nodes.
- `src/entry.rs`: the entry types. An entry borrows the map mutably; each
  contract relates the map when the entry was made (`*e.map_ref()`) to the map
  once the borrow ends (`*final(e.map_ref())`), and methods taking `&mut self`
  say how the entry's map changes. The broadcast group `group_entry_resolved`
  states that once an entry has ended, the map is what the entry last held.
- `src/laws.rs`: properties that hold across operations (insertion order,
  removal, read after write).
- `tests/`: the documented examples and edge cases, run against the compiled
  library.
