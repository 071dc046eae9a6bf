# learn_std

Three containers written the way the standard library writes them, with
their behaviour stated in contracts and proved with Verus.

- `Vec<T>`: a growable array. Its capacity grows by the amortized doubling
  policy (at least double, saturating, never less than what is needed); the
  elements are kept in a `std::vec::Vec` that is asked to reserve whenever
  the capacity grows.
- `LinkedList<T>`: a doubly linked list whose nodes live in an arena; each
  node links to its neighbours by position.
- `HashMap<K, V>`: an open-addressing hash table in the style of SwissTable.
  Control bytes (`EMPTY`, `DELETED`, or a seven-bit tag of the hash) are read
  eight at a time as a `u64` group and compared by bit tricks; a search goes
  from the key's home slot one slot at a time. Keys implement `HashKey`
  (provided for the integer types, `bool`, `char`, `String`, `&str` and `()`),
  which hash with std's `DefaultHasher` as their `Hash` impls do, reading
  integers as little-endian bytes. Inserting a key the table already holds does not always
  overwrite: unless the search meets the old entry in a full group first, it
  stores a second entry further along, and lookups find whichever of the two
  comes first on the key's probe sequence.

Each operation's contract speaks of a view: a `Seq` for the vector and the
list, and for the map a `Map` from keys to the value a lookup finds, together
with the bag of all entries the table holds. The laws that relate operations
(pop after push, remove after insert, lookup after insert or remove) are
public proof functions beside the types, as are laws over whole histories
of calls: a list's length is its pushes less the pops that returned a value,
and a map looks every key up as the history replays it while no insertion
leaves a second entry for a key behind. For the map, lookup after insert
or remove is stated in general where it holds and otherwise for tables that
hold no key twice; growth is stated exactly, as re-inserting the old slots'
entries in slot order; and a law gives the slot layout: home slot, tag, and
control byte of each slot.

Layout of `src/`: `vec.rs`, `linked_list.rs`, `hashmap.rs` (the map and its
proofs), `hash_key.rs` (keys), `group.rs` (bit-level facts about control
groups), `probe.rs` (positions along a probe sequence), `slot_bag.rs` (the bag
of entries and counts of control bytes), `decimal.rs` (decimal text).
