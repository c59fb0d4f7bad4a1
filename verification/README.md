# anymap_serde

A serializable, type-indexed map: it stores one value per type, keyed by the
name of the type, and keeps every value in serialized form
(`serde_value::Value`) so that the whole map can be serialized and rebuilt in
another process. A value is deserialized lazily, on first access, and kept
alongside its serialized form; a value that fails to deserialize is removed.

## Layout

- `src/` is the library, verified with Verus. The map is generic over the
  representation of a deserialized value (`C`, such as `Box<dyn Any>`); each
  operation that serializes or deserializes takes the serializer and the
  deserializer of the stored type as closures, and its contract states the
  outcome for whatever they return. The map is modelled as a
  `Map<Seq<char>, ItemView<C>>` from type names to entries. `src/laws.rs`
  states properties of the map in one place (serialization round trip, what a
  read gives back after an insert, removal of values that fail to load, a
  committed change surviving the release of its guard); several of them follow
  directly from the operations' contracts.
- The entries are held in a `Vec` of (key, entry) pairs, each key at most
  once, rather than in a `HashMap`: vstd's specification of `HashMap` says
  nothing unless the key type is known to obey its key model, which is not
  given for `String` keys, and vstd's `StringHashMap` lacks `get_mut`, a
  `remove` that returns the value, and iteration, all of which the map needs.
  Lookups are linear in the number of stored types.
- `app/` is the typed front end: it names the key of a Rust type, supplies the
  `serde` serializer and deserializer of that type, downcasts values, commits
  modified values when a guard is dropped, and implements `Serialize` and
  `Deserialize` for the map.
- `tests/` exercises the library with `Box<dyn Any>` values and JSON.
