//! A serializable AnyMap-like container: one value per type, keyed by the
//! name of the type, each value held in serialized form (`serde_value::Value`)
//! and, once inserted or accessed, in deserialized form.
//!
//! The map is generic over `C`, the caller's representation of a
//! deserialized value (such as `Box<dyn Any>`). Operations that need to
//! serialize or deserialize take the serializer (`store`) and deserializer
//! (`load`) of the stored type as closures; the contracts state the outcome
//! for whatever those closures return.
//!
//! Modules:
//! - `stable_type_id`: the key of a type.
//! - `item`: one stored entry, and the vocabulary the contracts use for it.
//! - `write_guard`: mutable access to a deserialized value.
//! - `map`: the map and its model as a `Map` from type names to entries.
//! - `entry`: the entry API.
//! - `laws`: properties that relate several operations.

mod foreign;

pub mod entry;
pub mod item;
pub mod laws;
pub mod map;
pub mod stable_type_id;
pub mod write_guard;

pub use entry::{Entry, OccupiedEntry, OccupiedError, VacantEntry};
pub use item::{Item, ItemView, RawItem};
pub use map::SerializableAnyMap;
pub use stable_type_id::StableTypeId;
pub use write_guard::WriteGuard;
