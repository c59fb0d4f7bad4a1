//! Properties of the map that hold across its operations.

use crate::item::{committed, extracted, load_failed, refreshed, ItemView};
use crate::map::{
    keys_distinct, lemma_entries_len, lemma_serialized_view_of, serialized_of, serialized_view,
    without_caches, SerializableAnyMap,
};
use crate::stable_type_id::StableTypeId;
use crate::write_guard::{lemma_guard_resolved, WriteGuard};
use serde_value::{DeserializerError, Value};
use vstd::prelude::*;

verus! {

/// Serializing a map and deserializing the result gives back every entry
/// under its key with the same serialized form; no deserialized value
/// survives the round trip.
pub proof fn law_serialization_round_trip<C>(m: SerializableAnyMap<C>)
    requires
        m.wf(),
    ensures
        serialized_view::<C>(serialized_of(m.entries())) == without_caches(m@),
{
    lemma_serialized_view_of(m.entries());
}

/// A map rebuilt from serialized entries holds no deserialized value: every
/// value is deserialized on first access.
pub proof fn law_rebuilt_map_is_not_deserialized<C>(s: Seq<(StableTypeId, Value)>, k: Seq<char>)
    requires
        serialized_view::<C>(s).contains_key(k),
    ensures
        serialized_view::<C>(s)[k].cached is None,
    decreases s.len(),
{
    if s.len() > 0 && s.last().0@ != k {
        law_rebuilt_map_is_not_deserialized::<C>(s.drop_last(), k);
    }
}

/// Storing a value under a key adds one entry exactly when the key was not
/// there before; the number of entries is that of stored keys, deserialized
/// or not.
pub proof fn law_insert_counts_keys<C>(m: SerializableAnyMap<C>, k: Seq<char>, item: ItemView<C>)
    requires
        m.wf(),
    ensures
        m@.insert(k, item).len() == m@.len() + (if m@.contains_key(k) {
            0int
        } else {
            1int
        }),
{
    lemma_entries_len(m.entries());
    assert(m@.insert(k, item).dom() =~= m@.dom().insert(k));
}

/// Removing a stored key removes one entry.
pub proof fn law_remove_counts_keys<C>(m: SerializableAnyMap<C>, k: Seq<char>)
    requires
        m.wf(),
        m@.contains_key(k),
    ensures
        m@.remove(k).len() == m@.len() - 1,
        !m@.remove(k).contains_key(k),
{
    lemma_entries_len(m.entries());
}

/// A value stored with `insert` is what a later read gives back, without
/// any deserialization: the read keeps the stored value and writes its
/// serialized form anew.
pub proof fn law_read_gives_back_insert<C, L, S>(
    load: L,
    store: S,
    serialized: Value,
    value: C,
    after: ItemView<C>,
)
    where
        L: Fn(&Value) -> Result<C, DeserializerError>,
        S: Fn(&C) -> Value,
    requires
        refreshed(load, store, ItemView { serialized, cached: Some(value) }, after),
    ensures
        after.cached == Some(value),
        store.ensures((&value,), after.serialized),
{
}

/// Once a value has been read, a later read gives back the same value, and
/// so does a lookup that does not deserialize.
pub proof fn law_reads_are_stable<C, L, S>(
    load: L,
    store: S,
    before: ItemView<C>,
    first: ItemView<C>,
    second: ItemView<C>,
)
    where
        L: Fn(&Value) -> Result<C, DeserializerError>,
        S: Fn(&C) -> Value,
    requires
        refreshed(load, store, before, first),
        refreshed(load, store, first, second),
    ensures
        first.cached is Some,
        second.cached == first.cached,
        refreshed(load, store, before, second),
{
}

/// A value stored with `insert` never fails to load: the deserializer is
/// not consulted for it.
pub proof fn law_inserted_value_does_not_fail<C, L>(
    load: L,
    serialized: Value,
    value: C,
    e: DeserializerError,
)
    where L: Fn(&Value) -> Result<C, DeserializerError>,
    ensures
        !load_failed(load, ItemView { serialized, cached: Some(value) }, e),
{
}

/// Removing a value stored with `insert` gives back that value, and leaves
/// the map as it was without the key.
pub proof fn law_remove_gives_back_insert<C, L>(
    load: L,
    m: Map<Seq<char>, ItemView<C>>,
    k: Seq<char>,
    serialized: Value,
    value: C,
    r: Result<C, DeserializerError>,
)
    where L: Fn(&Value) -> Result<C, DeserializerError>,
    requires
        extracted(load, m.insert(k, ItemView { serialized, cached: Some(value) })[k], r),
    ensures
        r == Ok::<C, DeserializerError>(value),
        m.insert(k, ItemView { serialized, cached: Some(value) }).remove(k) == m.remove(k),
{
    assert(m.insert(k, ItemView { serialized, cached: Some(value) }).remove(k) =~= m.remove(k));
}

/// A value whose deserialization failed is gone: a later lookup finds
/// nothing, and the map has one entry fewer.
pub proof fn law_failed_load_removes<C, L>(
    load: L,
    m: SerializableAnyMap<C>,
    k: Seq<char>,
    e: DeserializerError,
)
    where L: Fn(&Value) -> Result<C, DeserializerError>,
    requires
        m.wf(),
        m@.contains_key(k),
        load_failed(load, m@[k], e),
    ensures
        m@[k].cached is None,
        !m@.remove(k).contains_key(k),
        m@.remove(k).len() == m@.len() - 1,
{
    law_remove_counts_keys(m, k);
}

/// What is written to the serialized form by a commit is what the
/// serializer makes of the current value, changed or not; a serialization of
/// the map then carries it.
pub proof fn law_commit_reaches_serialized_form<C, S>(
    store: S,
    serialized: Value,
    value: C,
    after: ItemView<C>,
)
    where S: Fn(&C) -> Value,
    requires
        committed(store, ItemView { serialized, cached: Some(value) }, after),
    ensures
        after.cached == Some(value),
        store.ensures((&value,), after.serialized),
{
}

/// A change made through a guard and committed before the guard is given up
/// is what the map holds afterwards, in deserialized and in serialized form:
/// the serialized form is what the serializer makes of the changed value.
pub proof fn law_committed_change_survives_release<'a, C, S>(
    store: S,
    before: ItemView<C>,
    g: WriteGuard<'a, C>,
)
    where S: Fn(&C) -> Value,
    requires
        committed(store, before, (*g.target())@),
        has_resolved(g),
    ensures
        (*final(g.target()))@.cached == before.cached,
        store.ensures((&before.cached->0,), (*final(g.target()))@.serialized),
{
    lemma_guard_resolved(g);
}

/// Keys stay distinct: no two entries of a well formed map share a key, so
/// the number of entries is the number of keys.
pub proof fn law_one_entry_per_key<C>(m: SerializableAnyMap<C>)
    requires
        m.wf(),
    ensures
        keys_distinct(m.entries()),
        m@.dom().finite(),
        m@.len() == m.entries().len(),
{
    lemma_entries_len(m.entries());
}

} // verus!
