//! A view into one key of the map, in the manner of `HashMap::entry`.

use crate::item::{
    committed, extracted, load_failed, loaded, modified, refers_to, refreshed, ItemView, RawItem,
};
use crate::map::{
    lemma_entries_at, lemma_entries_push, lemma_entries_remove, lemma_entries_update,
    SerializableAnyMap,
};
use crate::stable_type_id::StableTypeId;
use crate::write_guard::WriteGuard;
use serde_value::{DeserializerError, Value};
use vstd::prelude::*;

verus! {

/// An occupied entry: a key under which a value is stored.
pub struct OccupiedEntry<'a, C> {
    map: &'a mut SerializableAnyMap<C>,
    index: usize,
}

/// A vacant entry: a key with nothing stored under it.
pub struct VacantEntry<'a, C> {
    map: &'a mut SerializableAnyMap<C>,
    key: StableTypeId,
}

/// A view into a single key of the map.
pub enum Entry<'a, C> {
    /// A key under which a value is stored.
    Occupied(OccupiedEntry<'a, C>),
    /// A key with nothing stored under it.
    Vacant(VacantEntry<'a, C>),
}

/// Returned by `try_insert` when a value is stored already: the entry that
/// holds it, and the value that was not inserted.
pub struct OccupiedError<'a, C> {
    /// The entry in the map that was already occupied.
    pub entry: OccupiedEntry<'a, C>,
    /// The value which was not inserted, because the entry was already occupied.
    pub value: C,
}

impl<'a, C> OccupiedEntry<'a, C> {
    /// The map this entry belongs to.
    pub closed spec fn map_ref(self) -> &'a mut SerializableAnyMap<C> {
        self.map
    }

    /// Where the entry is stored.
    pub closed spec fn index(self) -> int {
        self.index as int
    }

    /// The key of the entry.
    pub open spec fn key(self) -> Seq<char> {
        (*self.map_ref()).entries()[self.index()].0@
    }

    /// What the entry holds.
    pub open spec fn item(self) -> ItemView<C> {
        (*self.map_ref())@[self.key()]
    }

    /// The map is well formed and the entry is stored in it.
    pub open spec fn wf(self) -> bool {
        &&& (*self.map_ref()).wf()
        &&& 0 <= self.index() < (*self.map_ref()).entries().len()
        &&& (*self.map_ref())@.contains_key(self.key())
        &&& self.item() == (*self.map_ref()).entries()[self.index()].1@
    }

    pub(crate) fn new(map: &'a mut SerializableAnyMap<C>, index: usize) -> (e: Self)
        requires
            old(map).wf(),
            index < old(map).entries().len(),
        ensures
            e.wf(),
            *e.map_ref() == *old(map),
            e.index() == index,
            *final(e.map_ref()) == *final(map),
    {
        proof {
            lemma_entries_at(old(map).entries(), index as int);
        }
        OccupiedEntry { map, index }
    }

    /// The deserialized value, if the value was deserialized already. Does not
    /// deserialize.
    pub fn try_get(&self) -> (r: Option<&C>)
        requires
            self.wf(),
        ensures
            refers_to(r, self.item().cached),
    {
        self.map.item_at(self.index).try_get()
    }

    /// The value, deserialized with `load` unless that was done already; the
    /// serialized form is then written anew from it with `store`.
    pub fn get<L, S>(&mut self, load: L, store: S) -> (r: Result<&C, DeserializerError>) where
        L: Fn(&Value) -> Result<C, DeserializerError>,
        S: Fn(&C) -> Value,

        requires
            old(self).wf(),
            forall|v: &Value| #[trigger] load.requires((v,)),
            forall|c: &C| #[trigger] store.requires((c,)),
        ensures
            final(self).wf(),
            final(self).key() == old(self).key(),
            *final(final(self).map_ref()) == *final(old(self).map_ref()),
            match r {
                Ok(c) => {
                    &&& refreshed(load, store, old(self).item(), final(self).item())
                    &&& final(self).item().cached == Some(*c)
                    &&& (*final(self).map_ref())@ == (*old(self).map_ref())@.insert(
                        old(self).key(),
                        final(self).item(),
                    )
                },
                Err(e) => {
                    &&& load_failed(load, old(self).item(), e)
                    &&& (*final(self).map_ref())@ == (*old(self).map_ref())@
                },
            },
    {
        let ghost s = self.map.entries();
        let ghost i = self.index as int;
        let item = self.map.item_mut(self.index);
        let ghost fin = *final(item);
        let r = item.get(load, store);
        proof {
            lemma_entries_update(s, i, (s[i].0, fin));
            lemma_entries_at(s.update(i, (s[i].0, fin)), i);
            assert(s.update(i, (s[i].0, fin))[i] == (s[i].0, fin));
            match r {
                Ok(_) => {},
                Err(_) => {
                    assert(s.update(i, (s[i].0, fin)) =~= s);
                },
            }
        }
        r
    }

    /// A guard through which the value can be read and changed, borrowing the
    /// entry; the value is deserialized with `load` unless that was done
    /// already.
    pub fn get_mut<'b, L>(&'b mut self, load: L) -> (r: Result<WriteGuard<'b, C>, DeserializerError>) where
        L: Fn(&Value) -> Result<C, DeserializerError>,

        requires
            old(self).wf(),
            forall|v: &Value| #[trigger] load.requires((v,)),
        ensures
            final(self).wf(),
            final(self).key() == old(self).key(),
            *final(final(self).map_ref()) == *final(old(self).map_ref()),
            match r {
                Ok(g) => {
                    &&& loaded(load, old(self).item(), (*g.target())@)
                    &&& final(self).item() == (*final(g.target()))@
                    &&& (*final(self).map_ref())@ == (*old(self).map_ref())@.insert(
                        old(self).key(),
                        (*final(g.target()))@,
                    )
                },
                Err(e) => {
                    &&& load_failed(load, old(self).item(), e)
                    &&& (*final(self).map_ref())@ == (*old(self).map_ref())@
                },
            },
    {
        let ghost s = self.map.entries();
        let ghost i = self.index as int;
        let item = self.map.item_mut(self.index);
        let ghost fin = *final(item);
        let r = item.get_mut(load);
        proof {
            lemma_entries_update(s, i, (s[i].0, fin));
            lemma_entries_at(s.update(i, (s[i].0, fin)), i);
            assert(s.update(i, (s[i].0, fin))[i] == (s[i].0, fin));
            match r {
                Ok(_) => {},
                Err(_) => {
                    assert(s.update(i, (s[i].0, fin)) =~= s);
                },
            }
        }
        r
    }

    /// Removes the entry and returns its value: the deserialized value if
    /// there is one, and otherwise what `load` makes of the serialized form.
    pub fn remove<L>(self, load: L) -> (r: Result<C, DeserializerError>) where
        L: Fn(&Value) -> Result<C, DeserializerError>,

        requires
            self.wf(),
            forall|v: &Value| #[trigger] load.requires((v,)),
        ensures
            extracted(load, self.item(), r),
            (*final(self.map_ref())).wf(),
            (*final(self.map_ref()))@ == (*self.map_ref())@.remove(self.key()),
    {
        proof {
            lemma_entries_remove((*self.map).entries(), self.index as int);
        }
        let (_, item) = self.map.remove_at(self.index);
        item.into_inner(load)
    }

    /// Turns the entry into a guard over the value that lives as long as the
    /// borrow of the map; the value is deserialized with `load` unless that was
    /// done already.
    pub fn into_mut<L>(self, load: L) -> (r: Result<WriteGuard<'a, C>, DeserializerError>) where
        L: Fn(&Value) -> Result<C, DeserializerError>,

        requires
            self.wf(),
            forall|v: &Value| #[trigger] load.requires((v,)),
        ensures
            (*final(self.map_ref())).wf(),
            match r {
                Ok(g) => {
                    &&& loaded(load, self.item(), (*g.target())@)
                    &&& (*final(self.map_ref()))@ == (*self.map_ref())@.insert(
                        self.key(),
                        (*final(g.target()))@,
                    )
                },
                Err(e) => {
                    &&& load_failed(load, self.item(), e)
                    &&& (*final(self.map_ref()))@ == (*self.map_ref())@
                },
            },
    {
        let ghost s = self.map.entries();
        let ghost i = self.index as int;
        let item = self.map.item_mut(self.index);
        let ghost fin = *final(item);
        let r = item.get_mut(load);
        proof {
            lemma_entries_update(s, i, (s[i].0, fin));
            match r {
                Ok(_) => {},
                Err(_) => {
                    assert(s.update(i, (s[i].0, fin)) =~= s);
                },
            }
        }
        r
    }

    /// Replaces the value with `value`, serialized with `store`, and returns
    /// the value that was there: the deserialized value if there was one, and
    /// otherwise what `load` makes of the serialized form.
    pub fn insert<L, S>(&mut self, value: C, load: L, store: S) -> (r: Result<C, DeserializerError>) where
        L: Fn(&Value) -> Result<C, DeserializerError>,
        S: Fn(&C) -> Value,

        requires
            old(self).wf(),
            forall|v: &Value| #[trigger] load.requires((v,)),
            forall|c: &C| #[trigger] store.requires((c,)),
        ensures
            final(self).wf(),
            final(self).key() == old(self).key(),
            *final(final(self).map_ref()) == *final(old(self).map_ref()),
            final(self).item().cached == Some(value),
            store.ensures((&value,), final(self).item().serialized),
            (*final(self).map_ref())@ == (*old(self).map_ref())@.insert(
                old(self).key(),
                final(self).item(),
            ),
            extracted(load, old(self).item(), r),
    {
        let ghost s = self.map.entries();
        let ghost i = self.index as int;
        let serialized = store(&value);
        let mut old_item = RawItem::new(serialized, Some(value));
        let item = self.map.item_mut(self.index);
        let ghost fin = *final(item);
        std::mem::swap(item, &mut old_item);
        proof {
            lemma_entries_update(s, i, (s[i].0, fin));
            lemma_entries_at(s.update(i, (s[i].0, fin)), i);
            assert(s.update(i, (s[i].0, fin))[i] == (s[i].0, fin));
        }
        old_item.into_inner(load)
    }
}

impl<'a, C> OccupiedEntry<'a, C> {
    /// Deserializes the value with `load` unless that was done already,
    /// replaces it with what `f` makes of it, and writes the serialized form
    /// anew with `store`. Nothing changes where the deserialization fails.
    pub(crate) fn modify_with<F, L, S>(&mut self, f: F, load: L, store: S) where
        F: FnOnce(C) -> C,
        L: Fn(&Value) -> Result<C, DeserializerError>,
        S: Fn(&C) -> Value,

        requires
            old(self).wf(),
            forall|c: C| #[trigger] f.requires((c,)),
            forall|v: &Value| #[trigger] load.requires((v,)),
            forall|c: &C| #[trigger] store.requires((c,)),
        ensures
            final(self).wf(),
            final(self).key() == old(self).key(),
            *final(final(self).map_ref()) == *final(old(self).map_ref()),
            (*final(self).map_ref())@ == (*old(self).map_ref())@.insert(
                old(self).key(),
                final(self).item(),
            ),
            modified_entry(f, load, store, old(self).item(), final(self).item()),
    {
        let ghost s = self.map.entries();
        let ghost i = self.index as int;
        let item = self.map.item_mut(self.index);
        let ghost before = item@;
        match item.load(load) {
            Ok(_) => {
                let ghost mid = item@;
                item.modify(f);
                let ghost mid2 = item@;
                item.commit(store);
                assert(loaded(load, before, mid) && modified(f, mid, mid2) && committed(
                    store,
                    mid2,
                    item@,
                ));
            },
            Err(e) => {},
        }
        proof {
            lemma_entries_update(s, i, (s[i].0, *item));
            lemma_entries_at(s.update(i, (s[i].0, *item)), i);
            assert(s.update(i, (s[i].0, *item))[i] == (s[i].0, *item));
        }
    }
}

/// What `and_modify` does to an entry: where `load` fails, nothing;
/// otherwise the value is deserialized, replaced by what `f` makes of it, and
/// the serialized form written anew with `store`.
pub open spec fn modified_entry<C, F, L, S>(
    f: F,
    load: L,
    store: S,
    before: ItemView<C>,
    after: ItemView<C>,
) -> bool where
    F: FnOnce(C) -> C,
    L: Fn(&Value) -> Result<C, DeserializerError>,
    S: Fn(&C) -> Value,
 {
    ||| (after == before && exists|e: DeserializerError| load_failed(load, before, e))
    ||| exists|mid: ItemView<C>, mid2: ItemView<C>|
        loaded(load, before, mid) && modified(f, mid, mid2) && committed(store, mid2, after)
}

/// Once an occupied entry is given up, the map it borrowed keeps the value it
/// has.
pub proof fn lemma_occupied_resolved<'a, C>(e: OccupiedEntry<'a, C>)
    requires
        has_resolved(e),
    ensures
        *final(e.map_ref()) == *e.map_ref(),
{
}

/// Once a vacant entry is given up, the map it borrowed keeps the value it
/// has.
pub proof fn lemma_vacant_resolved<'a, C>(e: VacantEntry<'a, C>)
    requires
        has_resolved(e),
    ensures
        *final(e.map_ref()) == *e.map_ref(),
{
}

/// Once an entry is given up, the map it borrowed keeps the value it has.
pub proof fn lemma_entry_resolved<'a, C>(e: Entry<'a, C>)
    requires
        has_resolved(e),
    ensures
        *final(e.map_ref()) == *e.map_ref(),
{
    match e {
        Entry::Occupied(o) => lemma_occupied_resolved(o),
        Entry::Vacant(v) => lemma_vacant_resolved(v),
    }
}

impl<'a, C> Entry<'a, C> {
    /// The map this entry belongs to.
    pub open spec fn map_ref(self) -> &'a mut SerializableAnyMap<C> {
        match self {
            Entry::Occupied(e) => e.map_ref(),
            Entry::Vacant(e) => e.map_ref(),
        }
    }

    /// The key of the entry.
    pub open spec fn key(self) -> Seq<char> {
        match self {
            Entry::Occupied(e) => e.key(),
            Entry::Vacant(e) => e.key(),
        }
    }

    /// The map is well formed, and the entry is occupied exactly when
    /// something is stored under its key.
    pub open spec fn wf(self) -> bool {
        match self {
            Entry::Occupied(e) => e.wf(),
            Entry::Vacant(e) => e.wf(),
        }
    }

    /// What is stored under the key once the entry is filled: the value that
    /// was there, deserialized with `load` if it was not already, or else the
    /// value `new` serialized with `store`.
    pub open spec fn filled<L, S>(self, load: L, store: S, new: C, after: ItemView<C>) -> bool where
        L: Fn(&Value) -> Result<C, DeserializerError>,
        S: Fn(&C) -> Value,
     {
        let m = (*self.map_ref())@;
        if m.contains_key(self.key()) {
            loaded(load, m[self.key()], after)
        } else {
            after.cached == Some(new) && store.ensures((&new,), after.serialized)
        }
    }

    /// Ensures a value is in the entry by inserting `default` if it is vacant,
    /// and returns a guard over the value; the value that was there is
    /// deserialized with `load` unless that was done already.
    pub fn or_insert<L, S>(self, default: C, load: L, store: S) -> (r: Result<
        WriteGuard<'a, C>,
        DeserializerError,
    >) where L: Fn(&Value) -> Result<C, DeserializerError>, S: Fn(&C) -> Value,
        requires
            self.wf(),
            forall|v: &Value| #[trigger] load.requires((v,)),
            forall|c: &C| #[trigger] store.requires((c,)),
        ensures
            (*final(self.map_ref())).wf(),
            match r {
                Ok(g) => {
                    &&& self.filled(load, store, default, (*g.target())@)
                    &&& (*final(self.map_ref()))@ == (*self.map_ref())@.insert(
                        self.key(),
                        (*final(g.target()))@,
                    )
                },
                Err(e) => {
                    &&& (*self.map_ref())@.contains_key(self.key())
                    &&& load_failed(load, (*self.map_ref())@[self.key()], e)
                    &&& (*final(self.map_ref()))@ == (*self.map_ref())@
                },
            },
    {
        match self {
            Entry::Occupied(e) => e.into_mut(load),
            Entry::Vacant(e) => Ok(e.insert(default, store)),
        }
    }

    /// Ensures a value is in the entry by inserting the result of `default`
    /// if it is vacant, and returns a guard over the value; the value that was
    /// there is deserialized with `load` unless that was done already.
    pub fn or_insert_with<F, L, S>(self, default: F, load: L, store: S) -> (r: Result<
        WriteGuard<'a, C>,
        DeserializerError,
    >) where
        F: FnOnce() -> C,
        L: Fn(&Value) -> Result<C, DeserializerError>,
        S: Fn(&C) -> Value,

        requires
            self.wf(),
            default.requires(()),
            forall|v: &Value| #[trigger] load.requires((v,)),
            forall|c: &C| #[trigger] store.requires((c,)),
        ensures
            (*final(self.map_ref())).wf(),
            match r {
                Ok(g) => {
                    &&& (*self.map_ref())@.contains_key(self.key()) ==> loaded(
                        load,
                        (*self.map_ref())@[self.key()],
                        (*g.target())@,
                    )
                    &&& !(*self.map_ref())@.contains_key(self.key()) ==> {
                        &&& (*g.target())@.cached is Some
                        &&& default.ensures((), (*g.target())@.cached->0)
                        &&& store.ensures(
                            (&(*g.target())@.cached->0,),
                            (*g.target())@.serialized,
                        )
                    }
                    &&& (*final(self.map_ref()))@ == (*self.map_ref())@.insert(
                        self.key(),
                        (*final(g.target()))@,
                    )
                },
                Err(e) => {
                    &&& (*self.map_ref())@.contains_key(self.key())
                    &&& load_failed(load, (*self.map_ref())@[self.key()], e)
                    &&& (*final(self.map_ref()))@ == (*self.map_ref())@
                },
            },
    {
        match self {
            Entry::Occupied(e) => e.into_mut(load),
            Entry::Vacant(e) => {
                let value = default();
                Ok(e.insert(value, store))
            },
        }
    }

    /// Ensures a value is in the entry by inserting the default value of `C`
    /// if it is vacant, and returns a guard over the value; the value that was
    /// there is deserialized with `load` unless that was done already.
    pub fn or_default<L, S>(self, load: L, store: S) -> (r: Result<
        WriteGuard<'a, C>,
        DeserializerError,
    >) where C: Default, L: Fn(&Value) -> Result<C, DeserializerError>, S: Fn(&C) -> Value,
        requires
            self.wf(),
            forall|v: &Value| #[trigger] load.requires((v,)),
            forall|c: &C| #[trigger] store.requires((c,)),
        ensures
            (*final(self.map_ref())).wf(),
            match r {
                Ok(g) => {
                    &&& (*self.map_ref())@.contains_key(self.key()) ==> loaded(
                        load,
                        (*self.map_ref())@[self.key()],
                        (*g.target())@,
                    )
                    &&& !(*self.map_ref())@.contains_key(self.key()) ==> {
                        &&& (*g.target())@.cached is Some
                        &&& call_ensures(<C as Default>::default, (), (*g.target())@.cached->0)
                        &&& store.ensures(
                            (&(*g.target())@.cached->0,),
                            (*g.target())@.serialized,
                        )
                    }
                    &&& (*final(self.map_ref()))@ == (*self.map_ref())@.insert(
                        self.key(),
                        (*final(g.target()))@,
                    )
                },
                Err(e) => {
                    &&& (*self.map_ref())@.contains_key(self.key())
                    &&& load_failed(load, (*self.map_ref())@[self.key()], e)
                    &&& (*final(self.map_ref()))@ == (*self.map_ref())@
                },
            },
    {
        match self {
            Entry::Occupied(e) => e.into_mut(load),
            Entry::Vacant(e) => Ok(e.insert(C::default(), store)),
        }
    }

    /// Changes the value of an occupied entry in place: deserializes it with
    /// `load` unless that was done already, replaces it with what `f` makes of
    /// it, and writes the serialized form anew with `store`. A vacant entry,
    /// or one whose value fails to deserialize, is left as it is.
    pub fn and_modify<F, L, S>(self, f: F, load: L, store: S) -> (r: Self) where
        F: FnOnce(C) -> C,
        L: Fn(&Value) -> Result<C, DeserializerError>,
        S: Fn(&C) -> Value,

        requires
            self.wf(),
            forall|c: C| #[trigger] f.requires((c,)),
            forall|v: &Value| #[trigger] load.requires((v,)),
            forall|c: &C| #[trigger] store.requires((c,)),
        ensures
            r.wf(),
            r.key() == self.key(),
            (r is Occupied) == (self is Occupied),
            *final(r.map_ref()) == *final(self.map_ref()),
            (self is Vacant) ==> (*r.map_ref())@ == (*self.map_ref())@,
            (self is Occupied) ==> {
                &&& (*r.map_ref())@.contains_key(self.key())
                &&& (*r.map_ref())@ == (*self.map_ref())@.insert(
                    self.key(),
                    (*r.map_ref())@[self.key()],
                )
                &&& modified_entry(
                    f,
                    load,
                    store,
                    (*self.map_ref())@[self.key()],
                    (*r.map_ref())@[self.key()],
                )
            },
    {
        match self {
            Entry::Occupied(mut e) => {
                e.modify_with(f, load, store);
                Entry::Occupied(e)
            },
            Entry::Vacant(e) => Entry::Vacant(e),
        }
    }

    /// The occupied entry, if the entry is occupied.
    pub fn into_occupied(self) -> (r: Option<OccupiedEntry<'a, C>>)
        ensures
            r == match self {
                Entry::Occupied(e) => Some(e),
                Entry::Vacant(_) => None::<OccupiedEntry<'a, C>>,
            },
    {
        match self {
            Entry::Occupied(e) => Some(e),
            Entry::Vacant(_) => None,
        }
    }

    /// The vacant entry, if the entry is vacant.
    pub fn into_vacant(self) -> (r: Option<VacantEntry<'a, C>>)
        ensures
            r == match self {
                Entry::Vacant(e) => Some(e),
                Entry::Occupied(_) => None::<VacantEntry<'a, C>>,
            },
    {
        match self {
            Entry::Vacant(e) => Some(e),
            Entry::Occupied(_) => None,
        }
    }
}

impl<'a, C> VacantEntry<'a, C> {
    /// The map this entry belongs to.
    pub closed spec fn map_ref(self) -> &'a mut SerializableAnyMap<C> {
        self.map
    }

    /// The key of the entry.
    pub closed spec fn key(self) -> Seq<char> {
        self.key@
    }

    /// The map is well formed and holds nothing under the key.
    pub open spec fn wf(self) -> bool {
        &&& (*self.map_ref()).wf()
        &&& !(*self.map_ref())@.contains_key(self.key())
    }

    pub(crate) fn new(map: &'a mut SerializableAnyMap<C>, key: StableTypeId) -> (e: Self)
        requires
            old(map).wf(),
            !old(map)@.contains_key(key@),
        ensures
            e.wf(),
            *e.map_ref() == *old(map),
            e.key() == key@,
            *final(e.map_ref()) == *final(map),
    {
        VacantEntry { map, key }
    }

    /// Stores `value` under the key, serialized with `store`, and returns a
    /// guard over it.
    pub fn insert<S>(self, value: C, store: S) -> (g: WriteGuard<'a, C>) where
        S: Fn(&C) -> Value,

        requires
            self.wf(),
            forall|c: &C| #[trigger] store.requires((c,)),
        ensures
            (*g.target())@.cached == Some(value),
            store.ensures((&value,), (*g.target())@.serialized),
            (*final(self.map_ref())).wf(),
            (*final(self.map_ref()))@ == (*self.map_ref())@.insert(
                self.key(),
                (*final(g.target()))@,
            ),
    {
        let serialized = store(&value);
        let ghost s = self.map.entries();
        let n = self.map.push_entry(self.key, RawItem::new(serialized, Some(value)));
        let ghost s1 = self.map.entries();
        proof {
            lemma_entries_push(s, s1[n as int]);
        }
        let item = self.map.item_mut(n);
        proof {
            assert(s1.update(n as int, (s1[n as int].0, *final(item))) =~= s.push(
                (s1[n as int].0, *final(item)),
            ));
            lemma_entries_push(s, (s1[n as int].0, *final(item)));
        }
        WriteGuard::new(item)
    }

    /// Stores an already serialized value under the key, without a
    /// deserialized value; it is deserialized on first access.
    pub fn insert_serialized(self, value: Value)
        requires
            self.wf(),
        ensures
            (*final(self.map_ref())).wf(),
            (*final(self.map_ref()))@ == (*self.map_ref())@.insert(
                self.key(),
                ItemView { serialized: value, cached: None },
            ),
    {
        let item = RawItem::new(value, None);
        proof {
            lemma_entries_push((*self.map).entries(), (self.key, item));
        }
        self.map.push_entry(self.key, item);
    }
}

} // verus!
