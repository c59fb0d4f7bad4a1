//! One stored entry: the serialized form of a value, and the deserialized
//! value once it has been produced.

use crate::foreign::clone_value;
use crate::write_guard::WriteGuard;
use serde_value::{DeserializerError, Value};
use vstd::prelude::*;

verus! {

/// What a stored entry holds, as the contracts see it.
pub struct ItemView<C> {
    /// The serialized form; this is what a serialization of the map writes.
    pub serialized: Value,
    /// The deserialized value, once it has been produced.
    pub cached: Option<C>,
}

/// `r` refers to the value that `v` holds, or is `None` when `v` is.
pub open spec fn refers_to<C>(r: Option<&C>, v: Option<C>) -> bool {
    match r {
        Some(x) => v == Some(*x),
        None => v is None,
    }
}

/// `after` is what a successful lazy deserialization of `before` leaves:
/// the serialized form unchanged, and a deserialized value that is either the
/// one that was there, or one that `load` returned for the serialized form.
pub open spec fn loaded<C, L: Fn(&Value) -> Result<C, DeserializerError>>(
    load: L,
    before: ItemView<C>,
    after: ItemView<C>,
) -> bool {
    &&& after.serialized == before.serialized
    &&& after.cached is Some
    &&& match before.cached {
        Some(c) => after.cached == Some(c),
        None => load.ensures((&before.serialized,), Ok(after.cached->0)),
    }
}

/// A lazy deserialization of `before` failed with `e`: there was no
/// deserialized value, and `load` returned `e` for the serialized form.
pub open spec fn load_failed<C, L: Fn(&Value) -> Result<C, DeserializerError>>(
    load: L,
    before: ItemView<C>,
    e: DeserializerError,
) -> bool {
    &&& before.cached is None
    &&& load.ensures((&before.serialized,), Err(e))
}

/// `after` is `before` with its serialized form written anew from the
/// deserialized value: the value stays, and the serialized form is what
/// `store` returned for it.
pub open spec fn committed<C, S: Fn(&C) -> Value>(
    store: S,
    before: ItemView<C>,
    after: ItemView<C>,
) -> bool {
    &&& before.cached is Some
    &&& after.cached == before.cached
    &&& store.ensures((&before.cached->0,), after.serialized)
}

/// `after` is what a lazy deserialization of `before` followed by one or more
/// writes of the serialized form leaves.
pub open spec fn refreshed<C, L: Fn(&Value) -> Result<C, DeserializerError>, S: Fn(&C) -> Value>(
    load: L,
    store: S,
    before: ItemView<C>,
    after: ItemView<C>,
) -> bool {
    &&& after.cached is Some
    &&& match before.cached {
        Some(c) => after.cached == Some(c),
        None => load.ensures((&before.serialized,), Ok(after.cached->0)),
    }
    &&& store.ensures((&after.cached->0,), after.serialized)
}

/// `after` is `before` with its deserialized value replaced by what `f`
/// made of it; the serialized form is not touched.
pub open spec fn modified<C, F: FnOnce(C) -> C>(f: F, before: ItemView<C>, after: ItemView<C>) -> bool {
    &&& before.cached is Some
    &&& after.cached is Some
    &&& after.serialized == before.serialized
    &&& f.ensures((before.cached->0,), after.cached->0)
}

/// The outcome `r` of taking the value out of `item`: the deserialized value
/// if there is one, and otherwise what `load` returned for the serialized form.
pub open spec fn extracted<C, L: Fn(&Value) -> Result<C, DeserializerError>>(
    load: L,
    item: ItemView<C>,
    r: Result<C, DeserializerError>,
) -> bool {
    match item.cached {
        Some(c) => r == Ok::<C, DeserializerError>(c),
        None => load.ensures((&item.serialized,), r),
    }
}

/// `item` with its deserialized value dropped.
pub open spec fn without_cache<C>(item: ItemView<C>) -> ItemView<C> {
    ItemView { serialized: item.serialized, cached: None }
}

/// A stored entry: the serialized representation, and an optional
/// deserialized value. The deserialized value is never serialized, cloned or
/// reconstructed by a deserialization of the map; it is produced by a lazy
/// access.
pub struct RawItem<C> {
    serialized: Value,
    value: Option<C>,
}

impl<C> View for RawItem<C> {
    type V = ItemView<C>;

    closed spec fn view(&self) -> ItemView<C> {
        ItemView { serialized: self.serialized, cached: self.value }
    }
}

impl<C> Clone for RawItem<C> {
    /// Clones the serialized form only: the deserialized value is not cloned.
    fn clone(&self) -> (r: Self)
        ensures
            r@ == without_cache(self@),
    {
        RawItem { serialized: clone_value(&self.serialized), value: None }
    }
}

impl<C> RawItem<C> {
    pub(crate) fn new(serialized: Value, value: Option<C>) -> (r: Self)
        ensures
            r@ == (ItemView { serialized, cached: value }),
    {
        RawItem { serialized, value }
    }

    /// The serialized form.
    pub(crate) fn serialized(&self) -> (r: &Value)
        ensures
            *r == self@.serialized,
    {
        &self.serialized
    }

    /// Whether the value has been deserialized.
    pub(crate) fn is_deserialized(&self) -> (r: bool)
        ensures
            r == self@.cached is Some,
    {
        self.value.is_some()
    }

    /// The deserialized value, if there is one. Does not deserialize.
    pub(crate) fn try_get(&self) -> (r: Option<&C>)
        ensures
            refers_to(r, self@.cached),
    {
        self.value.as_ref()
    }

    /// Deserializes the serialized form with `load` unless that was done
    /// already, and keeps the result.
    pub(crate) fn load<L>(&mut self, load: L) -> (r: Result<(), DeserializerError>) where
        L: Fn(&Value) -> Result<C, DeserializerError>,

        requires
            forall|v: &Value| #[trigger] load.requires((v,)),
        ensures
            match r {
                Ok(_) => loaded(load, old(self)@, final(self)@),
                Err(e) => load_failed(load, old(self)@, e) && *final(self) == *old(self),
            },
    {
        if self.value.is_none() {
            match load(&self.serialized) {
                Ok(c) => {
                    self.value = Some(c);
                    Ok(())
                },
                Err(e) => Err(e),
            }
        } else {
            Ok(())
        }
    }

    /// Writes the serialized form anew from the deserialized value.
    pub(crate) fn commit<S>(&mut self, store: S) where S: Fn(&C) -> Value,
        requires
            old(self)@.cached is Some,
            forall|c: &C| #[trigger] store.requires((c,)),
        ensures
            committed(store, old(self)@, final(self)@),
    {
        match &self.value {
            Some(c) => {
                let s = store(c);
                self.serialized = s;
            },
            None => {},
        }
    }

    /// The deserialized value.
    pub(crate) fn cached(&self) -> (r: &C)
        requires
            self@.cached is Some,
        ensures
            self@.cached == Some(*r),
    {
        self.value.as_ref().unwrap()
    }

    /// A mutable reference to the deserialized value.
    pub(crate) fn cached_mut(&mut self) -> (r: &mut C)
        requires
            old(self)@.cached is Some,
        ensures
            old(self)@.cached == Some(*r),
            final(self)@ == (ItemView { serialized: old(self)@.serialized, cached: Some(*final(r)) }),
    {
        self.value.as_mut().unwrap()
    }

    /// Replaces the deserialized value with what `f` makes of it.
    pub(crate) fn modify<F>(&mut self, f: F) where F: FnOnce(C) -> C,
        requires
            old(self)@.cached is Some,
            f.requires((old(self)@.cached->0,)),
        ensures
            final(self)@.serialized == old(self)@.serialized,
            final(self)@.cached is Some,
            f.ensures((old(self)@.cached->0,), final(self)@.cached->0),
    {
        match self.value.take() {
            Some(c) => {
                self.value = Some(f(c));
            },
            None => {},
        }
    }

    /// Deserializes lazily and returns a guard through which the value can
    /// be read and changed.
    pub(crate) fn get_mut<'a, L>(&'a mut self, load: L) -> (r: Result<
        WriteGuard<'a, C>,
        DeserializerError,
    >) where L: Fn(&Value) -> Result<C, DeserializerError>,
        requires
            forall|v: &Value| #[trigger] load.requires((v,)),
        ensures
            match r {
                Ok(g) => {
                    &&& loaded(load, old(self)@, (*g.target())@)
                    &&& *final(self) == *final(g.target())
                },
                Err(e) => load_failed(load, old(self)@, e) && *final(self) == *old(self),
            },
    {
        match self.load(load) {
            Ok(_) => Ok(WriteGuard::new(self)),
            Err(e) => Err(e),
        }
    }

    /// Deserializes lazily, writes the serialized form anew from the value,
    /// and returns a reference to the value.
    pub(crate) fn get<'a, L, S>(&'a mut self, load: L, store: S) -> (r: Result<
        &'a C,
        DeserializerError,
    >) where L: Fn(&Value) -> Result<C, DeserializerError>, S: Fn(&C) -> Value,
        requires
            forall|v: &Value| #[trigger] load.requires((v,)),
            forall|c: &C| #[trigger] store.requires((c,)),
        ensures
            match r {
                Ok(c) => refreshed(load, store, old(self)@, final(self)@) && final(self)@.cached
                    == Some(*c),
                Err(e) => load_failed(load, old(self)@, e) && *final(self) == *old(self),
            },
    {
        match self.get_mut(load) {
            Ok(g) => Ok(g.into_ref(store)),
            Err(e) => Err(e),
        }
    }

    /// Takes the value out: the deserialized value if there is one, and
    /// otherwise the result of deserializing the serialized form.
    pub(crate) fn into_inner<L>(self, load: L) -> (r: Result<C, DeserializerError>) where
        L: Fn(&Value) -> Result<C, DeserializerError>,

        requires
            forall|v: &Value| #[trigger] load.requires((v,)),
        ensures
            extracted(load, self@, r),
    {
        match self.value {
            Some(c) => Ok(c),
            None => load(&self.serialized),
        }
    }

    /// Takes out the deserialized value.
    pub(crate) fn take_cached(self) -> (c: C)
        requires
            self@.cached is Some,
        ensures
            self@.cached == Some(c),
    {
        self.value.unwrap()
    }

    pub(crate) fn wrap(self) -> (r: Item<C>)
        ensures
            r@ == self@,
    {
        Item(self)
    }
}

/// An entry taken out of the map, as returned by `insert`: the previous
/// value stored under the same key.
pub struct Item<C>(RawItem<C>);

impl<C> View for Item<C> {
    type V = ItemView<C>;

    closed spec fn view(&self) -> ItemView<C> {
        self.0@
    }
}

impl<C> Item<C> {
    /// The deserialized value, if it was deserialized already. Does not
    /// deserialize.
    pub fn try_get(&self) -> (r: Option<&C>)
        ensures
            refers_to(r, self@.cached),
    {
        self.0.try_get()
    }

    /// The value, deserializing it with `load` if necessary; the serialized
    /// form is then written anew from the value with `store`.
    pub fn get<L, S>(&mut self, load: L, store: S) -> (r: Result<&C, DeserializerError>) where
        L: Fn(&Value) -> Result<C, DeserializerError>,
        S: Fn(&C) -> Value,

        requires
            forall|v: &Value| #[trigger] load.requires((v,)),
            forall|c: &C| #[trigger] store.requires((c,)),
        ensures
            match r {
                Ok(c) => refreshed(load, store, old(self)@, final(self)@) && final(self)@.cached
                    == Some(*c),
                Err(e) => load_failed(load, old(self)@, e) && final(self)@ == old(self)@,
            },
    {
        self.0.get(load, store)
    }

    /// A guard through which the value can be read and changed, deserializing
    /// it with `load` if necessary.
    pub fn get_mut<'a, L>(&'a mut self, load: L) -> (r: Result<WriteGuard<'a, C>, DeserializerError>) where
        L: Fn(&Value) -> Result<C, DeserializerError>,

        requires
            forall|v: &Value| #[trigger] load.requires((v,)),
        ensures
            match r {
                Ok(g) => {
                    &&& loaded(load, old(self)@, (*g.target())@)
                    &&& final(self)@ == (*final(g.target()))@
                },
                Err(e) => load_failed(load, old(self)@, e) && final(self)@ == old(self)@,
            },
    {
        self.0.get_mut(load)
    }

    /// Takes the value out: the deserialized value if there is one, and
    /// otherwise the result of deserializing the serialized form with `load`.
    pub fn into_inner<L>(self, load: L) -> (r: Result<C, DeserializerError>) where
        L: Fn(&Value) -> Result<C, DeserializerError>,

        requires
            forall|v: &Value| #[trigger] load.requires((v,)),
        ensures
            extracted(load, self@, r),
    {
        self.0.into_inner(load)
    }
}

} // verus!
