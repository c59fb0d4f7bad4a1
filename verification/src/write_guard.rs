//! Mutable access to a deserialized value, with a way to write the
//! serialized form anew from it.

use crate::item::{committed, ItemView, RawItem};
use serde_value::Value;
use vstd::prelude::*;

verus! {

/// A guard over a stored entry whose value has been deserialized. Changes made
/// through `deref_mut` reach the serialized form when `commit` or `into_ref`
/// runs.
pub struct WriteGuard<'a, C> {
    entry: &'a mut RawItem<C>,
}

/// Once a guard is given up, the entry it held keeps the value it has then:
/// what was written through the guard is what the map holds.
pub proof fn lemma_guard_resolved<'a, C>(g: WriteGuard<'a, C>)
    requires
        has_resolved(g),
    ensures
        *final(g.target()) == *g.target(),
{
}

impl<'a, C> WriteGuard<'a, C> {
    /// The entry this guard holds.
    pub closed spec fn target(self) -> &'a mut RawItem<C> {
        self.entry
    }

    /// The entry holds a deserialized value.
    pub open spec fn wf(self) -> bool {
        (*self.target())@.cached is Some
    }

    pub(crate) fn new(entry: &'a mut RawItem<C>) -> (g: WriteGuard<'a, C>)
        requires
            old(entry)@.cached is Some,
        ensures
            *g.target() == *old(entry),
            *final(g.target()) == *final(entry),
    {
        WriteGuard { entry }
    }

    /// Writes the serialized form anew from the (possibly changed) value.
    pub fn commit<S>(&mut self, store: S) where S: Fn(&C) -> Value,
        requires
            old(self).wf(),
            forall|c: &C| #[trigger] store.requires((c,)),
        ensures
            final(self).wf(),
            committed(store, (*old(self).target())@, (*final(self).target())@),
            *final(final(self).target()) == *final(old(self).target()),
    {
        self.entry.commit(store);
    }

    /// Writes the serialized form anew and gives up the guard, returning a
    /// reference to the value.
    pub fn into_ref<S>(self, store: S) -> (r: &'a C) where S: Fn(&C) -> Value,
        requires
            self.wf(),
            forall|c: &C| #[trigger] store.requires((c,)),
        ensures
            committed(store, (*self.target())@, (*final(self.target()))@),
            (*final(self.target()))@.cached == Some(*r),
    {
        self.entry.commit(store);
        self.entry.cached()
    }

    /// The value.
    pub fn deref(&self) -> (r: &C)
        requires
            self.wf(),
        ensures
            (*self.target())@.cached == Some(*r),
    {
        self.entry.cached()
    }

    /// A mutable reference to the value. The serialized form is not written
    /// until `commit` or `into_ref`.
    pub fn deref_mut(&mut self) -> (r: &mut C)
        requires
            old(self).wf(),
        ensures
            (*old(self).target())@.cached == Some(*r),
            (*final(self).target())@ == (ItemView {
                serialized: (*old(self).target())@.serialized,
                cached: Some(*final(r)),
            }),
            *final(final(self).target()) == *final(old(self).target()),
    {
        self.entry.cached_mut()
    }
}

} // verus!
